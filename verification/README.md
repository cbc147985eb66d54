# imgmaker

Reads, unpacks and rebuilds firmware images of Akai MPC and Force devices (format V2, from
firmware 3.4).

    mpcimg2 -i <image>                    tell what is in an image
    mpcimg2 -x <image>                    also copy the compressed partition, to a file of the
                                          image's own name and .tmp.xz in the current directory
    mpcimg2 -r <image> <rootfs>           verify the partition's hash code and take the root file
                                          system out
    mpcimg2 -m <image> <rootfs> <image>   make an image with another root file system

`src/` is the library, verified with Verus. It works on the bytes of whole files:

- `layout`: where everything lies in an image, what reading it comes to, what is reported of it
- `records`, `reader`, `bytes`: the fixed-size records, a position in an image, little-endian
  numbers
- `image`: reading and reporting
- `rebuild`: taking the root file system out, making an image
- `codec`: SHA-1 and xz
- `text`, `command`: the pieces of reports, and what a command line asks for
- `laws`: what holds of images as wholes

`app/` is the command-line tool around it. xz2 is used with its feature `static`, so that the
streams it makes do not depend on the liblzma of the machine.
