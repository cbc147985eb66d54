//! What a command line asks for, and the lines and names that go with doing it.

use vstd::prelude::*;
use vstd::string::StrSliceExecFns;
use vstd::string::StringExecFns;

use crate::text::{hex_bytes, number, push_hex_bytes, push_number};

verus! {

/// What is to be done, and with which files.
#[derive(Debug)]
pub enum Action {
    /// Tell what is in an image.
    Info(String),
    /// Tell what is in an image and copy the compressed partition out of it.
    Extract(String),
    /// Take the root file system out of an image (first name) into a file (second name).
    Rootfs(String, String),
    /// Make, from an image (first name) and a root file system (second name), an image (third
    /// name).
    Make(String, String, String),
}

/// An [`Action`] with the names as sequences of characters.
pub enum Request {
    Info(Seq<char>),
    Extract(Seq<char>),
    Rootfs(Seq<char>, Seq<char>),
    Make(Seq<char>, Seq<char>, Seq<char>),
}

impl View for Action {
    type V = Request;

    open spec fn view(&self) -> Request {
        match *self {
            Action::Info(image) => Request::Info(image@),
            Action::Extract(image) => Request::Extract(image@),
            Action::Rootfs(image, part) => Request::Rootfs(image@, part@),
            Action::Make(image, part, made) => Request::Make(image@, part@, made@),
        }
    }
}

/// What the arguments, the first of which is the program's name, ask for.
pub open spec fn requested(args: Seq<String>) -> Option<Request> {
    if args.len() < 2 {
        None
    } else if args[1]@ == "-i"@ && args.len() == 3 {
        Some(Request::Info(args[2]@))
    } else if args[1]@ == "-x"@ && args.len() == 3 {
        Some(Request::Extract(args[2]@))
    } else if args[1]@ == "-r"@ && args.len() == 4 {
        Some(Request::Rootfs(args[2]@, args[3]@))
    } else if args[1]@ == "-m"@ && args.len() == 5 {
        Some(Request::Make(args[2]@, args[3]@, args[4]@))
    } else {
        None
    }
}

/// How a request is written on a command line, behind the program's name.
pub open spec fn written(request: Request) -> Seq<Seq<char>> {
    match request {
        Request::Info(image) => seq!["-i"@, image],
        Request::Extract(image) => seq!["-x"@, image],
        Request::Rootfs(image, part) => seq!["-r"@, image, part],
        Request::Make(image, part, made) => seq!["-m"@, image, part, made],
    }
}

/// A command line asks for a request just if it is how the request is written, and for nothing if
/// no request is written so.
pub proof fn law_request_is_written(args: Seq<String>, request: Request)
    ensures
        requested(args) == Some(request) <==> {
            &&& args.len() == written(request).len() + 1
            &&& forall|i: int|
                0 <= i < written(request).len() ==> (#[trigger] written(request)[i]) == args[i + 1]@
        },
{
    let w = written(request);
    reveal_strlit("-i");
    reveal_strlit("-x");
    reveal_strlit("-r");
    reveal_strlit("-m");
    assert("-i"@[1] != "-x"@[1] && "-i"@[1] != "-r"@[1] && "-i"@[1] != "-m"@[1]);
    assert("-x"@[1] != "-r"@[1] && "-x"@[1] != "-m"@[1] && "-r"@[1] != "-m"@[1]);
    if args.len() == w.len() + 1 && (forall|i: int|
        0 <= i < w.len() ==> (#[trigger] w[i]) == args[i + 1]@) {
        assert(w[0] == args[1]@);
        assert(w[1] == args[2]@);
        if w.len() > 2 {
            assert(w[2] == args[3]@);
        }
        if w.len() > 3 {
            assert(w[3] == args[4]@);
        }
    }
}

/// An action is the request of the same kind with the same names.
pub proof fn law_action_is_request(action: Action, x: Seq<char>, y: Seq<char>, z: Seq<char>)
    ensures
        action@ == Request::Info(x) <==> (action matches Action::Info(a) && a@ == x),
        action@ == Request::Extract(x) <==> (action matches Action::Extract(a) && a@ == x),
        action@ == Request::Rootfs(x, y) <==> (action matches Action::Rootfs(a, b) && a@ == x && b@
            == y),
        action@ == Request::Make(x, y, z) <==> (action matches Action::Make(a, b, c) && a@ == x
            && b@ == y && c@ == z),
{
}

/// What the arguments, the first of which is the program's name, ask for; nothing if the program
/// should rather tell how it is used.
pub fn parse_args(args: &Vec<String>) -> (action: Option<Action>)
    ensures
        match action {
            Some(a) => requested(args@) == Some(a@),
            None => requested(args@) is None,
        },
{
    if args.len() < 2 {
        return None;
    }
    let flag: &String = &args[1];
    if args.len() == 3 && *flag == "-i".to_owned() {
        Some(Action::Info(args[2].clone()))
    } else if args.len() == 3 && *flag == "-x".to_owned() {
        Some(Action::Extract(args[2].clone()))
    } else if args.len() == 4 && *flag == "-r".to_owned() {
        Some(Action::Rootfs(args[2].clone(), args[3].clone()))
    } else if args.len() == 5 && *flag == "-m".to_owned() {
        Some(Action::Make(args[2].clone(), args[3].clone(), args[4].clone()))
    } else {
        None
    }
}

/// The name of the file that holds the compressed partition of, or for, the file `name` while the
/// one is unpacked or the other packed.
pub fn temp_name(name: &str) -> (temp: String)
    ensures
        temp@ == name@ + ".tmp.xz"@,
{
    name.to_owned().concat(".tmp.xz")
}

/// The file's own name in a path: the characters behind the last `/`.
pub open spec fn file_name(path: Seq<char>) -> Seq<char>
    decreases path.len(),
{
    if path.len() == 0 || path.last() == '/' {
        Seq::empty()
    } else {
        file_name(path.drop_last()).push(path.last())
    }
}

/// The file's own name ends its path and holds no `/`, and what stands in front of it in the path,
/// if anything, ends with one.
pub proof fn law_file_name_ends_path(path: Seq<char>)
    ensures
        ({
            let n = path.len() - file_name(path).len();
            &&& 0 <= n
            &&& path.skip(n) == file_name(path)
            &&& n > 0 ==> path[n - 1] == '/'
            &&& !file_name(path).contains('/')
        }),
    decreases path.len(),
{
    if path.len() > 0 && path.last() != '/' {
        let front = path.drop_last();
        law_file_name_ends_path(front);
        let n = path.len() - file_name(path).len();
        assert(path.skip(n) =~= front.skip(n).push(path.last()));
        assert forall|i: int| 0 <= i < file_name(path).len() implies file_name(path)[i] != '/' by {
            if i < file_name(front).len() {
                assert(file_name(front)[i] == file_name(path)[i]);
                assert(file_name(front).contains(file_name(front)[i]));
            }
        }
    } else {
        assert(path.skip(path.len() as int) =~= Seq::empty());
    }
}

/// The name of the file, in the current directory, that the compressed partition of the image at
/// `path` is copied to.
pub fn extracted_name(path: &str) -> (temp: String)
    ensures
        temp@ == file_name(path@) + ".tmp.xz"@,
        !temp@.contains('/'),
{
    let len: usize = path.unicode_len();
    let mut n: usize = len;
    assert(path@.take(n as int) =~= path@);
    assert(file_name(path@) + path@.skip(len as int) =~= file_name(path@));
    while n > 0 && path.get_char(n - 1) != '/'
        invariant
            n <= len,
            len == path@.len(),
            file_name(path@.take(n as int)) + path@.skip(n as int) == file_name(path@),
        decreases n,
    {
        assert(path@.take(n as int).drop_last() =~= path@.take(n - 1));
        assert(seq![path@[n - 1]] + path@.skip(n as int) =~= path@.skip(n - 1));
        assert(file_name(path@.take(n - 1)) + path@.skip(n - 1) =~= file_name(
            path@.take(n as int),
        ) + path@.skip(n as int));
        n -= 1;
    }
    assert(file_name(path@.take(n as int)) + path@.skip(n as int) =~= path@.skip(n as int));
    assert(path@.subrange(n as int, len as int) =~= path@.skip(n as int));
    let temp = path.substring_char(n, len).to_owned().concat(".tmp.xz");
    proof {
        law_file_name_ends_path(path@);
        reveal_strlit(".tmp.xz");
        assert forall|i: int| 0 <= i < temp@.len() implies temp@[i] != '/' by {
            if i < file_name(path@).len() {
                assert(file_name(path@).contains(file_name(path@)[i]));
            }
        }
    }
    temp
}

/// The line that tells the digest of the file `name`.
pub fn sha1_line(name: &str, hash: &[u8]) -> (line: String)
    ensures
        line@ == "SHA-1 of "@ + name@ + ": "@ + hex_bytes(hash@) + "\n"@,
{
    let mut line = "SHA-1 of ".to_owned();
    line.append(name);
    line.append(": ");
    push_hex_bytes(&mut line, hash);
    line.append("\n");
    line
}

/// How many bytes are read between two lines on the progress: ten mebibytes.
pub const PROGRESS_STEP: u64 = 10_485_760;

/// The line on the progress of a compression that has read `bytes_read` of `input_size` bytes, if
/// there is one at this point.
pub fn progress_line(bytes_read: u64, input_size: u64) -> (line: Option<String>)
    ensures
        match line {
            Some(l) => {
                &&& bytes_read % PROGRESS_STEP == 0
                &&& bytes_read % 10_485_760 == 0
                &&& l@ == " -> "@ + number(bytes_read as nat, 10) + " / "@ + number(
                    input_size as nat,
                    10,
                ) + " bytes read     \r"@
            },
            None => bytes_read % PROGRESS_STEP != 0 && bytes_read % 10_485_760 != 0,
        },
{
    if bytes_read % PROGRESS_STEP != 0 {
        return None;
    }
    let mut line = " -> ".to_owned();
    push_number(&mut line, bytes_read, 10);
    line.append(" / ");
    push_number(&mut line, input_size, 10);
    line.append(" bytes read     \r");
    Some(line)
}

/// The line that ends the progress of a compression that has read `bytes_read` bytes.
pub fn read_line(bytes_read: u64) -> (line: String)
    ensures
        line@ == " -> "@ + number(bytes_read as nat, 10)
            + " bytes read (EOF).                          \n"@,
{
    let mut line = " -> ".to_owned();
    push_number(&mut line, bytes_read, 10);
    line.append(" bytes read (EOF).                          \n");
    line
}

} // verus!
