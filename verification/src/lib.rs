//! Firmware images of Akai MPC and Force devices: telling what is in one, taking the root file
//! system out of it and making one with another root file system.
//!
//! The library works on the bytes of whole files. [`layout`] says, in specification functions,
//! where everything lies in an image, what reading it comes to and what is reported of it;
//! [`image`] reads images accordingly and [`rebuild`] unpacks and makes them. [`laws`] holds what
//! follows for images as wholes, above all that what is put into an image comes out of it again.
//!
//! What all this is for is said without [`layout`]: [`assembly`] writes an image down front to back
//! and shows that reading takes it apart again, [`making`] says what is made and taken out of such an
//! image and when that fails, [`telling`] reads numbers and names back from their text, and
//! [`reports`] shows that a report on an image tells what its pieces are.
//!
//! Taken on trust are the calls into byteorder (in [`bytes`]), sha1 and xz2 (in [`codec`]) and
//! of `std::str::from_utf8` (in [`text`]), each as its wrapper's contract states.

pub mod assembly;
pub mod bytes;
pub mod codec;
pub mod command;
pub mod error;
pub mod image;
pub mod laws;
pub mod layout;
pub mod making;
pub mod reader;
pub mod rebuild;
pub mod records;
pub mod reports;
pub mod telling;
pub mod text;
