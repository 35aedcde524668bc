//! Composefs file formats, with their behaviour proved.
//!
//! - Split streams (`splitstream`): the content of a file as inline pieces and references to
//!   objects, compressed. `streamlaws` states that what is written is read back, `checklaws` what a
//!   writer puts out and which digest it is held against, `fragmentlaws` what a reader makes of each
//!   fragment, and `contentlaws` what the content of a whole stream is.
//! - Dumpfiles (`dumpfile`): the text form of a file system tree (`tree`). `linelaws` and
//!   `dumplaws` state that a tree that is written is read back, `fieldlaws` and `walklaws` what stands
//!   in each line and which lines there are, and `parselaws` and `readlaws` what is made of a line
//!   that is read. `treelaws` states what paths lead to in a tree, and `imagelaws` what an image is
//!   made of.
//! - Downloads (`download`): what to ask a server for, and what to accept. `downloadlaws` states
//!   that all that is needed is asked for, and nothing else, and `fetchlaws` what each step does.
//!
//! The remaining modules are what these rest on, with `textlaws`, `namelaws`, `maplaws` and `iolaws`.

pub mod error;
pub mod bytestr;
pub mod bytemap;
pub mod maplaws;
pub mod text;
pub mod textlaws;
pub mod path;
pub mod namelaws;
pub mod io;
pub mod iolaws;
pub mod hash;
pub mod compress;
pub mod fsverity;
pub mod digestmap;
pub mod splitstream;
pub mod streamlaws;
pub mod checklaws;
pub mod fragmentlaws;
pub mod contentlaws;
pub mod tree;
pub mod treelaws;
pub mod dumpfile;
pub mod dumpfile_parse;
pub mod dumpfile_read;
pub mod linelaws;
pub mod fieldlaws;
pub mod dumplaws;
pub mod walklaws;
pub mod parselaws;
pub mod readlaws;
pub mod filesystem_ops;
pub mod imagelaws;
pub mod download;
pub mod downloadlaws;
pub mod fetchlaws;
