//! An in-memory virtual filesystem: a directory tree whose children live in
//! an entry table keyed by small integers, file bodies held inline or as
//! references to host URLs, and a table of file descriptors.
//!
//! The host's own work (moving bytes, fetching URLs, listing host
//! directories) stays outside: the functions here take what the host
//! delivered as arguments.
use vstd::prelude::*;

pub mod body;
pub mod errno;
pub mod fd;
pub mod laws;
pub mod listing;
pub mod path;
pub mod tree;

pub use body::RegularFile;
pub use errno::{Errno, Filetype, Whence};
pub use fd::{FDTable, Fd, FileDesc, FDFLAGS_APPEND};
pub use listing::{listed_entries, pair_lines, split_lines};
pub use path::resolve_path;
pub use tree::{
    Dir, DirEntries, DirEntriesKey, DirEntry, File, FileId, OFLAGS_CREAT, OFLAGS_DIRECTORY,
    OFLAGS_EXCL, OFLAGS_TRUNC, ROOT_ENTRIES, ROOT_FILE,
};
