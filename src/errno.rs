use vstd::prelude::*;

verus! {

/// The error codes that filesystem operations report.
#[derive(Debug, Clone, Copy, PartialEq, Eq, Structural)]
pub enum Errno {
    Badf,
    Exist,
    Inval,
    Io,
    Isdir,
    Noent,
    Nomem,
    Notdir,
    Notempty,
    Notcapable,
}

pub open spec fn errno_code(e: Errno) -> u16 {
    match e {
        Errno::Badf => 8,
        Errno::Exist => 20,
        Errno::Inval => 28,
        Errno::Io => 29,
        Errno::Isdir => 31,
        Errno::Noent => 44,
        Errno::Nomem => 48,
        Errno::Notdir => 54,
        Errno::Notempty => 55,
        Errno::Notcapable => 76,
    }
}

impl Errno {
    /// The numeric code of the error as the guest sees it.
    pub fn raw(&self) -> (r: u16)
        ensures
            r == errno_code(*self),
    {
        match self {
            Errno::Badf => 8,
            Errno::Exist => 20,
            Errno::Inval => 28,
            Errno::Io => 29,
            Errno::Isdir => 31,
            Errno::Noent => 44,
            Errno::Nomem => 48,
            Errno::Notdir => 54,
            Errno::Notempty => 55,
            Errno::Notcapable => 76,
        }
    }
}

/// The kind of a node of the tree.
#[derive(Debug, Clone, Copy, PartialEq, Eq, Structural)]
pub enum Filetype {
    Directory,
    RegularFile,
}

impl Filetype {
    /// The numeric code of the file type as the guest sees it.
    pub fn raw(&self) -> (r: u8)
        ensures
            r == (if *self == Filetype::Directory { 3u8 } else { 4u8 }),
    {
        match self {
            Filetype::Directory => 3,
            Filetype::RegularFile => 4,
        }
    }
}

/// The base a seek offset is counted from.
#[derive(Debug, Clone, Copy, PartialEq, Eq, Structural)]
pub enum Whence {
    Start,
    Current,
    End,
}

impl Whence {
    /// Decodes a raw whence code; an unknown code is `Inval`.
    pub fn from_raw(code: u32) -> (r: Result<Whence, Errno>)
        ensures
            code == 0 ==> r == Ok::<Whence, Errno>(Whence::Start),
            code == 1 ==> r == Ok::<Whence, Errno>(Whence::Current),
            code == 2 ==> r == Ok::<Whence, Errno>(Whence::End),
            code > 2 ==> r == Err::<Whence, Errno>(Errno::Inval),
    {
        match code {
            0 => Ok(Whence::Start),
            1 => Ok(Whence::Current),
            2 => Ok(Whence::End),
            _ => Err(Errno::Inval),
        }
    }
}

} // verus!
