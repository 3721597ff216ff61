use vstd::prelude::*;

use crate::body::RegularFile;
use crate::errno::{Errno, Whence};
use crate::tree::{DirEntries, FileId, ROOT_FILE};

verus! {

/// A descriptor number.
pub type Fd = u32;

pub const FDFLAGS_APPEND: u16 = 1;

/// An open file: its body, the position of the next read or write, and for
/// a preopen the path it is advertised under.
pub struct FileDesc {
    pub file: FileId,
    pub pos: u64,
    pub preopen: Option<String>,
}

impl FileDesc {
    pub fn new(file: FileId, pos: u64, preopen: Option<String>) -> (r: FileDesc)
        ensures
            r.file == file,
            r.pos == pos,
            r.preopen == preopen,
    {
        FileDesc { file, pos, preopen }
    }

    /// Moves the position to `offset` past the start, the current position
    /// or `size`, the size of the file; `Inval` where that overflows.
    pub fn seek(&mut self, offset: u64, whence: Whence, size: u64) -> (r: Result<u64, Errno>)
        ensures
            ({
                let base = match whence {
                    Whence::Start => 0,
                    Whence::Current => old(self).pos as int,
                    Whence::End => size as int,
                };
                if base + offset > u64::MAX {
                    r == Err::<u64, Errno>(Errno::Inval) && *final(self) == *old(self)
                } else {
                    r == Ok::<u64, Errno>((base + offset) as u64) && final(self).pos == base + offset
                        && final(self).file == old(self).file && final(self).preopen == old(self).preopen
                }
            }),
    {
        let base: u64 = match whence {
            Whence::Start => 0,
            Whence::Current => self.pos,
            Whence::End => size,
        };
        match base.checked_add(offset) {
            None => Err(Errno::Inval),
            Some(p) => {
                self.pos = p;
                Ok(p)
            },
        }
    }

    /// Moves the position `n` bytes on, after a read or write of `n` bytes
    /// at the current position; `Inval` where that overflows.
    pub fn advance(&mut self, n: u64) -> (r: Result<u64, Errno>)
        ensures
            old(self).pos + n > u64::MAX ==> r == Err::<u64, Errno>(Errno::Inval) && *final(self) == *old(self),
            old(self).pos + n <= u64::MAX ==> r == Ok::<u64, Errno>((old(self).pos + n) as u64)
                && final(self).pos == old(self).pos + n && final(self).file == old(self).file
                && final(self).preopen == old(self).preopen,
    {
        self.seek(n, Whence::Current, 0)
    }
}

/// The descriptors: descriptor `fd` stands at index `fd`, and the next
/// descriptor handed out is the length of the table.
pub struct FDTable {
    pub map: Vec<Option<FileDesc>>,
}

/// `o` is an open descriptor on `file` at `pos`, advertised as `preopen`.
pub open spec fn desc_at(o: Option<FileDesc>, file: int, pos: u64, preopen: Option<String>) -> bool {
    match o {
        Some(d) => d.file == file && d.pos == pos && d.preopen == preopen,
        None => false,
    }
}

/// `o` is the root directory preopened as `/`.
pub open spec fn is_root_preopen(o: Option<FileDesc>) -> bool {
    match o {
        Some(d) => d.file == ROOT_FILE && d.pos == 0 && match d.preopen {
            Some(s) => s@ == seq!['/'],
            None => false,
        },
        None => false,
    }
}

/// Whether descriptor `fd` is open in `m`.
pub open spec fn is_open(m: Seq<Option<FileDesc>>, fd: int) -> bool {
    0 <= fd < m.len() && m[fd] is Some
}

impl FDTable {
    pub open spec fn view(&self) -> Seq<Option<FileDesc>> {
        self.map@
    }

    /// The standard streams at 0, 1 and 2, on three new empty bodies, and
    /// the root directory preopened as `/` at 3.
    pub fn init(ents: &mut DirEntries) -> (r: FDTable)
        requires
            old(ents).wf(),
            old(ents).files@.len() + 3 < usize::MAX,
        ensures
            final(ents).wf(),
            final(ents).tbl() == old(ents).tbl(),
            final(ents).files@.len() == old(ents).files@.len() + 3,
            final(ents).files@.subrange(0, old(ents).files@.len() as int) == old(ents).files@,
            r.map@.len() == 4,
            forall|fd: int| 0 <= fd < 3 ==> desc_at(#[trigger] r.map@[fd], old(ents).files@.len() + fd, 0, None),
            forall|fd: int| 0 <= fd < 3 ==> crate::tree::is_empty_file(#[trigger] final(ents).files@[old(ents).files@.len() + fd]),
            is_root_preopen(r.map@[3]),
    {
        let ghost f0 = ents.files@;
        let mut t = FDTable { map: Vec::new() };
        let mut i: usize = 0;
        while i < 3
            invariant
                i <= 3,
                ents.wf(),
                ents.tbl() == old(ents).tbl(),
                f0 == old(ents).files@,
                f0.len() + 3 < usize::MAX,
                ents.files@.len() == f0.len() + i,
                ents.files@.subrange(0, f0.len() as int) == f0,
                t.map@.len() == i,
                forall|fd: int| 0 <= fd < i ==> desc_at(#[trigger] t.map@[fd], f0.len() + fd, 0, None),
                forall|fd: int| 0 <= fd < i ==> crate::tree::is_empty_file(#[trigger] ents.files@[f0.len() + fd]),
            decreases 3 - i,
        {
            let ghost before = ents.files@;
            let file = ents.add_body(RegularFile::Buf(Vec::new()));
            t.map.push(Some(FileDesc::new(file, 0, None)));
            proof {
                assert(ents.files@.subrange(0, f0.len() as int) =~= before.subrange(0, f0.len() as int));
                assert forall|fd: int| 0 <= fd < i + 1 implies crate::tree::is_empty_file(#[trigger] ents.files@[f0.len() + fd]) by {
                    if fd < i {
                        assert(ents.files@[f0.len() + fd] == before[f0.len() + fd]);
                    }
                }
                assert forall|fd: int| 0 <= fd < i + 1 implies desc_at(#[trigger] t.map@[fd], f0.len() + fd, 0, None) by {}
            }
            i = i + 1;
        }
        let ghost m3 = t.map@;
        let name = "/".to_owned();
        proof {
            reveal_strlit("/");
            assert(name@ =~= seq!['/']);
        }
        t.preopen(ROOT_FILE, name);
        proof {
            assert forall|fd: int| 0 <= fd < 3 implies desc_at(#[trigger] t.map@[fd], f0.len() + fd, 0, None) by {
                assert(t.map@[fd] == m3[fd]);
            }
        }
        t
    }

    /// The descriptor `fd`; `Badf` where it is not open.
    pub fn get(&self, fd: Fd) -> (r: Result<&FileDesc, Errno>)
        ensures
            is_open(self@, fd as int) ==> r == Ok::<&FileDesc, Errno>(&self@[fd as int].unwrap()),
            !is_open(self@, fd as int) ==> r == Err::<&FileDesc, Errno>(Errno::Badf),
    {
        if (fd as usize) < self.map.len() {
            match &self.map[fd as usize] {
                Some(d) => Ok(d),
                None => Err(Errno::Badf),
            }
        } else {
            Err(Errno::Badf)
        }
    }

    fn insert(&mut self, d: FileDesc) -> (fd: Fd)
        requires
            old(self)@.len() < u32::MAX,
        ensures
            fd == old(self)@.len(),
            final(self)@ == old(self)@.push(Some(d)),
    {
        let fd = self.map.len() as Fd;
        self.map.push(Some(d));
        fd
    }

    /// Opens a new descriptor on `file` at position 0, advertised as `preopen`.
    pub fn preopen(&mut self, file: FileId, preopen: String) -> (fd: Fd)
        requires
            old(self)@.len() < u32::MAX,
        ensures
            fd == old(self)@.len(),
            final(self)@.len() == old(self)@.len() + 1,
            final(self)@.drop_last() == old(self)@,
            desc_at(final(self)@.last(), file as int, 0, Some(preopen)),
    {
        let r = self.insert(FileDesc::new(file, 0, Some(preopen)));
        assert(self@.drop_last() =~= old(self)@);
        r
    }

    /// Opens a new descriptor on `file`, of size `size`: at its end under
    /// `FDFLAGS_APPEND`, else at 0.
    pub fn open(&mut self, file: FileId, flags: u16, size: u64) -> (fd: Fd)
        requires
            old(self)@.len() < u32::MAX,
        ensures
            fd == old(self)@.len(),
            final(self)@.len() == old(self)@.len() + 1,
            final(self)@.drop_last() == old(self)@,
            desc_at(final(self)@.last(), file as int, if flags & FDFLAGS_APPEND != 0 { size } else { 0 }, None),
    {
        let pos = if flags & FDFLAGS_APPEND != 0 {
            size
        } else {
            0
        };
        let r = self.insert(FileDesc::new(file, pos, None));
        assert(self@.drop_last() =~= old(self)@);
        r
    }

    /// Closes `fd`; `Badf` where it is not open.
    pub fn close(&mut self, fd: Fd) -> (r: Result<(), Errno>)
        ensures
            is_open(old(self)@, fd as int) ==> r is Ok && final(self)@ == old(self)@.update(fd as int, None),
            !is_open(old(self)@, fd as int) ==> r == Err::<(), Errno>(Errno::Badf) && final(self)@ == old(self)@,
    {
        if (fd as usize) < self.map.len() && self.map[fd as usize].is_some() {
            self.map.set(fd as usize, None);
            Ok(())
        } else {
            Err(Errno::Badf)
        }
    }

    /// Exchanges the descriptors `from` and `to`. `Badf` where either is not
    /// open or is a preopen.
    pub fn renumber(&mut self, from: Fd, to: Fd) -> (r: Result<(), Errno>)
        ensures
            if is_open(old(self)@, from as int) && is_open(old(self)@, to as int) && old(self)@[from as int].unwrap().preopen is None
                && old(self)@[to as int].unwrap().preopen is None {
                r is Ok && final(self)@ == old(self)@.update(from as int, old(self)@[to as int]).update(to as int, old(self)@[from as int])
            } else {
                r == Err::<(), Errno>(Errno::Badf) && final(self)@ == old(self)@
            },
    {
        let ok = match (self.get(from), self.get(to)) {
            (Ok(a), Ok(b)) => a.preopen.is_none() && b.preopen.is_none(),
            _ => false,
        };
        if !ok {
            return Err(Errno::Badf);
        }
        if from == to {
            assert(self@ =~= self@.update(from as int, self@[to as int]).update(to as int, self@[from as int]));
            return Ok(());
        }
        let ghost m0 = self@;
        let mut a: Option<FileDesc> = None;
        self.map.set_and_swap(from as usize, &mut a);
        let mut b = a;
        self.map.set_and_swap(to as usize, &mut b);
        self.map.set(from as usize, b);
        proof {
            assert(self@ =~= m0.update(from as int, m0[to as int]).update(to as int, m0[from as int]));
        }
        Ok(())
    }

    /// Applies `FileDesc::seek` to the descriptor `fd`; `Badf` where it is
    /// not open.
    pub fn seek(&mut self, fd: Fd, offset: u64, whence: Whence, size: u64) -> (r: Result<u64, Errno>)
        ensures
            !is_open(old(self)@, fd as int) ==> r == Err::<u64, Errno>(Errno::Badf) && final(self)@ == old(self)@,
            is_open(old(self)@, fd as int) ==> final(self)@.len() == old(self)@.len() && (forall|x: int|
                0 <= x < old(self)@.len() && x != fd ==> final(self)@[x] == old(self)@[x]) && final(self)@[fd as int] is Some
                && ({
                let d0 = old(self)@[fd as int].unwrap();
                let d1 = final(self)@[fd as int].unwrap();
                let base = match whence {
                    Whence::Start => 0,
                    Whence::Current => d0.pos as int,
                    Whence::End => size as int,
                };
                if base + offset > u64::MAX {
                    r == Err::<u64, Errno>(Errno::Inval) && d1 == d0
                } else {
                    r == Ok::<u64, Errno>((base + offset) as u64) && d1.pos == base + offset && d1.file == d0.file
                        && d1.preopen == d0.preopen
                }
            }),
    {
        if !((fd as usize) < self.map.len() && self.map[fd as usize].is_some()) {
            return Err(Errno::Badf);
        }
        let ghost m0 = self@;
        let mut slot: Option<FileDesc> = None;
        self.map.set_and_swap(fd as usize, &mut slot);
        let mut d = slot.unwrap();
        let r = d.seek(offset, whence, size);
        self.map.set(fd as usize, Some(d));
        r
    }

    /// Moves the position of `fd` on by `n`, after a transfer of `n` bytes at
    /// its current position (see `FileDesc::advance`).
    pub fn advance(&mut self, fd: Fd, n: u64) -> (r: Result<u64, Errno>)
        ensures
            !is_open(old(self)@, fd as int) ==> r == Err::<u64, Errno>(Errno::Badf) && final(self)@ == old(self)@,
            is_open(old(self)@, fd as int) ==> final(self)@.len() == old(self)@.len() && (forall|x: int|
                0 <= x < old(self)@.len() && x != fd ==> final(self)@[x] == old(self)@[x]) && final(self)@[fd as int] is Some
                && ({
                let d0 = old(self)@[fd as int].unwrap();
                let d1 = final(self)@[fd as int].unwrap();
                if d0.pos + n > u64::MAX {
                    r == Err::<u64, Errno>(Errno::Inval) && d1 == d0
                } else {
                    r == Ok::<u64, Errno>((d0.pos + n) as u64) && d1.pos == d0.pos + n && d1.file == d0.file
                        && d1.preopen == d0.preopen
                }
            }),
    {
        self.seek(fd, n, Whence::Current, 0)
    }
}

} // verus!
