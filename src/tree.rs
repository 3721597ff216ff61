use vstd::prelude::*;
use vstd::string::StringSliceAdditionalSpecFns;

use crate::body::RegularFile;
use crate::errno::{Errno, Filetype};
use crate::path::{resolve_path, resolved, views};

verus! {

/// Key of a directory's children list in the entry table.
pub type DirEntriesKey = u32;

/// Index of a file body in the entry table's arena of bodies.
pub type FileId = usize;

/// The body of the root directory.
pub const ROOT_FILE: FileId = 0;

/// The key of the root directory's children.
pub const ROOT_ENTRIES: DirEntriesKey = 0;

/// A node of the tree: a directory or a regular file.
pub enum File {
    Dir(Dir),
    RegularFile(RegularFile),
}

/// A directory: the key of its children in the entry table, and whether it
/// is a preopen (a root handed to the guest, which cannot be removed).
#[derive(Debug, Clone, Copy, PartialEq, Eq, Structural)]
pub struct Dir {
    pub entries: DirEntriesKey,
    pub is_preopen: bool,
}

/// A named child of a directory.
pub struct DirEntry {
    pub name: Vec<u8>,
    pub file: FileId,
    pub filetype: Filetype,
    pub entries: Option<DirEntriesKey>,
    pub cookie: u64,
}

/// A table of the children lists of every directory, with the file bodies
/// they name, the next entry cookie, and the current directory against which
/// relative paths are read.
pub struct DirEntries {
    pub buckets: Vec<Option<Vec<DirEntry>>>,
    pub files: Vec<File>,
    pub next_cookie: u64,
    pub current_dir: Vec<u8>,
}

/// The entry table as sequences.
pub type Table = Seq<Option<Seq<DirEntry>>>;

pub open spec fn bucket_view(o: Option<Vec<DirEntry>>) -> Option<Seq<DirEntry>> {
    match o {
        Some(v) => Some(v@),
        None => None,
    }
}

/// Whether `t` holds a children list at `k`.
pub open spec fn has_bucket(t: Table, k: int) -> bool {
    0 <= k < t.len() && t[k] is Some
}

/// Index of the first entry of `b` at or after `i` named `name`.
pub open spec fn find_from(b: Seq<DirEntry>, name: Seq<u8>, i: int) -> Option<int>
    decreases b.len() - i,
{
    if i < 0 || i >= b.len() {
        None
    } else if b[i].name@ == name {
        Some(i)
    } else {
        find_from(b, name, i + 1)
    }
}

proof fn lemma_find_from(b: Seq<DirEntry>, name: Seq<u8>, i: int)
    ensures
        match find_from(b, name, i) {
            Some(j) => i <= j < b.len() && b[j].name@ == name && forall|m: int|
                i <= m < j ==> (#[trigger] b[m]).name@ != name,
            None => forall|m: int| 0 <= i <= m < b.len() ==> (#[trigger] b[m]).name@ != name,
        },
    decreases b.len() - i,
{
    if 0 <= i < b.len() && b[i].name@ != name {
        lemma_find_from(b, name, i + 1);
    }
}

/// What `find_from` returns: the first match at or after `i`.
pub proof fn lemma_find_from_public(b: Seq<DirEntry>, name: Seq<u8>, i: int)
    ensures
        match find_from(b, name, i) {
            Some(j) => i <= j < b.len() && b[j].name@ == name,
            None => true,
        },
{
    lemma_find_from(b, name, i);
}

/// What `find_from` returns from the start: the first match, or no
/// entry of that name at all.
pub proof fn lemma_find_from_all_public(b: Seq<DirEntry>, name: Seq<u8>)
    ensures
        match find_from(b, name, 0) {
            Some(j) => 0 <= j < b.len() && b[j].name@ == name && forall|m: int| 0 <= m < j ==> (#[trigger] b[m]).name@ != name,
            None => forall|m: int| 0 <= m < b.len() ==> (#[trigger] b[m]).name@ != name,
        },
{
    lemma_find_from(b, name, 0);
}

/// Index of the first entry named `name` in the children list `k`.
pub open spec fn lookup_in(t: Table, k: int, name: Seq<u8>) -> Option<int> {
    if has_bucket(t, k) {
        find_from(t[k].unwrap(), name, 0)
    } else {
        None
    }
}

/// The children key of the directory that `comps` names below the directory
/// whose children key is `key`; `None` where a component is missing or
/// names a regular file.
pub open spec fn dir_key_at(t: Table, key: int, comps: Seq<Seq<u8>>) -> Option<int>
    decreases comps.len(),
{
    if comps.len() == 0 {
        Some(key)
    } else {
        match lookup_in(t, key, comps[0]) {
            None => None,
            Some(i) => match t[key].unwrap()[i].entries {
                None => None,
                Some(k) => dir_key_at(t, k as int, comps.drop_first()),
            },
        }
    }
}

/// The children key of the directory that holds the last of `comps`.
pub open spec fn parent_of(t: Table, root: int, comps: Seq<Seq<u8>>) -> Option<int> {
    dir_key_at(t, root, comps.drop_last())
}

/// Where the entry that `comps` names stands: its parent's key and its index.
pub open spec fn locate(t: Table, root: int, comps: Seq<Seq<u8>>) -> Option<(int, int)> {
    match parent_of(t, root, comps) {
        None => None,
        Some(p) => match lookup_in(t, p, comps.last()) {
            None => None,
            Some(i) => Some((p, i)),
        },
    }
}

/// Each directory key is named by at most one entry over the whole table.
pub open spec fn keys_unique_in(t: Table) -> bool {
    forall|k1: int, i1: int, k2: int, i2: int|
        has_bucket(t, k1) && has_bucket(t, k2) && 0 <= i1 < t[k1].unwrap().len() && 0 <= i2 < t[
            k2
        ].unwrap().len() && (#[trigger] t[k1].unwrap()[i1]).entries is Some && t[k1].unwrap()[i1].entries
            == (#[trigger] t[k2].unwrap()[i2]).entries ==> k1 == k2 && i1 == i2
}

/// Cookies increase strictly along every children list.
pub open spec fn cookies_increase_in(t: Table) -> bool {
    forall|k: int, i: int, j: int|
        has_bucket(t, k) && 0 <= i < j < t[k].unwrap().len() ==> (#[trigger] t[k].unwrap()[i]).cookie
            < (#[trigger] t[k].unwrap()[j]).cookie
}

impl DirEntry {
    pub fn is_dir(&self) -> (r: bool)
        ensures
            r == (self.filetype == Filetype::Directory),
    {
        match self.filetype {
            Filetype::Directory => true,
            Filetype::RegularFile => false,
        }
    }

    pub fn is_regular_file(&self) -> (r: bool)
        ensures
            r == (self.filetype == Filetype::RegularFile),
    {
        match self.filetype {
            Filetype::Directory => false,
            Filetype::RegularFile => true,
        }
    }
}

impl DirEntries {
    /// The children lists as sequences.
    pub open spec fn tbl(&self) -> Table {
        self.buckets@.map_values(|o: Option<Vec<DirEntry>>| bucket_view(o))
    }

    pub open spec fn bucket(&self, k: int) -> Seq<DirEntry> {
        self.tbl()[k].unwrap()
    }

    /// What holds of every entry: its body exists and has the entry's type, a
    /// directory's children list exists, and its cookie was handed out.
    pub open spec fn entry_ok(&self, e: DirEntry) -> bool {
        &&& e.file < self.files@.len()
        &&& (e.filetype == Filetype::Directory) == (e.entries is Some)
        &&& match e.entries {
            Some(k) => k != ROOT_ENTRIES && has_bucket(self.tbl(), k as int) && self.files@[e.file as int]
                == File::Dir(Dir { entries: k, is_preopen: false }),
            None => self.files@[e.file as int] is RegularFile,
        }
        &&& e.cookie < self.next_cookie
    }

    pub open spec fn keys_unique(&self) -> bool {
        keys_unique_in(self.tbl())
    }

    pub open spec fn cookies_increase(&self) -> bool {
        cookies_increase_in(self.tbl())
    }

    pub open spec fn wf(&self) -> bool {
        &&& 1 <= self.buckets@.len() <= u32::MAX
        &&& has_bucket(self.tbl(), ROOT_ENTRIES as int)
        &&& 1 <= self.files@.len()
        &&& self.files@[ROOT_FILE as int] == File::Dir(Dir { entries: ROOT_ENTRIES, is_preopen: true })
        &&& forall|k: int, i: int|
            has_bucket(self.tbl(), k) && 0 <= i < self.bucket(k).len() ==> self.entry_ok(
                #[trigger] self.bucket(k)[i],
            )
        &&& self.keys_unique()
        &&& self.cookies_increase()
    }

    /// The initial table: an empty root directory, current directory empty.
    pub fn new() -> (r: DirEntries)
        ensures
            r.wf(),
            r.tbl() == seq![Some(Seq::<DirEntry>::empty())],
            r.files@.len() == 1,
            r.next_cookie == 0,
            r.current_dir@ == Seq::<u8>::empty(),
    {
        let mut buckets: Vec<Option<Vec<DirEntry>>> = Vec::new();
        buckets.push(Some(Vec::new()));
        let mut files: Vec<File> = Vec::new();
        files.push(File::Dir(Dir { entries: ROOT_ENTRIES, is_preopen: true }));
        let r = DirEntries { buckets, files, next_cookie: 0, current_dir: Vec::new() };
        assert(r.tbl() =~= seq![Some(Seq::<DirEntry>::empty())]);
        r
    }
}

fn bytes_eq(a: &[u8], b: &[u8]) -> (r: bool)
    ensures
        r == (a@ == b@),
{
    if a.len() != b.len() {
        return false;
    }
    let mut i: usize = 0;
    while i < a.len()
        invariant
            a@.len() == b@.len(),
            i <= a@.len(),
            forall|j: int| 0 <= j < i ==> a@[j] == b@[j],
        decreases a@.len() - i,
    {
        if a[i] != b[i] {
            return false;
        }
        i = i + 1;
    }
    assert(a@ =~= b@);
    true
}

/// Index of the first entry of `b` named `name`.
fn find_entry(b: &Vec<DirEntry>, name: &[u8]) -> (r: Option<usize>)
    ensures
        index_int(r) == find_from(b@, name@, 0),
{
    let mut i: usize = 0;
    while i < b.len()
        invariant
            i <= b@.len(),
            find_from(b@, name@, 0) == find_from(b@, name@, i as int),
        decreases b@.len() - i,
    {
        if bytes_eq(b[i].name.as_slice(), name) {
            return Some(i);
        }
        i = i + 1;
    }
    None
}

impl DirEntries {
    /// Index of the first entry named `name` in the children list `k`.
    fn lookup_at(&self, k: DirEntriesKey, name: &[u8]) -> (r: Option<usize>)
        ensures
            index_int(r) == lookup_in(self.tbl(), k as int, name@),
    {
        if (k as usize) < self.buckets.len() {
            assert(self.tbl()[k as int] == bucket_view(self.buckets@[k as int]));
            match &self.buckets[k as usize] {
                Some(b) => {
                    assert(has_bucket(self.tbl(), k as int));
                    assert(self.tbl()[k as int].unwrap() == b@);
                    find_entry(b, name)
                },
                None => {
                    assert(!has_bucket(self.tbl(), k as int));
                    None
                },
            }
        } else {
            assert(!has_bucket(self.tbl(), k as int));
            None
        }
    }
}

pub open spec fn key_int(o: Option<DirEntriesKey>) -> Option<int> {
    match o {
        Some(k) => Some(k as int),
        None => None,
    }
}

pub open spec fn index_int(o: Option<usize>) -> Option<int> {
    match o {
        Some(i) => Some(i as int),
        None => None,
    }
}

impl Dir {
    pub fn new(entries: DirEntriesKey, is_preopen: bool) -> (r: Dir)
        ensures
            r == (Dir { entries, is_preopen }),
    {
        Dir { entries, is_preopen }
    }

    /// Walks `comps` from this directory: the key of the children list that
    /// holds the last component, and that component's index there.
    fn resolve_entry(&self, comps: &Vec<Vec<u8>>, ents: &DirEntries) -> (r: (
        Option<DirEntriesKey>,
        Option<usize>,
    ))
        requires
            comps@.len() >= 1,
        ensures
            key_int(r.0) == parent_of(ents.tbl(), self.entries as int, views(comps@)),
            match locate(ents.tbl(), self.entries as int, views(comps@)) {
                Some((p, i)) => index_int(r.1) == Some(i),
                None => r.1 is None,
            },
    {
        let ghost t = ents.tbl();
        let ghost c = views(comps@);
        let ghost front = c.drop_last();
        let n = comps.len();
        let mut cur: Option<DirEntriesKey> = Some(self.entries);
        let mut i: usize = 0;
        assert(front.subrange(0, n - 1) =~= front);
        while i + 1 < n
            invariant
                n == comps@.len(),
                n >= 1,
                c == views(comps@),
                front == c.drop_last(),
                t == ents.tbl(),
                i <= n - 1,
                dir_key_at(t, self.entries as int, front) == match cur {
                    None => None,
                    Some(k) => dir_key_at(t, k as int, front.subrange(i as int, n - 1)),
                },
            decreases n - i,
        {
            if let Some(k) = cur {
                let ghost s = front.subrange(i as int, n - 1);
                assert(s.drop_first() =~= front.subrange(i + 1, n - 1));
                assert(s[0] == comps@[i as int]@);
                assert(s.len() > 0);
                match ents.lookup_at(k, comps[i].as_slice()) {
                    None => {
                        assert(dir_key_at(t, k as int, s) is None);
                        cur = None;
                    },
                    Some(j) => {
                        proof {
                            lemma_find_from(t[k as int].unwrap(), s[0], 0);
                        }
                        let b = ents.buckets[k as usize].as_ref().unwrap();
                        assert(t[k as int] == bucket_view(ents.buckets@[k as int]));
                        assert(t[k as int].unwrap()[j as int] == b@[j as int]);
                        cur = b[j].entries;
                        assert(lookup_in(t, k as int, s[0]) == Some(j as int));
                        assert(dir_key_at(t, k as int, s) == match cur {
                            None => None,
                            Some(k2) => dir_key_at(t, k2 as int, s.drop_first()),
                        });
                    },
                }
            }
            i = i + 1;
        }
        assert(front.subrange(n - 1, n - 1) =~= Seq::<Seq<u8>>::empty());
        match cur {
            None => (None, None),
            Some(k) => {
                assert(c.last() == comps@[n - 1]@);
                (cur, ents.lookup_at(k, comps[n - 1].as_slice()))
            },
        }
    }
}

impl DirEntries {
    /// Appends `e` to the children list `p`.
    fn push_entry(&mut self, p: DirEntriesKey, e: DirEntry)
        requires
            has_bucket(old(self).tbl(), p as int),
        ensures
            final(self).tbl() == old(self).tbl().update(p as int, Some(old(self).bucket(p as int).push(e))),
            final(self).files == old(self).files,
            final(self).next_cookie == old(self).next_cookie,
            final(self).current_dir == old(self).current_dir,
            final(self).buckets@.len() == old(self).buckets@.len(),
    {
        let ghost t0 = self.tbl();
        let mut b: Option<Vec<DirEntry>> = None;
        self.buckets.set_and_swap(p as usize, &mut b);
        assert(t0[p as int] == bucket_view(b));
        let mut v = b.unwrap();
        v.push(e);
        let ghost v1 = v@;
        self.buckets.set(p as usize, Some(v));
        assert(self.tbl() =~= t0.update(p as int, Some(v1)));
    }

    /// Takes the entry at index `i` out of the children list `p`.
    fn remove_entry(&mut self, p: DirEntriesKey, i: usize) -> (e: DirEntry)
        requires
            has_bucket(old(self).tbl(), p as int),
            i < old(self).bucket(p as int).len(),
        ensures
            e == old(self).bucket(p as int)[i as int],
            final(self).tbl() == old(self).tbl().update(p as int, Some(old(self).bucket(p as int).remove(i as int))),
            final(self).files == old(self).files,
            final(self).next_cookie == old(self).next_cookie,
            final(self).current_dir == old(self).current_dir,
            final(self).buckets@.len() == old(self).buckets@.len(),
    {
        let ghost t0 = self.tbl();
        let mut b: Option<Vec<DirEntry>> = None;
        self.buckets.set_and_swap(p as usize, &mut b);
        assert(t0[p as int] == bucket_view(b));
        let mut v = b.unwrap();
        let e = v.remove(i);
        let ghost v1 = v@;
        self.buckets.set(p as usize, Some(v));
        assert(self.tbl() =~= t0.update(p as int, Some(v1)));
        e
    }

    fn bytes_of(&self, k: DirEntriesKey, i: usize) -> (r: Vec<u8>)
        requires
            has_bucket(self.tbl(), k as int),
            i < self.bucket(k as int).len(),
        ensures
            r@ == self.bucket(k as int)[i as int].name@,
    {
        assert(self.tbl()[k as int] == bucket_view(self.buckets@[k as int]));
        let b = self.buckets[k as usize].as_ref().unwrap();
        copy_bytes(b[i].name.as_slice())
    }

    /// Sets the current directory against which relative paths are read.
    pub fn chdir(&mut self, dir: &str)
        ensures
            final(self).current_dir@ == dir.spec_bytes(),
            final(self).tbl() == old(self).tbl(),
            final(self).files == old(self).files,
            final(self).next_cookie == old(self).next_cookie,
            old(self).wf() ==> final(self).wf(),
    {
        self.current_dir = copy_bytes(dir.as_bytes());
        proof {
            if old(self).wf() {
                assert(self.tbl() == old(self).tbl());
                lemma_wf_same_table(*old(self), *self);
            }
        }
    }
}

fn copy_bytes(s: &[u8]) -> (r: Vec<u8>)
    ensures
        r@ == s@,
{
    let mut r: Vec<u8> = Vec::new();
    let mut i: usize = 0;
    while i < s.len()
        invariant
            i <= s@.len(),
            r@ == s@.subrange(0, i as int),
        decreases s@.len() - i,
    {
        r.push(s[i]);
        i = i + 1;
        assert(r@ =~= s@.subrange(0, i as int));
    }
    assert(r@ =~= s@);
    r
}

proof fn lemma_wf_same_table(a: DirEntries, b: DirEntries)
    requires
        a.wf(),
        b.tbl() == a.tbl(),
        b.buckets@.len() == a.buckets@.len(),
        b.files == a.files,
        b.next_cookie == a.next_cookie,
    ensures
        b.wf(),
{
    assert forall|k: int, i: int|
        has_bucket(b.tbl(), k) && 0 <= i < b.bucket(k).len() implies b.entry_ok(
            #[trigger] b.bucket(k)[i],
        ) by {
        assert(a.entry_ok(a.bucket(k)[i]));
    }
    assert(b.keys_unique());
    assert(b.cookies_increase());
}

/// A walk from a list that the table holds ends, if anywhere, at a list
/// that the table holds.
pub proof fn lemma_dir_key_has_bucket(a: DirEntries, key: int, comps: Seq<Seq<u8>>)
    requires
        a.wf(),
        has_bucket(a.tbl(), key),
    ensures
        match dir_key_at(a.tbl(), key, comps) {
            Some(k) => has_bucket(a.tbl(), k),
            None => true,
        },
    decreases comps.len(),
{
    if comps.len() > 0 {
        match lookup_in(a.tbl(), key, comps[0]) {
            None => {},
            Some(i) => {
                lemma_find_from(a.bucket(key), comps[0], 0);
                assert(a.entry_ok(a.bucket(key)[i]));
                match a.bucket(key)[i].entries {
                    None => {},
                    Some(k) => {
                        lemma_dir_key_has_bucket(a, k as int, comps.drop_first());
                    },
                }
            },
        }
    }
}

/// The outcome of an operation that leaves the table as it is.
pub open spec fn unchanged(a: &DirEntries, b: &DirEntries) -> bool {
    &&& b.tbl() == a.tbl()
    &&& b.files == a.files
    &&& b.next_cookie == a.next_cookie
    &&& b.current_dir == a.current_dir
}

/// `b` is `a` with a new empty directory named `name` appended to the
/// children list `p`: a fresh children key, a fresh body, a fresh cookie.
pub open spec fn dir_added(a: &DirEntries, b: &DirEntries, p: int, name: Seq<u8>) -> bool {
    let key = a.tbl().len();
    let e = b.bucket(p).last();
    &&& b.tbl() == a.tbl().update(p, Some(a.bucket(p).push(e))).push(Some(Seq::<DirEntry>::empty()))
    &&& e.name@ == name
    &&& e.file == a.files@.len()
    &&& e.filetype == Filetype::Directory
    &&& e.entries == Some(key as DirEntriesKey)
    &&& e.cookie == a.next_cookie
    &&& b.files@ == a.files@.push(File::Dir(Dir { entries: key as DirEntriesKey, is_preopen: false }))
    &&& b.next_cookie == a.next_cookie + 1
    &&& b.current_dir == a.current_dir
}

/// What `mkdir` does to `a`, giving `b` and `r`, for the path `path` read
/// from the directory whose list is `root`.
pub open spec fn mkdir_spec(a: &DirEntries, b: &DirEntries, root: int, path: Seq<u8>, r: Result<(), Errno>) -> bool {
    match resolved(a.current_dir@, path) {
        None => r == Err::<(), Errno>(Errno::Notcapable) && unchanged(a, b),
        Some(c) => if c.len() == 0 || locate(a.tbl(), root, c) is Some {
            r == Err::<(), Errno>(Errno::Exist) && unchanged(a, b)
        } else {
            match parent_of(a.tbl(), root, c) {
                None => r == Err::<(), Errno>(Errno::Noent) && unchanged(a, b),
                Some(p) => if a.buckets@.len() >= u32::MAX || a.next_cookie
                    == u64::MAX || a.files@.len() == usize::MAX {
                    r == Err::<(), Errno>(Errno::Nomem) && unchanged(a, b)
                } else {
                    r is Ok && dir_added(a, b, p, c.last())
                },
            }
        },
    }
}

/// What `write_file` does to `a`, giving `b` and `r`.
pub open spec fn write_file_spec(a: &DirEntries, b: &DirEntries, root: int, path: Seq<u8>, buf: Vec<u8>, url: Option<String>, r: Result<(), Errno>) -> bool {
    match resolved(a.current_dir@, path) {
        None => r == Err::<(), Errno>(Errno::Notcapable) && unchanged(a, b),
        Some(c) => if c.len() == 0 {
            r == Err::<(), Errno>(Errno::Isdir) && unchanged(a, b)
        } else {
            match locate(a.tbl(), root, c) {
                Some((p, i)) => if a.bucket(p)[i].filetype == Filetype::Directory {
                    r == Err::<(), Errno>(Errno::Isdir) && unchanged(a, b)
                } else {
                    r is Ok && b.tbl() == a.tbl() && b.files@
                        == a.files@.update(
                        a.bucket(p)[i].file as int,
                        File::RegularFile(new_body(buf, url)),
                    ) && b.next_cookie == a.next_cookie
                        && b.current_dir == a.current_dir
                },
                None => match parent_of(a.tbl(), root, c) {
                    None => r == Err::<(), Errno>(Errno::Noent) && unchanged(a, b),
                    Some(p) => if a.next_cookie == u64::MAX || a.files@.len()
                        == usize::MAX {
                        r == Err::<(), Errno>(Errno::Nomem) && unchanged(a, b)
                    } else {
                        r is Ok && file_added(a, b, p, c.last())
                            && b.files@.last() == File::RegularFile(new_body(buf, url))
                    },
                },
            }
        },
    }
}

impl Dir {
    /// Creates an empty directory at `path`. `Exist` where the path names
    /// the root or an existing entry, `Noent` where its parent directory is
    /// missing, `Nomem` where the keys or cookies are used up.
    pub fn mkdir(&self, path: &str, ents: &mut DirEntries) -> (r: Result<(), Errno>)
        requires
            old(ents).wf(),
            self.entries == ROOT_ENTRIES,
        ensures
            final(ents).wf(),
            mkdir_spec(old(ents), final(ents), self.entries as int, path.spec_bytes(), r),
    {
        let comps = resolve_path(ents.current_dir.as_slice(), path.as_bytes())?;
        if comps.len() == 0 {
            return Err(Errno::Exist);
        }
        let (parent, idx) = self.resolve_entry(&comps, ents);
        if idx.is_some() {
            return Err(Errno::Exist);
        }
        let p = match parent {
            None => {
                return Err(Errno::Noent);
            },
            Some(p) => p,
        };
        if ents.buckets.len() >= u32::MAX as usize || ents.next_cookie == u64::MAX
            || ents.files.len() == usize::MAX {
            return Err(Errno::Nomem);
        }
        let ghost a = *ents;
        let ghost c = views(comps@);
        let key = ents.buckets.len() as DirEntriesKey;
        let file = ents.files.len();
        let name = copy_bytes(comps[comps.len() - 1].as_slice());
        let e = DirEntry {
            name,
            file,
            filetype: Filetype::Directory,
            entries: Some(key),
            cookie: ents.next_cookie,
        };
        let ghost eg = e;
        proof {
            lemma_dir_key_has_bucket(a, self.entries as int, c.drop_last());
        }
        ents.push_entry(p, e);
        ents.files.push(File::Dir(Dir { entries: key, is_preopen: false }));
        ents.next_cookie = ents.next_cookie + 1;
        let ghost t1 = ents.tbl();
        ents.buckets.push(Some(Vec::new()));
        proof {
            assert(ents.tbl() =~= t1.push(Some(Seq::<DirEntry>::empty())));
            lemma_dir_added_wf(a, *ents, p as int, eg);
        }
        Ok(())
    }
}

proof fn lemma_dir_added_wf(a: DirEntries, b: DirEntries, p: int, e: DirEntry)
    requires
        a.wf(),
        has_bucket(a.tbl(), p),
        a.tbl().len() < u32::MAX,
        a.next_cookie < u64::MAX,
        b.tbl() == a.tbl().update(p, Some(a.bucket(p).push(e))).push(Some(Seq::<DirEntry>::empty())),
        b.files@ == a.files@.push(File::Dir(Dir { entries: a.tbl().len() as DirEntriesKey, is_preopen: false })),
        b.next_cookie == a.next_cookie + 1,
        b.buckets@.len() == b.tbl().len(),
        e.file == a.files@.len(),
        e.filetype == Filetype::Directory,
        e.entries == Some(a.tbl().len() as DirEntriesKey),
        e.cookie == a.next_cookie,
    ensures
        b.wf(),
{
    let n = a.tbl().len();
    assert(b.files@[ROOT_FILE as int] == a.files@[ROOT_FILE as int]);
    assert forall|k: int| has_bucket(a.tbl(), k) implies has_bucket(b.tbl(), k) by {}
    assert forall|k: int, i: int|
        has_bucket(b.tbl(), k) && 0 <= i < b.bucket(k).len() implies b.entry_ok(
            #[trigger] b.bucket(k)[i],
        ) by {
        if k == n {
        } else if k == p && i == a.bucket(p).len() {
        } else {
            assert(b.bucket(k)[i] == a.bucket(k)[i]);
            assert(a.entry_ok(a.bucket(k)[i]));
            let x = a.bucket(k)[i];
            if let Some(k2) = x.entries {
                assert(has_bucket(b.tbl(), k2 as int));
            }
            assert(b.files@[x.file as int] == a.files@[x.file as int]);
        }
    }
    let ta = a.tbl();
    let tb = b.tbl();
    assert forall|k1: int, i1: int, k2: int, i2: int|
        has_bucket(tb, k1) && has_bucket(tb, k2) && 0 <= i1 < tb[k1].unwrap().len() && 0 <= i2 < tb[
            k2
        ].unwrap().len() && (#[trigger] tb[k1].unwrap()[i1]).entries is Some && tb[k1].unwrap()[i1].entries
            == (#[trigger] tb[k2].unwrap()[i2]).entries implies k1 == k2 && i1 == i2 by {
        let new1 = k1 == p && i1 == ta[p].unwrap().len();
        let new2 = k2 == p && i2 == ta[p].unwrap().len();
        if k1 != n && k2 != n {
            if !new1 {
                assert(tb[k1].unwrap()[i1] == ta[k1].unwrap()[i1]);
                assert(a.entry_ok(a.bucket(k1)[i1]));
            }
            if !new2 {
                assert(tb[k2].unwrap()[i2] == ta[k2].unwrap()[i2]);
                assert(a.entry_ok(a.bucket(k2)[i2]));
            }
            if !new1 && !new2 {
                assert(keys_unique_in(ta));
            }
        }
    }
    assert forall|k: int, i: int, j: int|
        has_bucket(b.tbl(), k) && 0 <= i < j < b.bucket(k).len() implies (#[trigger] b.bucket(
            k,
        )[i]).cookie < (#[trigger] b.bucket(k)[j]).cookie by {
        if k != n {
            assert(b.bucket(k)[i] == a.bucket(k)[i]);
            assert(a.entry_ok(a.bucket(k)[i]));
            if k != p || j < a.bucket(p).len() {
                assert(b.bucket(k)[j] == a.bucket(k)[j]);
            }
        }
    }
    assert(b.keys_unique());
    assert(b.cookies_increase());
    assert(has_bucket(b.tbl(), ROOT_ENTRIES as int));
    assert(1 <= b.buckets@.len() <= u32::MAX);
}

/// `x` and `y` agree in every field, the name compared as bytes.
pub open spec fn same_entry(x: DirEntry, y: DirEntry) -> bool {
    &&& x.name@ == y.name@
    &&& x.file == y.file
    &&& x.filetype == y.filetype
    &&& x.entries == y.entries
    &&& x.cookie == y.cookie
}

/// The entry that stands for the root directory itself.
pub open spec fn is_root_entry(x: DirEntry) -> bool {
    &&& x.name@ == Seq::<u8>::empty()
    &&& x.file == ROOT_FILE
    &&& x.filetype == Filetype::Directory
    &&& x.entries == Some(ROOT_ENTRIES)
    &&& x.cookie == 0
}

/// The body that `write_file` stores: the URL when one is given, else the bytes.
pub open spec fn new_body(buf: Vec<u8>, url: Option<String>) -> RegularFile {
    match url {
        Some(u) => RegularFile::URL { url: u, len: None },
        None => RegularFile::Buf(buf),
    }
}

impl DirEntries {
    fn copy_entry(&self, k: DirEntriesKey, i: usize) -> (r: DirEntry)
        requires
            has_bucket(self.tbl(), k as int),
            i < self.bucket(k as int).len(),
        ensures
            same_entry(r, self.bucket(k as int)[i as int]),
    {
        assert(self.tbl()[k as int] == bucket_view(self.buckets@[k as int]));
        let b = self.buckets[k as usize].as_ref().unwrap();
        let e = &b[i];
        DirEntry {
            name: copy_bytes(e.name.as_slice()),
            file: e.file,
            filetype: e.filetype,
            entries: e.entries,
            cookie: e.cookie,
        }
    }
}

impl Dir {
    /// The entry that `path` names: the root entry for an empty path,
    /// `Noent` where a component is missing.
    pub fn lookup(&self, path: &str, ents: &DirEntries) -> (r: Result<DirEntry, Errno>)
        requires
            ents.wf(),
            self.entries == ROOT_ENTRIES,
        ensures
            match resolved(ents.current_dir@, path.spec_bytes()) {
                None => r == Err::<DirEntry, Errno>(Errno::Notcapable),
                Some(c) => if c.len() == 0 {
                    r is Ok && is_root_entry(r.unwrap())
                } else {
                    match locate(ents.tbl(), self.entries as int, c) {
                        None => r == Err::<DirEntry, Errno>(Errno::Noent),
                        Some((p, i)) => r is Ok && same_entry(r.unwrap(), ents.bucket(p)[i]),
                    }
                },
            },
    {
        let comps = resolve_path(ents.current_dir.as_slice(), path.as_bytes())?;
        if comps.len() == 0 {
            return Ok(
                DirEntry {
                    name: Vec::new(),
                    file: ROOT_FILE,
                    filetype: Filetype::Directory,
                    entries: Some(ROOT_ENTRIES),
                    cookie: 0,
                },
            );
        }
        let (parent, idx) = self.resolve_entry(&comps, ents);
        match (parent, idx) {
            (Some(p), Some(i)) => {
                proof {
                    let c = views(comps@);
                    lemma_find_from(ents.bucket(p as int), c.last(), 0);
                }
                Ok(ents.copy_entry(p, i))
            },
            _ => Err(Errno::Noent),
        }
    }

    /// The children of this directory, in the order they were added.
    pub fn entries<'a>(&self, ents: &'a DirEntries) -> (r: &'a [DirEntry])
        requires
            has_bucket(ents.tbl(), self.entries as int),
        ensures
            r@ == ents.bucket(self.entries as int),
    {
        assert(ents.tbl()[self.entries as int] == bucket_view(ents.buckets@[self.entries as int]));
        ents.buckets[self.entries as usize].as_ref().unwrap().as_slice()
    }

    /// Removes the regular file that `path` names. `Noent` where it is
    /// missing, `Isdir` where it is a directory.
    pub fn unlink(&self, path: &str, ents: &mut DirEntries) -> (r: Result<(), Errno>)
        requires
            old(ents).wf(),
            self.entries == ROOT_ENTRIES,
        ensures
            final(ents).wf(),
            match resolved(old(ents).current_dir@, path.spec_bytes()) {
                None => r == Err::<(), Errno>(Errno::Notcapable) && unchanged(old(ents), final(ents)),
                Some(c) => match (if c.len() == 0 { None } else { locate(old(ents).tbl(), self.entries as int, c) }) {
                    None => r == Err::<(), Errno>(Errno::Noent) && unchanged(old(ents), final(ents)),
                    Some((p, i)) => if old(ents).bucket(p)[i].filetype == Filetype::Directory {
                        r == Err::<(), Errno>(Errno::Isdir) && unchanged(old(ents), final(ents))
                    } else {
                        r is Ok && final(ents).tbl() == old(ents).tbl().update(
                            p,
                            Some(old(ents).bucket(p).remove(i)),
                        ) && final(ents).files == old(ents).files && final(ents).next_cookie
                            == old(ents).next_cookie && final(ents).current_dir == old(ents).current_dir
                    },
                },
            },
    {
        let comps = resolve_path(ents.current_dir.as_slice(), path.as_bytes())?;
        if comps.len() == 0 {
            return Err(Errno::Noent);
        }
        let (parent, idx) = self.resolve_entry(&comps, ents);
        let (p, i) = match (parent, idx) {
            (Some(p), Some(i)) => (p, i),
            _ => {
                return Err(Errno::Noent);
            },
        };
        proof {
            lemma_find_from(ents.bucket(p as int), views(comps@).last(), 0);
        }
        let e = ents.copy_entry(p, i);
        if e.is_dir() {
            return Err(Errno::Isdir);
        }
        let ghost a = *ents;
        ents.remove_entry(p, i);
        proof {
            lemma_removed_wf(a, *ents, p as int, i as int);
        }
        Ok(())
    }

    /// Stores a regular file at `path`: a URL body when `url` is given, else
    /// the bytes `buf`. An existing file keeps its entry and gets the new
    /// body; a missing one is added to its parent. `Isdir` where the path
    /// names a directory, `Noent` where the parent is missing, `Nomem` where
    /// cookies or bodies are used up.
    pub fn write_file(&self, path: &str, buf: Vec<u8>, url: Option<String>, ents: &mut DirEntries) -> (r:
        Result<(), Errno>)
        requires
            old(ents).wf(),
            self.entries == ROOT_ENTRIES,
        ensures
            final(ents).wf(),
            write_file_spec(old(ents), final(ents), self.entries as int, path.spec_bytes(), buf, url, r),
    {
        let comps = resolve_path(ents.current_dir.as_slice(), path.as_bytes())?;
        if comps.len() == 0 {
            return Err(Errno::Isdir);
        }
        let body = match url {
            Some(u) => RegularFile::URL { url: u, len: None },
            None => RegularFile::Buf(buf),
        };
        let (parent, idx) = self.resolve_entry(&comps, ents);
        let p = match parent {
            None => {
                return Err(Errno::Noent);
            },
            Some(p) => p,
        };
        proof {
            lemma_dir_key_has_bucket(*ents, self.entries as int, views(comps@).drop_last());
        }
        match idx {
            Some(i) => {
                proof {
                    lemma_find_from(ents.bucket(p as int), views(comps@).last(), 0);
                }
                let e = ents.copy_entry(p, i);
                if e.is_dir() {
                    return Err(Errno::Isdir);
                }
                let ghost a = *ents;
                proof {
                    assert(a.entry_ok(a.bucket(p as int)[i as int]));
                }
                ents.files.set(e.file, File::RegularFile(body));
                proof {
                    lemma_body_replaced_wf(a, *ents, e.file as int);
                }
                Ok(())
            },
            None => {
                if ents.next_cookie == u64::MAX || ents.files.len() == usize::MAX {
                    return Err(Errno::Nomem);
                }
                let ghost a = *ents;
                let file = ents.files.len();
                let e = DirEntry {
                    name: copy_bytes(comps[comps.len() - 1].as_slice()),
                    file,
                    filetype: Filetype::RegularFile,
                    entries: None,
                    cookie: ents.next_cookie,
                };
                let ghost eg = e;
                ents.push_entry(p, e);
                ents.files.push(File::RegularFile(body));
                ents.next_cookie = ents.next_cookie + 1;
                proof {
                    lemma_file_added_wf(a, *ents, p as int, eg);
                    assert(ents.files@.drop_last() =~= a.files@);
                }
                Ok(())
            },
        }
    }
}

/// `b` is `a` with a new regular file named `name` appended
/// to the children list `p`, with a fresh body index and a fresh cookie.
pub open spec fn file_added(a: &DirEntries, b: &DirEntries, p: int, name: Seq<u8>) -> bool {
    let e = b.bucket(p).last();
    &&& b.tbl() == a.tbl().update(p, Some(a.bucket(p).push(e)))
    &&& e.name@ == name
    &&& e.file == a.files@.len()
    &&& e.filetype == Filetype::RegularFile
    &&& e.entries is None
    &&& e.cookie == a.next_cookie
    &&& b.files@.len() == a.files@.len() + 1
    &&& b.files@.drop_last() == a.files@
    &&& b.next_cookie == a.next_cookie + 1
    &&& b.current_dir == a.current_dir
}

proof fn lemma_removed_wf(a: DirEntries, b: DirEntries, p: int, i: int)
    requires
        a.wf(),
        has_bucket(a.tbl(), p),
        0 <= i < a.bucket(p).len(),
        b.tbl() == a.tbl().update(p, Some(a.bucket(p).remove(i))),
        b.buckets@.len() == a.buckets@.len(),
        b.files == a.files,
        b.next_cookie == a.next_cookie,
    ensures
        b.wf(),
{
    let ta = a.tbl();
    let tb = b.tbl();
    assert forall|k: int| has_bucket(ta, k) implies has_bucket(tb, k) by {}
    assert forall|k: int, j: int|
        has_bucket(tb, k) && 0 <= j < b.bucket(k).len() implies b.entry_ok(#[trigger] b.bucket(k)[j]) by {
        let j0 = if k == p && j >= i { j + 1 } else { j };
        assert(tb[k].unwrap()[j] == ta[k].unwrap()[j0]);
        assert(a.entry_ok(a.bucket(k)[j0]));
    }
    assert forall|k1: int, i1: int, k2: int, i2: int|
        has_bucket(tb, k1) && has_bucket(tb, k2) && 0 <= i1 < tb[k1].unwrap().len() && 0 <= i2 < tb[
            k2
        ].unwrap().len() && (#[trigger] tb[k1].unwrap()[i1]).entries is Some && tb[k1].unwrap()[i1].entries
            == (#[trigger] tb[k2].unwrap()[i2]).entries implies k1 == k2 && i1 == i2 by {
        let j1 = if k1 == p && i1 >= i { i1 + 1 } else { i1 };
        let j2 = if k2 == p && i2 >= i { i2 + 1 } else { i2 };
        assert(tb[k1].unwrap()[i1] == ta[k1].unwrap()[j1]);
        assert(tb[k2].unwrap()[i2] == ta[k2].unwrap()[j2]);
        assert(keys_unique_in(ta));
    }
    assert forall|k: int, x: int, y: int|
        has_bucket(tb, k) && 0 <= x < y < tb[k].unwrap().len() implies (#[trigger] tb[k].unwrap()[x]).cookie
            < (#[trigger] tb[k].unwrap()[y]).cookie by {
        let x0 = if k == p && x >= i { x + 1 } else { x };
        let y0 = if k == p && y >= i { y + 1 } else { y };
        assert(tb[k].unwrap()[x] == ta[k].unwrap()[x0]);
        assert(tb[k].unwrap()[y] == ta[k].unwrap()[y0]);
        assert(cookies_increase_in(ta));
    }
    assert(b.keys_unique());
    assert(b.cookies_increase());
    assert(has_bucket(tb, ROOT_ENTRIES as int));
}

proof fn lemma_body_replaced_wf(a: DirEntries, b: DirEntries, id: int)
    requires
        a.wf(),
        0 <= id < a.files@.len(),
        a.files@[id] is RegularFile,
        b.buckets == a.buckets,
        b.files@.len() == a.files@.len(),
        b.files@[id] is RegularFile,
        forall|j: int| 0 <= j < a.files@.len() && j != id ==> b.files@[j] == a.files@[j],
        b.next_cookie == a.next_cookie,
    ensures
        b.wf(),
{
    assert(b.tbl() == a.tbl());
    assert forall|k: int, j: int|
        has_bucket(b.tbl(), k) && 0 <= j < b.bucket(k).len() implies b.entry_ok(#[trigger] b.bucket(k)[j]) by {
        assert(a.entry_ok(a.bucket(k)[j]));
    }
    assert(b.keys_unique());
    assert(b.cookies_increase());
}

proof fn lemma_file_added_wf(a: DirEntries, b: DirEntries, p: int, e: DirEntry)
    requires
        a.wf(),
        has_bucket(a.tbl(), p),
        a.next_cookie < u64::MAX,
        b.tbl() == a.tbl().update(p, Some(a.bucket(p).push(e))),
        b.buckets@.len() == a.buckets@.len(),
        b.files@.len() == a.files@.len() + 1,
        b.files@[a.files@.len() as int] is RegularFile,
        forall|j: int| 0 <= j < a.files@.len() ==> b.files@[j] == a.files@[j],
        b.next_cookie == a.next_cookie + 1,
        e.file == a.files@.len(),
        e.filetype == Filetype::RegularFile,
        e.entries is None,
        e.cookie == a.next_cookie,
    ensures
        b.wf(),
{
    let ta = a.tbl();
    let tb = b.tbl();
    let n = a.bucket(p).len();
    assert forall|k: int| has_bucket(ta, k) implies has_bucket(tb, k) by {}
    assert forall|k: int, i: int|
        has_bucket(tb, k) && 0 <= i < b.bucket(k).len() implies b.entry_ok(#[trigger] b.bucket(k)[i]) by {
        if !(k == p && i == n) {
            assert(tb[k].unwrap()[i] == ta[k].unwrap()[i]);
            assert(a.entry_ok(a.bucket(k)[i]));
        }
    }
    assert forall|k1: int, i1: int, k2: int, i2: int|
        has_bucket(tb, k1) && has_bucket(tb, k2) && 0 <= i1 < tb[k1].unwrap().len() && 0 <= i2 < tb[
            k2
        ].unwrap().len() && (#[trigger] tb[k1].unwrap()[i1]).entries is Some && tb[k1].unwrap()[i1].entries
            == (#[trigger] tb[k2].unwrap()[i2]).entries implies k1 == k2 && i1 == i2 by {
        if !(k1 == p && i1 == n) && !(k2 == p && i2 == n) {
            assert(tb[k1].unwrap()[i1] == ta[k1].unwrap()[i1]);
            assert(tb[k2].unwrap()[i2] == ta[k2].unwrap()[i2]);
            assert(keys_unique_in(ta));
        }
    }
    assert forall|k: int, x: int, y: int|
        has_bucket(tb, k) && 0 <= x < y < tb[k].unwrap().len() implies (#[trigger] tb[k].unwrap()[x]).cookie
            < (#[trigger] tb[k].unwrap()[y]).cookie by {
        assert(tb[k].unwrap()[x] == ta[k].unwrap()[x]);
        assert(a.entry_ok(a.bucket(k)[x]));
        if !(k == p && y == n) {
            assert(tb[k].unwrap()[y] == ta[k].unwrap()[y]);
            assert(cookies_increase_in(ta));
        }
    }
    assert(b.keys_unique());
    assert(b.cookies_increase());
    assert(has_bucket(tb, ROOT_ENTRIES as int));
    assert(b.files@[ROOT_FILE as int] == a.files@[ROOT_FILE as int]);
}

pub const OFLAGS_CREAT: u16 = 1;

pub const OFLAGS_DIRECTORY: u16 = 2;

pub const OFLAGS_EXCL: u16 = 4;

pub const OFLAGS_TRUNC: u16 = 8;

pub open spec fn has_flag(flags: u16, bit: u16) -> bool {
    flags & bit != 0
}

/// A regular file with an empty inline body.
pub open spec fn is_empty_file(f: File) -> bool {
    match f {
        File::RegularFile(g) => g.bytes() == Some(Seq::<u8>::empty()),
        File::Dir(_) => false,
    }
}

/// `b` is `a` with the body `id` replaced by an empty inline buffer.
pub open spec fn body_emptied(a: &DirEntries, b: &DirEntries, id: int) -> bool {
    &&& b.tbl() == a.tbl()
    &&& b.files@.len() == a.files@.len()
    &&& forall|j: int| 0 <= j < a.files@.len() && j != id ==> b.files@[j] == a.files@[j]
    &&& is_empty_file(b.files@[id])
    &&& b.next_cookie == a.next_cookie
    &&& b.current_dir == a.current_dir
}

/// `b` is `a` once the entry `e` is taken out of its list (giving `t1`)
/// and added, renamed to `name` and with a fresh cookie, to the list `q`.
pub open spec fn entry_moved(a: &DirEntries, b: &DirEntries, t1: Table, q: int, e: DirEntry, name: Seq<u8>) -> bool {
    let m = b.bucket(q).last();
    &&& b.tbl() == t1.update(q, Some(t1[q].unwrap().push(m)))
    &&& m.name@ == name
    &&& m.file == e.file
    &&& m.filetype == e.filetype
    &&& m.entries == e.entries
    &&& m.cookie == a.next_cookie
    &&& b.files == a.files
    &&& b.next_cookie == a.next_cookie + 1
    &&& b.current_dir == a.current_dir
}

impl DirEntries {
    /// Puts `e` back at index `i` of the children list `p`.
    fn insert_entry(&mut self, p: DirEntriesKey, i: usize, e: DirEntry)
        requires
            has_bucket(old(self).tbl(), p as int),
            i <= old(self).bucket(p as int).len(),
        ensures
            final(self).tbl() == old(self).tbl().update(p as int, Some(old(self).bucket(p as int).insert(i as int, e))),
            final(self).files == old(self).files,
            final(self).next_cookie == old(self).next_cookie,
            final(self).current_dir == old(self).current_dir,
            final(self).buckets@.len() == old(self).buckets@.len(),
    {
        let ghost t0 = self.tbl();
        let mut b: Option<Vec<DirEntry>> = None;
        self.buckets.set_and_swap(p as usize, &mut b);
        assert(t0[p as int] == bucket_view(b));
        let mut v = b.unwrap();
        v.insert(i, e);
        let ghost v1 = v@;
        self.buckets.set(p as usize, Some(v));
        assert(self.tbl() =~= t0.update(p as int, Some(v1)));
    }
}

impl Dir {
    /// Opens `path`. With `OFLAGS_DIRECTORY` the path must name a directory
    /// (`None`: the root itself). Otherwise it must name a regular file:
    /// `Isdir` for a directory, `Exist` for an existing file under
    /// `CREAT|EXCL`, `Noent` for a missing one without `CREAT`, which
    /// otherwise creates it empty; `TRUNC` empties the body.
    pub fn open(&self, path: &str, oflags: u16, ents: &mut DirEntries) -> (r: Result<Option<FileId>, Errno>)
        requires
            old(ents).wf(),
            self.entries == ROOT_ENTRIES,
        ensures
            final(ents).wf(),
            match resolved(old(ents).current_dir@, path.spec_bytes()) {
                None => r == Err::<Option<FileId>, Errno>(Errno::Notcapable) && unchanged(old(ents), final(ents)),
                Some(c) => if has_flag(oflags, OFLAGS_DIRECTORY) {
                    unchanged(old(ents), final(ents)) && if c.len() == 0 {
                        r == Ok::<Option<FileId>, Errno>(None)
                    } else {
                        match locate(old(ents).tbl(), self.entries as int, c) {
                            None => r == Err::<Option<FileId>, Errno>(Errno::Noent),
                            Some((p, i)) => if old(ents).bucket(p)[i].filetype == Filetype::RegularFile {
                                r == Err::<Option<FileId>, Errno>(Errno::Notdir)
                            } else {
                                r == Ok::<Option<FileId>, Errno>(Some(old(ents).bucket(p)[i].file))
                            },
                        }
                    }
                } else if c.len() == 0 {
                    r == Err::<Option<FileId>, Errno>(Errno::Isdir) && unchanged(old(ents), final(ents))
                } else {
                    match parent_of(old(ents).tbl(), self.entries as int, c) {
                        None => r == Err::<Option<FileId>, Errno>(Errno::Noent) && unchanged(old(ents), final(ents)),
                        Some(p) => match lookup_in(old(ents).tbl(), p, c.last()) {
                            Some(i) => if old(ents).bucket(p)[i].filetype == Filetype::Directory {
                                r == Err::<Option<FileId>, Errno>(Errno::Isdir) && unchanged(old(ents), final(ents))
                            } else if has_flag(oflags, OFLAGS_CREAT) && has_flag(oflags, OFLAGS_EXCL) {
                                r == Err::<Option<FileId>, Errno>(Errno::Exist) && unchanged(old(ents), final(ents))
                            } else {
                                r == Ok::<Option<FileId>, Errno>(Some(old(ents).bucket(p)[i].file)) && if has_flag(
                                    oflags,
                                    OFLAGS_TRUNC,
                                ) {
                                    body_emptied(old(ents), final(ents), old(ents).bucket(p)[i].file as int)
                                } else {
                                    unchanged(old(ents), final(ents))
                                }
                            },
                            None => if !has_flag(oflags, OFLAGS_CREAT) {
                                r == Err::<Option<FileId>, Errno>(Errno::Noent) && unchanged(old(ents), final(ents))
                            } else if old(ents).next_cookie == u64::MAX || old(ents).files@.len() == usize::MAX {
                                r == Err::<Option<FileId>, Errno>(Errno::Nomem) && unchanged(old(ents), final(ents))
                            } else {
                                r == Ok::<Option<FileId>, Errno>(Some(old(ents).files@.len() as FileId))
                                    && file_added(old(ents), final(ents), p, c.last())
                                    && is_empty_file(final(ents).files@.last())
                            },
                        },
                    }
                },
            },
    {
        let comps = resolve_path(ents.current_dir.as_slice(), path.as_bytes())?;
        if oflags & OFLAGS_DIRECTORY != 0 {
            if comps.len() == 0 {
                return Ok(None);
            }
            let (parent, idx) = self.resolve_entry(&comps, ents);
            return match (parent, idx) {
                (Some(p), Some(i)) => {
                    proof {
                        lemma_find_from(ents.bucket(p as int), views(comps@).last(), 0);
                    }
                    let e = ents.copy_entry(p, i);
                    if e.is_regular_file() {
                        Err(Errno::Notdir)
                    } else {
                        Ok(Some(e.file))
                    }
                },
                _ => Err(Errno::Noent),
            };
        }
        if comps.len() == 0 {
            return Err(Errno::Isdir);
        }
        let (parent, idx) = self.resolve_entry(&comps, ents);
        let p = match parent {
            None => {
                return Err(Errno::Noent);
            },
            Some(p) => p,
        };
        proof {
            lemma_dir_key_has_bucket(*ents, self.entries as int, views(comps@).drop_last());
        }
        let ghost a = *ents;
        match idx {
            Some(i) => {
                proof {
                    lemma_find_from(ents.bucket(p as int), views(comps@).last(), 0);
                    assert(a.entry_ok(a.bucket(p as int)[i as int]));
                }
                let e = ents.copy_entry(p, i);
                if e.is_dir() {
                    return Err(Errno::Isdir);
                }
                if oflags & OFLAGS_CREAT != 0 && oflags & OFLAGS_EXCL != 0 {
                    return Err(Errno::Exist);
                }
                if oflags & OFLAGS_TRUNC != 0 {
                    ents.files.set(e.file, File::RegularFile(RegularFile::Buf(Vec::new())));
                    proof {
                        lemma_body_replaced_wf(a, *ents, e.file as int);
                        assert(ents.tbl() == a.tbl());
                    }
                }
                Ok(Some(e.file))
            },
            None => {
                if oflags & OFLAGS_CREAT == 0 {
                    return Err(Errno::Noent);
                }
                if ents.next_cookie == u64::MAX || ents.files.len() == usize::MAX {
                    return Err(Errno::Nomem);
                }
                let file = ents.files.len();
                let e = DirEntry {
                    name: copy_bytes(comps[comps.len() - 1].as_slice()),
                    file,
                    filetype: Filetype::RegularFile,
                    entries: None,
                    cookie: ents.next_cookie,
                };
                let ghost eg = e;
                ents.push_entry(p, e);
                ents.files.push(File::RegularFile(RegularFile::Buf(Vec::new())));
                ents.next_cookie = ents.next_cookie + 1;
                proof {
                    lemma_file_added_wf(a, *ents, p as int, eg);
                    assert(ents.files@.drop_last() =~= a.files@);
                }
                Ok(Some(file))
            },
        }
    }

    /// Moves the entry at `old_path` to `new_path`, renamed to the new leaf
    /// and with a fresh cookie, at the end of its new parent's children.
    /// `Badf` where the source is missing; `Notcapable` where the
    /// destination is the root or its parent is missing once the source is
    /// taken out; `Nomem` where cookies are used up.
    pub fn rename(&self, old_path: &str, new_path: &str, ents: &mut DirEntries) -> (r: Result<(), Errno>)
        requires
            old(ents).wf(),
            self.entries == ROOT_ENTRIES,
        ensures
            final(ents).wf(),
            match (resolved(old(ents).current_dir@, old_path.spec_bytes()), resolved(old(ents).current_dir@, new_path.spec_bytes())) {
                (Some(f), Some(t)) => match (if f.len() == 0 { None } else { locate(old(ents).tbl(), self.entries as int, f) }) {
                    None => r == Err::<(), Errno>(Errno::Badf) && unchanged(old(ents), final(ents)),
                    Some((p, i)) => if t.len() == 0 {
                        r == Err::<(), Errno>(Errno::Notcapable) && unchanged(old(ents), final(ents))
                    } else if old(ents).next_cookie == u64::MAX {
                        r == Err::<(), Errno>(Errno::Nomem) && unchanged(old(ents), final(ents))
                    } else {
                        let t1 = old(ents).tbl().update(p, Some(old(ents).bucket(p).remove(i)));
                        match dir_key_at(t1, self.entries as int, t.drop_last()) {
                            None => r == Err::<(), Errno>(Errno::Notcapable) && unchanged(old(ents), final(ents)),
                            Some(q) => r is Ok && entry_moved(old(ents), final(ents), t1, q, old(ents).bucket(p)[i], t.last()),
                        }
                    },
                },
                _ => r == Err::<(), Errno>(Errno::Notcapable) && unchanged(old(ents), final(ents)),
            },
    {
        let from = resolve_path(ents.current_dir.as_slice(), old_path.as_bytes())?;
        let to = resolve_path(ents.current_dir.as_slice(), new_path.as_bytes())?;
        if from.len() == 0 {
            return Err(Errno::Badf);
        }
        let (parent, idx) = self.resolve_entry(&from, ents);
        let (p, i) = match (parent, idx) {
            (Some(p), Some(i)) => (p, i),
            _ => {
                return Err(Errno::Badf);
            },
        };
        proof {
            lemma_find_from(ents.bucket(p as int), views(from@).last(), 0);
        }
        if to.len() == 0 {
            return Err(Errno::Notcapable);
        }
        if ents.next_cookie == u64::MAX {
            return Err(Errno::Nomem);
        }
        let ghost a = *ents;
        let mut e = ents.remove_entry(p, i);
        let ghost a1 = *ents;
        proof {
            lemma_removed_wf(a, a1, p as int, i as int);
        }
        let (q, _) = self.resolve_entry(&to, ents);
        let q = match q {
            None => {
                ents.insert_entry(p, i, e);
                proof {
                    assert(a.bucket(p as int).remove(i as int).insert(i as int, a.bucket(p as int)[i as int]) =~= a.bucket(p as int));
                    assert(ents.tbl() =~= a.tbl());
                    lemma_wf_same_table(a, *ents);
                }
                return Err(Errno::Notcapable);
            },
            Some(q) => q,
        };
        proof {
            lemma_dir_key_has_bucket(a1, self.entries as int, views(to@).drop_last());
            assert(a.entry_ok(e));
        }
        e.name = copy_bytes(to[to.len() - 1].as_slice());
        e.cookie = ents.next_cookie;
        let ghost eg = e;
        ents.push_entry(q, e);
        ents.next_cookie = ents.next_cookie + 1;
        proof {
            lemma_moved_wf(a, a1, *ents, p as int, i as int, q as int, eg);
        }
        Ok(())
    }
}

proof fn lemma_moved_wf(a: DirEntries, a1: DirEntries, b: DirEntries, p: int, i: int, q: int, e: DirEntry)
    requires
        a.wf(),
        a1.wf(),
        has_bucket(a.tbl(), p),
        0 <= i < a.bucket(p).len(),
        a1.tbl() == a.tbl().update(p, Some(a.bucket(p).remove(i))),
        a1.files == a.files,
        a1.next_cookie == a.next_cookie,
        has_bucket(a1.tbl(), q),
        a.next_cookie < u64::MAX,
        b.tbl() == a1.tbl().update(q, Some(a1.bucket(q).push(e))),
        b.buckets@.len() == a1.buckets@.len(),
        b.files == a1.files,
        b.next_cookie == a1.next_cookie + 1,
        e.file == a.bucket(p)[i].file,
        e.filetype == a.bucket(p)[i].filetype,
        e.entries == a.bucket(p)[i].entries,
        e.cookie == a.next_cookie,
    ensures
        b.wf(),
{
    let ta = a.tbl();
    let t1 = a1.tbl();
    let tb = b.tbl();
    let n = a1.bucket(q).len();
    let old_e = a.bucket(p)[i];
    assert(a.entry_ok(old_e));
    assert forall|k: int| has_bucket(t1, k) implies has_bucket(tb, k) by {}
    // no entry left in `a1` names the moved entry's key
    assert forall|k: int, j: int|
        has_bucket(t1, k) && 0 <= j < t1[k].unwrap().len() && e.entries is Some implies (
        #[trigger] t1[k].unwrap()[j]).entries != e.entries by {
        let j0 = if k == p && j >= i { j + 1 } else { j };
        assert(t1[k].unwrap()[j] == ta[k].unwrap()[j0]);
        assert(keys_unique_in(ta));
    }
    assert forall|k: int, j: int|
        has_bucket(tb, k) && 0 <= j < b.bucket(k).len() implies b.entry_ok(#[trigger] b.bucket(k)[j]) by {
        if !(k == q && j == n) {
            assert(tb[k].unwrap()[j] == t1[k].unwrap()[j]);
            assert(a1.entry_ok(a1.bucket(k)[j]));
        }
    }
    assert forall|k1: int, i1: int, k2: int, i2: int|
        has_bucket(tb, k1) && has_bucket(tb, k2) && 0 <= i1 < tb[k1].unwrap().len() && 0 <= i2 < tb[
            k2
        ].unwrap().len() && (#[trigger] tb[k1].unwrap()[i1]).entries is Some && tb[k1].unwrap()[i1].entries
            == (#[trigger] tb[k2].unwrap()[i2]).entries implies k1 == k2 && i1 == i2 by {
        let new1 = k1 == q && i1 == n;
        let new2 = k2 == q && i2 == n;
        if !new1 {
            assert(tb[k1].unwrap()[i1] == t1[k1].unwrap()[i1]);
        }
        if !new2 {
            assert(tb[k2].unwrap()[i2] == t1[k2].unwrap()[i2]);
        }
        if !new1 && !new2 {
            assert(keys_unique_in(t1));
        }
    }
    assert forall|k: int, x: int, y: int|
        has_bucket(tb, k) && 0 <= x < y < tb[k].unwrap().len() implies (#[trigger] tb[k].unwrap()[x]).cookie
            < (#[trigger] tb[k].unwrap()[y]).cookie by {
        assert(tb[k].unwrap()[x] == t1[k].unwrap()[x]);
        assert(a1.entry_ok(a1.bucket(k)[x]));
        if !(k == q && y == n) {
            assert(tb[k].unwrap()[y] == t1[k].unwrap()[y]);
            assert(cookies_increase_in(t1));
        }
    }
    assert(b.keys_unique());
    assert(b.cookies_increase());
    assert(has_bucket(tb, ROOT_ENTRIES as int));
}

/// The number of children lists present in `t`.
pub open spec fn live_count(t: Table) -> nat
    decreases t.len(),
{
    if t.len() == 0 {
        0
    } else {
        live_count(t.drop_last()) + (if t.last() is Some { 1nat } else { 0nat })
    }
}

proof fn lemma_live_count_drop(t: Table, w: int)
    requires
        has_bucket(t, w),
    ensures
        live_count(t.update(w, None)) + 1 == live_count(t),
    decreases t.len(),
{
    let t2 = t.update(w, None);
    if w == t.len() - 1 {
        assert(t2.drop_last() =~= t.drop_last());
    } else {
        assert(t2.drop_last() =~= t.drop_last().update(w, None));
        lemma_live_count_drop(t.drop_last(), w);
    }
}

/// The list that `e` names, if any, is in `t` or queued in `work`.
pub open spec fn names_kept(t: Table, e: DirEntry, work: Seq<DirEntriesKey>) -> bool {
    match e.entries {
        Some(k2) => has_bucket(t, k2 as int) || work.contains(k2),
        None => true,
    }
}

/// The list that `e` names, if any, is queued in `work`.
pub open spec fn names_queued(e: DirEntry, work: Seq<DirEntriesKey>) -> bool {
    match e.entries {
        Some(k2) => work.contains(k2),
        None => true,
    }
}

/// Every list that an entry of a list deleted from `t1` names is deleted
/// in `tb` too, or queued in `work`.
pub open spec fn deletion_closed(tb: Table, t1: Table, work: Seq<DirEntriesKey>) -> bool {
    forall|j: int, i: int|
        has_bucket(t1, j) && !has_bucket(tb, j) && 0 <= i < t1[j].unwrap().len() && (#[trigger] t1[j].unwrap()[i]).entries is Some
            ==> !has_bucket(tb, t1[j].unwrap()[i].entries.unwrap() as int) || work.contains(t1[j].unwrap()[i].entries.unwrap())
}

/// What holds while `rmdir` deletes the lists in `work`: every list that
/// is left is as in `t1`, entries left name lists that are left or queued,
/// and no entry left names a queued list.
pub open spec fn removal_state(b: &DirEntries, t1: Table, a1: &DirEntries, work: Seq<DirEntriesKey>) -> bool {
    let tb = b.tbl();
    &&& tb.len() == t1.len()
    &&& b.buckets@.len() == t1.len()
    &&& b.files == a1.files
    &&& b.next_cookie == a1.next_cookie
    &&& b.current_dir == a1.current_dir
    &&& has_bucket(tb, ROOT_ENTRIES as int)
    &&& forall|j: int| 0 <= j < tb.len() ==> (#[trigger] tb[j]) is None || tb[j] == t1[j]
    &&& forall|x: int| 0 <= x < work.len() ==> (#[trigger] work[x]) != ROOT_ENTRIES
    &&& forall|k: int, i: int|
        has_bucket(tb, k) && 0 <= i < tb[k].unwrap().len() ==> names_kept(tb, #[trigger] tb[k].unwrap()[i], work)
    &&& forall|k: int, i: int, x: int|
        has_bucket(tb, k) && 0 <= i < tb[k].unwrap().len() && 0 <= x < work.len() ==> (#[trigger] tb[k].unwrap()[i]).entries != Some(#[trigger] work[x])
    &&& keys_unique_in(tb)
    &&& cookies_increase_in(tb)
    &&& deletion_closed(tb, t1, work)
}

/// One step of `rmdir`: takes the last queued key, deletes its list, and
/// queues the lists its entries name.
#[verifier::rlimit(80)]
fn drop_queued(ents: &mut DirEntries, work: &mut Vec<DirEntriesKey>, t1: Ghost<Table>, a1: Ghost<DirEntries>)
    requires
        removal_state(old(ents), t1@, &a1@, old(work)@),
        old(work)@.len() > 0,
        a1@.wf(),
        t1@ == a1@.tbl(),
        t1@.len() == a1@.buckets@.len(),
    ensures
        removal_state(final(ents), t1@, &a1@, final(work)@),
        live_count(final(ents).tbl()) < live_count(old(ents).tbl()) || (live_count(final(ents).tbl())
            == live_count(old(ents).tbl()) && final(work)@.len() < old(work)@.len()),
        forall|x: DirEntriesKey| old(work)@.contains(x) ==> x == old(work)@.last() || final(work)@.contains(x),
        old(work)@.last() < t1@.len() ==> final(ents).tbl()[old(work)@.last() as int] is None,
        forall|j: int| 0 <= j < t1@.len() ==> (#[trigger] final(ents).tbl()[j]) is None || final(ents).tbl()[j] == old(ents).tbl()[j],
{
    let ghost t1 = t1@;
    let ghost a1 = a1@;
    let ghost tw = ents.tbl();
    let ghost work0 = work@;
    let w = work.pop().unwrap();
    proof {
        assert(work0 == work@.push(w));
        assert forall|x: DirEntriesKey| work0.contains(x) implies x == w || work@.contains(x) by {
            if work0.contains(x) {
                let ix = choose|ix: int| 0 <= ix < work0.len() && work0[ix] == x;
                if ix < work@.len() {
                    assert(work@[ix] == x);
                }
            }
        }
    }
    let mut taken: Option<Vec<DirEntry>> = None;
    if (w as usize) < ents.buckets.len() {
        ents.buckets.set_and_swap(w as usize, &mut taken);
    }
    proof {
        if (w as int) < tw.len() {
            assert(tw[w as int] == bucket_view(taken));
            assert(ents.tbl() =~= tw.update(w as int, None));
        } else {
            assert(ents.tbl() =~= tw);
        }
    }
    match taken {
        None => {
            proof {
                assert(ents.tbl() =~= tw);
                assert(removal_state(ents, t1, &a1, work@)) by {
                    let tb = ents.tbl();
                    assert forall|kk: int, ii: int|
                        has_bucket(tb, kk) && 0 <= ii < tb[kk].unwrap().len() implies names_kept(tb, #[trigger] tb[kk].unwrap()[ii], work@) by {
                        if let Some(k2) = tb[kk].unwrap()[ii].entries {
                            if k2 == w {
                                assert(work0[work0.len() - 1] == w);
                            }
                        }
                    }
                    assert forall|kk: int, ii: int, x: int|
                        has_bucket(tb, kk) && 0 <= ii < tb[kk].unwrap().len() && 0 <= x < work@.len() implies (#[trigger] tb[kk].unwrap()[ii]).entries != Some(#[trigger] work@[x]) by {
                        assert(work0[x] == work@[x]);
                    }
                    assert forall|j: int, i: int|
                        has_bucket(t1, j) && !has_bucket(tb, j) && 0 <= i < t1[j].unwrap().len() && (#[trigger] t1[j].unwrap()[i]).entries is Some
                        implies !has_bucket(tb, t1[j].unwrap()[i].entries.unwrap() as int) || work@.contains(t1[j].unwrap()[i].entries.unwrap()) by {
                        assert(deletion_closed(tw, t1, work0));
                    }
                }
            }
        },
        Some(children) => {
            proof {
                lemma_live_count_drop(tw, w as int);
                assert(tw[w as int] == t1[w as int]);
                assert forall|jj: int| 0 <= jj < children@.len() implies (#[trigger] children@[jj]).entries != Some(ROOT_ENTRIES) by {
                    assert(a1.entry_ok(a1.bucket(w as int)[jj]));
                }
            }
            let ghost tb = ents.tbl();
            let mut j: usize = 0;
            while j < children.len()
                invariant
                    tb == ents.tbl(),
                    tb == tw.update(w as int, None),
                    has_bucket(tw, w as int),
                    children@ == tw[w as int].unwrap(),
                    keys_unique_in(tw),
                    j <= children@.len(),
                    forall|jj: int| 0 <= jj < children@.len() ==> (#[trigger] children@[jj]).entries != Some(ROOT_ENTRIES),
                    forall|x: int| 0 <= x < work@.len() ==> (#[trigger] work@[x]) != ROOT_ENTRIES,
                    forall|kk: int, ii: int, x: int|
                        has_bucket(tb, kk) && 0 <= ii < tb[kk].unwrap().len() && 0 <= x < work@.len() ==> (#[trigger] tb[kk].unwrap()[ii]).entries != Some(#[trigger] work@[x]),
                    forall|jj: int| 0 <= jj < j ==> names_queued(#[trigger] children@[jj], work@),
                    forall|x: DirEntriesKey| work0.contains(x) ==> x == w || work@.contains(x),
                decreases children@.len() - j,
            {
                if let Some(ck) = children[j].entries {
                    let ghost wb = work@;
                    proof {
                        assert(tw[w as int].unwrap()[j as int] == children@[j as int]);
                        assert forall|kk: int, ii: int|
                            has_bucket(tb, kk) && 0 <= ii < tb[kk].unwrap().len() implies (#[trigger] tb[kk].unwrap()[ii]).entries != Some(ck) by {
                            assert(tb[kk].unwrap()[ii] == tw[kk].unwrap()[ii]);
                        }
                    }
                    work.push(ck);
                    proof {
                        assert(work@ == wb.push(ck));
                        assert forall|x: int| 0 <= x < work@.len() implies (#[trigger] work@[x]) != ROOT_ENTRIES by {
                            if x < wb.len() {
                                assert(work@[x] == wb[x]);
                            }
                        }
                        assert forall|x: DirEntriesKey| wb.contains(x) implies work@.contains(x) by {
                            if wb.contains(x) {
                                let ix = choose|ix: int| 0 <= ix < wb.len() && wb[ix] == x;
                                assert(work@[ix] == x);
                            }
                        }
                        assert(work@[wb.len() as int] == ck);
                        assert forall|kk: int, ii: int, x: int|
                            has_bucket(tb, kk) && 0 <= ii < tb[kk].unwrap().len() && 0 <= x < work@.len() implies (#[trigger] tb[kk].unwrap()[ii]).entries != Some(#[trigger] work@[x]) by {
                            if x < wb.len() {
                                assert(work@[x] == wb[x]);
                            }
                        }
                    }
                }
                j = j + 1;
            }
            proof {
                assert(removal_state(ents, t1, &a1, work@)) by {
                    assert forall|jj: int| 0 <= jj < ents.tbl().len() implies (#[trigger] ents.tbl()[jj]) is None || ents.tbl()[jj] == t1[jj] by {
                        assert(tw[jj] is None || tw[jj] == t1[jj]);
                    }
                    assert forall|kk: int, ii: int|
                        has_bucket(tb, kk) && 0 <= ii < tb[kk].unwrap().len() implies names_kept(tb, #[trigger] tb[kk].unwrap()[ii], work@) by {
                        assert(tb[kk].unwrap()[ii] == tw[kk].unwrap()[ii]);
                        if let Some(k2) = tb[kk].unwrap()[ii].entries {
                            assert(has_bucket(tw, k2 as int) || work0.contains(k2));
                            if k2 == w {
                                assert(work0[work0.len() - 1] == w);
                            }
                        }
                    }
                    assert forall|kk: int, x: int, y: int|
                        has_bucket(tb, kk) && 0 <= x < y < tb[kk].unwrap().len() implies (#[trigger] tb[kk].unwrap()[x]).cookie < (#[trigger] tb[kk].unwrap()[y]).cookie by {
                        assert(tb[kk].unwrap()[x] == tw[kk].unwrap()[x]);
                        assert(tb[kk].unwrap()[y] == tw[kk].unwrap()[y]);
                    }
                    assert forall|k1: int, i1: int, k2: int, i2: int|
                        has_bucket(tb, k1) && has_bucket(tb, k2) && 0 <= i1 < tb[k1].unwrap().len() && 0 <= i2 < tb[
                            k2
                        ].unwrap().len() && (#[trigger] tb[k1].unwrap()[i1]).entries is Some && tb[k1].unwrap()[i1].entries
                            == (#[trigger] tb[k2].unwrap()[i2]).entries implies k1 == k2 && i1 == i2 by {
                        assert(tb[k1].unwrap()[i1] == tw[k1].unwrap()[i1]);
                        assert(tb[k2].unwrap()[i2] == tw[k2].unwrap()[i2]);
                    }
                    assert forall|jx: int, i: int|
                        has_bucket(t1, jx) && !has_bucket(tb, jx) && 0 <= i < t1[jx].unwrap().len() && (#[trigger] t1[jx].unwrap()[i]).entries is Some
                        implies !has_bucket(tb, t1[jx].unwrap()[i].entries.unwrap() as int) || work@.contains(t1[jx].unwrap()[i].entries.unwrap()) by {
                        if jx == w {
                            assert(t1[jx].unwrap()[i] == children@[i]);
                            assert(names_queued(children@[i], work@));
                        } else {
                            assert(deletion_closed(tw, t1, work0));
                        }
                    }
                }
            }
        },
    }
}

impl Dir {
    /// Removes the directory that `path` names and deletes the children
    /// lists of everything below it. `Noent` where it is missing, `Notdir`
    /// where it is a regular file, `Notempty` where it has children and
    /// `recursive` is not set.
    pub fn rmdir(&self, path: &str, recursive: bool, ents: &mut DirEntries) -> (r: Result<(), Errno>)
        requires
            old(ents).wf(),
            self.entries == ROOT_ENTRIES,
        ensures
            final(ents).wf(),
            match resolved(old(ents).current_dir@, path.spec_bytes()) {
                None => r == Err::<(), Errno>(Errno::Notcapable) && unchanged(old(ents), final(ents)),
                Some(c) => match (if c.len() == 0 { None } else { locate(old(ents).tbl(), self.entries as int, c) }) {
                    None => r == Err::<(), Errno>(Errno::Noent) && unchanged(old(ents), final(ents)),
                    Some((p, i)) => if old(ents).bucket(p)[i].filetype == Filetype::RegularFile {
                        r == Err::<(), Errno>(Errno::Notdir) && unchanged(old(ents), final(ents))
                    } else if !recursive && old(ents).bucket(old(ents).bucket(p)[i].entries.unwrap() as int).len() > 0 {
                        r == Err::<(), Errno>(Errno::Notempty) && unchanged(old(ents), final(ents))
                    } else {
                        let t1 = old(ents).tbl().update(p, Some(old(ents).bucket(p).remove(i)));
                        &&& r is Ok
                        &&& final(ents).tbl().len() == t1.len()
                        &&& final(ents).tbl()[old(ents).bucket(p)[i].entries.unwrap() as int] is None
                        &&& deletion_closed(final(ents).tbl(), t1, Seq::<DirEntriesKey>::empty())
                        &&& forall|j: int| 0 <= j < t1.len() ==> (#[trigger] final(ents).tbl()[j]) is None || final(ents).tbl()[j] == t1[j]
                        &&& final(ents).files == old(ents).files
                        &&& final(ents).next_cookie == old(ents).next_cookie
                        &&& final(ents).current_dir == old(ents).current_dir
                    },
                },
            },
    {
        let comps = resolve_path(ents.current_dir.as_slice(), path.as_bytes())?;
        if comps.len() == 0 {
            return Err(Errno::Noent);
        }
        let (parent, idx) = self.resolve_entry(&comps, ents);
        let (p, i) = match (parent, idx) {
            (Some(p), Some(i)) => (p, i),
            _ => {
                return Err(Errno::Noent);
            },
        };
        proof {
            lemma_find_from(ents.bucket(p as int), views(comps@).last(), 0);
        }
        let ghost a = *ents;
        let e = ents.copy_entry(p, i);
        if e.is_regular_file() {
            return Err(Errno::Notdir);
        }
        proof {
            assert(a.entry_ok(a.bucket(p as int)[i as int]));
        }
        let k = e.entries.unwrap();
        if !recursive {
            assert(ents.tbl()[k as int] == bucket_view(ents.buckets@[k as int]));
            if ents.buckets[k as usize].as_ref().unwrap().len() > 0 {
                return Err(Errno::Notempty);
            }
        }
        ents.remove_entry(p, i);
        let ghost a1 = *ents;
        let ghost t1 = a1.tbl();
        proof {
            lemma_removed_wf(a, a1, p as int, i as int);
            assert forall|kk: int, j: int|
                has_bucket(t1, kk) && 0 <= j < t1[kk].unwrap().len() implies (#[trigger] t1[kk].unwrap()[j]).entries
                    != Some(k) by {
                let j0 = if kk == p && j >= i { j + 1 } else { j };
                assert(t1[kk].unwrap()[j] == a.tbl()[kk].unwrap()[j0]);
                assert(keys_unique_in(a.tbl()));
            }
            assert forall|kk: int, j: int|
                has_bucket(t1, kk) && 0 <= j < t1[kk].unwrap().len() implies names_kept(t1, #[trigger] t1[kk].unwrap()[j], Seq::<DirEntriesKey>::empty()) by {
                assert(a1.entry_ok(a1.bucket(kk)[j]));
            }
        }
        let mut work: Vec<DirEntriesKey> = Vec::new();
        work.push(k);
        proof {
            assert(ents.tbl() == t1);
        }
        proof {
            assert(work@ == seq![k]);
            assert(work@[0] == k);
        }
        while work.len() > 0
            invariant
                removal_state(ents, t1, &a1, work@),
                t1.len() == a1.buckets@.len(),
                ents.tbl()[k as int] is None || work@.contains(k),
                0 <= k < t1.len(),
                a1.wf(),
                t1 == a1.tbl(),
            decreases live_count(ents.tbl()), work@.len(),
        {
            let ghost work0 = work@;
            proof {
                assert(work0[work0.len() - 1] == work0.last());
            }
            drop_queued(ents, &mut work, Ghost(t1), Ghost(a1));
            proof {
                if !(ents.tbl()[k as int] is None) {
                    assert(work0.contains(k));
                }
            }
        }
        proof {
            let tb = ents.tbl();
            assert forall|kk: int, ii: int|
                has_bucket(tb, kk) && 0 <= ii < ents.bucket(kk).len() implies ents.entry_ok(#[trigger] ents.bucket(kk)[ii]) by {
                assert(tb[kk] == t1[kk]);
                assert(a1.entry_ok(a1.bucket(kk)[ii]));
            }
            assert(ents.keys_unique());
            assert(ents.cookies_increase());
            assert(has_bucket(tb, ROOT_ENTRIES as int));
        }
        Ok(())
    }
}

impl File {
    pub fn is_dir(&self) -> (r: bool)
        ensures
            r == (self is Dir),
    {
        match self {
            File::Dir(_) => true,
            File::RegularFile(_) => false,
        }
    }

    pub fn is_regular_file(&self) -> (r: bool)
        ensures
            r == (self is RegularFile),
    {
        match self {
            File::Dir(_) => false,
            File::RegularFile(_) => true,
        }
    }

    pub fn filetype(&self) -> (r: Filetype)
        ensures
            r == (if self is Dir { Filetype::Directory } else { Filetype::RegularFile }),
    {
        if self.is_dir() {
            Filetype::Directory
        } else {
            Filetype::RegularFile
        }
    }

    /// The size of a regular file as far as it is known (see
    /// `RegularFile::size`); a directory has size 0.
    pub fn size(&self) -> (r: Option<u64>)
        requires
            self matches File::RegularFile(f) ==> (f.bytes() is Some ==> f.bytes().unwrap().len() <= u64::MAX),
        ensures
            r == match self {
                File::RegularFile(f) => f.spec_size(),
                File::Dir(_) => Some(0u64),
            },
    {
        match self {
            File::RegularFile(f) => f.size(),
            File::Dir(_) => Some(0),
        }
    }

    pub fn as_regular_file(&self) -> (r: Result<&RegularFile, Errno>)
        ensures
            match self {
                File::RegularFile(f) => r == Ok::<&RegularFile, Errno>(f),
                File::Dir(_) => r == Err::<&RegularFile, Errno>(Errno::Badf),
            },
    {
        match self {
            File::RegularFile(f) => Ok(f),
            File::Dir(_) => Err(Errno::Badf),
        }
    }

    pub fn as_regular_file_mut(&mut self) -> (r: Result<&mut RegularFile, Errno>)
        ensures
            match *old(self) {
                File::RegularFile(f) => r is Ok && *r.unwrap() == f && *final(self) == File::RegularFile(*final(r.unwrap())),
                File::Dir(_) => r == Err::<&mut RegularFile, Errno>(Errno::Badf) && *final(self) == *old(self),
            },
    {
        match self {
            File::RegularFile(f) => Ok(f),
            File::Dir(_) => Err(Errno::Badf),
        }
    }

    pub fn as_dir(&self) -> (r: Result<&Dir, Errno>)
        ensures
            match self {
                File::Dir(d) => r == Ok::<&Dir, Errno>(d),
                File::RegularFile(_) => r == Err::<&Dir, Errno>(Errno::Badf),
            },
    {
        match self {
            File::Dir(d) => Ok(d),
            File::RegularFile(_) => Err(Errno::Badf),
        }
    }
}

/// How a body operation changes the body `id`: `b` holds `body` there,
/// everything else as in `a`.
pub open spec fn body_set(a: &DirEntries, b: &DirEntries, id: int, body: RegularFile) -> bool {
    &&& b.tbl() == a.tbl()
    &&& b.files@ == a.files@.update(id, File::RegularFile(body))
    &&& b.next_cookie == a.next_cookie
    &&& b.current_dir == a.current_dir
}

impl DirEntries {
    /// The body `id`, taken out of the arena (a placeholder stands in).
    fn take_body(&mut self, id: FileId) -> (r: RegularFile)
        requires
            id < old(self).files@.len(),
            old(self).files@[id as int] is RegularFile,
        ensures
            File::RegularFile(r) == old(self).files@[id as int],
            final(self).files@.len() == old(self).files@.len(),
            forall|j: int| 0 <= j < old(self).files@.len() && j != id ==> final(self).files@[j] == old(self).files@[j],
            final(self).buckets == old(self).buckets,
            final(self).next_cookie == old(self).next_cookie,
            final(self).current_dir == old(self).current_dir,
    {
        let mut f = File::RegularFile(RegularFile::Buf(Vec::new()));
        self.files.set_and_swap(id, &mut f);
        match f {
            File::RegularFile(g) => g,
            File::Dir(_) => RegularFile::Buf(Vec::new()),
        }
    }

    /// The size of the body `id` (see `File::size`).
    pub fn size_of(&self, id: FileId) -> (r: Option<u64>)
        requires
            id < self.files@.len(),
        ensures
            r == match self.files@[id as int] {
                File::RegularFile(f) => f.spec_size(),
                File::Dir(_) => Some(0u64),
            },
    {
        match &self.files[id] {
            File::RegularFile(f) => match f {
                RegularFile::Buf(b) => Some(b.len() as u64),
                RegularFile::URL { len, .. } => *len,
            },
            File::Dir(_) => Some(0),
        }
    }

    /// Applies `RegularFile::write` to the body `id`; `Badf` for a directory.
    pub fn write_body(&mut self, id: FileId, fetched: Option<Vec<u8>>, data: &[u8], pos: u64) -> (r: Result<u64, Errno>)
        requires
            old(self).wf(),
            id < old(self).files@.len(),
        ensures
            final(self).wf(),
            match old(self).files@[id as int] {
                File::Dir(_) => r == Err::<u64, Errno>(Errno::Badf) && unchanged(old(self), final(self)),
                File::RegularFile(f) => final(self).files@[id as int] matches File::RegularFile(g) && body_set(old(self), final(self), id as int, g)
                    && match f.promoted(fetched) {
                        None => r == Err::<u64, Errno>(Errno::Io) && g == f,
                        Some(b) => if pos + data@.len() > usize::MAX {
                            r == Err::<u64, Errno>(Errno::Nomem) && g.bytes() == Some(b)
                        } else {
                            r == Ok::<u64, Errno>(data@.len() as u64) && g.bytes() == Some(crate::body::write_at(b, data@, pos as nat))
                        },
                    },
            },
    {
        if self.files[id].is_dir() {
            return Err(Errno::Badf);
        }
        let ghost a = *self;
        let mut f = self.take_body(id);
        let r = f.write(fetched, data, pos);
        self.files.set(id, File::RegularFile(f));
        proof {
            lemma_body_replaced_wf(a, *self, id as int);
            assert(self.files@ =~= a.files@.update(id as int, self.files@[id as int]));
        }
        r
    }

    /// Applies `RegularFile::truncate` to the body `id`; `Badf` for a directory.
    pub fn truncate_body(&mut self, id: FileId, fetched: Option<Vec<u8>>, size: u64) -> (r: Result<(), Errno>)
        requires
            old(self).wf(),
            id < old(self).files@.len(),
        ensures
            final(self).wf(),
            match old(self).files@[id as int] {
                File::Dir(_) => r == Err::<(), Errno>(Errno::Badf) && unchanged(old(self), final(self)),
                File::RegularFile(f) => final(self).files@[id as int] matches File::RegularFile(g) && body_set(old(self), final(self), id as int, g)
                    && match f.promoted(fetched) {
                        None => r == Err::<(), Errno>(Errno::Io) && g == f,
                        Some(b) => if size > usize::MAX {
                            r == Err::<(), Errno>(Errno::Nomem) && g.bytes() == Some(b)
                        } else {
                            r is Ok && g.bytes() == Some(crate::body::resized(b, size as nat))
                        },
                    },
            },
    {
        if self.files[id].is_dir() {
            return Err(Errno::Badf);
        }
        let ghost a = *self;
        let mut f = self.take_body(id);
        let r = f.truncate(fetched, size);
        self.files.set(id, File::RegularFile(f));
        proof {
            lemma_body_replaced_wf(a, *self, id as int);
            assert(self.files@ =~= a.files@.update(id as int, self.files@[id as int]));
        }
        r
    }

    /// Applies `RegularFile::allocate` to the body `id`; `Badf` for a directory.
    pub fn allocate_body(&mut self, id: FileId, fetched: Option<Vec<u8>>, offset: u64, len: u64) -> (r: Result<(), Errno>)
        requires
            old(self).wf(),
            id < old(self).files@.len(),
        ensures
            final(self).wf(),
            match old(self).files@[id as int] {
                File::Dir(_) => r == Err::<(), Errno>(Errno::Badf) && unchanged(old(self), final(self)),
                File::RegularFile(f) => final(self).files@[id as int] matches File::RegularFile(g) && body_set(old(self), final(self), id as int, g)
                    && match f.promoted(fetched) {
                        None => r == Err::<(), Errno>(Errno::Io) && g == f,
                        Some(b) => if offset + len > usize::MAX {
                            r == Err::<(), Errno>(Errno::Nomem) && g.bytes() == Some(b)
                        } else {
                            r is Ok && g.bytes() == Some(crate::body::grow_to(b, (offset + len) as nat))
                        },
                    },
            },
    {
        if self.files[id].is_dir() {
            return Err(Errno::Badf);
        }
        let ghost a = *self;
        let mut f = self.take_body(id);
        let r = f.allocate(fetched, offset, len);
        self.files.set(id, File::RegularFile(f));
        proof {
            lemma_body_replaced_wf(a, *self, id as int);
            assert(self.files@ =~= a.files@.update(id as int, self.files@[id as int]));
        }
        r
    }

    /// Records the length the host reported for the body `id` (see
    /// `RegularFile::cache_len`); a directory is left as it is.
    pub fn cache_len(&mut self, id: FileId, n: u64)
        requires
            old(self).wf(),
            id < old(self).files@.len(),
        ensures
            final(self).wf(),
            match old(self).files@[id as int] {
                File::Dir(_) => unchanged(old(self), final(self)),
                File::RegularFile(f) => final(self).files@[id as int] matches File::RegularFile(g) && body_set(old(self), final(self), id as int, g)
                    && match f {
                        RegularFile::URL { url, len: None } => g == (RegularFile::URL { url, len: Some(n) }),
                        _ => g == f,
                    },
            },
    {
        if self.files[id].is_dir() {
            return;
        }
        let ghost a = *self;
        let mut f = self.take_body(id);
        f.cache_len(n);
        self.files.set(id, File::RegularFile(f));
        proof {
            lemma_body_replaced_wf(a, *self, id as int);
            assert(self.files@ =~= a.files@.update(id as int, self.files@[id as int]));
        }
    }

    /// Adds a body that no entry names (a standard stream); returns its index.
    pub fn add_body(&mut self, body: RegularFile) -> (r: FileId)
        requires
            old(self).wf(),
            old(self).files@.len() < usize::MAX,
        ensures
            final(self).wf(),
            r == old(self).files@.len(),
            final(self).files@ == old(self).files@.push(File::RegularFile(body)),
            final(self).tbl() == old(self).tbl(),
            final(self).next_cookie == old(self).next_cookie,
            final(self).current_dir == old(self).current_dir,
    {
        let ghost a = *self;
        let r = self.files.len();
        self.files.push(File::RegularFile(body));
        proof {
            assert(self.tbl() == a.tbl());
            assert forall|k: int, j: int|
                has_bucket(self.tbl(), k) && 0 <= j < self.bucket(k).len() implies self.entry_ok(#[trigger] self.bucket(k)[j]) by {
                assert(a.entry_ok(a.bucket(k)[j]));
            }
            assert(self.keys_unique());
            assert(self.cookies_increase());
        }
        r
    }
}

pub const DOT_BYTE: u8 = 46;

/// `s` begins with `pre`.
pub open spec fn starts_with(s: Seq<u8>, pre: Seq<u8>) -> bool {
    pre.len() <= s.len() && s.subrange(0, pre.len() as int) == pre
}

/// Whether `mount` turns `src` into a URL body: an `http:`, `https:`,
/// `file:` or `blob:` URL, or any non-empty source outside Node.js.
pub open spec fn is_url_source(src: Seq<u8>, is_node: bool) -> bool {
    ||| starts_with(src, seq![104u8, 116, 116, 112, 58])
    ||| starts_with(src, seq![104u8, 116, 116, 112, 115, 58])
    ||| starts_with(src, seq![102u8, 105, 108, 101, 58])
    ||| starts_with(src, seq![98u8, 108, 111, 98, 58])
    ||| (src.len() > 0 && !is_node)
}

fn has_prefix(s: &[u8], pre: &[u8]) -> (r: bool)
    ensures
        r == starts_with(s@, pre@),
{
    if pre.len() > s.len() {
        return false;
    }
    let mut i: usize = 0;
    while i < pre.len()
        invariant
            pre@.len() <= s@.len(),
            i <= pre@.len(),
            forall|j: int| 0 <= j < i ==> s@[j] == pre@[j],
        decreases pre@.len() - i,
    {
        if s[i] != pre[i] {
            assert(s@.subrange(0, pre@.len() as int)[i as int] != pre@[i as int]);
            return false;
        }
        i = i + 1;
    }
    assert(s@.subrange(0, pre@.len() as int) =~= pre@);
    true
}

pub open spec fn unit_of(r: Result<bool, Errno>) -> Result<(), Errno> {
    match r {
        Ok(_) => Ok(()),
        Err(e) => Err(e),
    }
}

impl Dir {
    /// The body that `path` names, for reading it whole. `Badf` where it is
    /// a directory (the root included), `Noent` where it is missing.
    pub fn read_file(&self, path: &str, ents: &DirEntries) -> (r: Result<FileId, Errno>)
        requires
            ents.wf(),
            self.entries == ROOT_ENTRIES,
        ensures
            match resolved(ents.current_dir@, path.spec_bytes()) {
                None => r == Err::<FileId, Errno>(Errno::Notcapable),
                Some(c) => if c.len() == 0 {
                    r == Err::<FileId, Errno>(Errno::Badf)
                } else {
                    match locate(ents.tbl(), self.entries as int, c) {
                        None => r == Err::<FileId, Errno>(Errno::Noent),
                        Some((p, i)) => if ents.bucket(p)[i].filetype == Filetype::Directory {
                            r == Err::<FileId, Errno>(Errno::Badf)
                        } else {
                            r == Ok::<FileId, Errno>(ents.bucket(p)[i].file)
                        },
                    }
                },
            },
    {
        let e = self.lookup(path, ents)?;
        if e.is_dir() {
            Err(Errno::Badf)
        } else {
            Ok(e.file)
        }
    }

    /// Mounts the host source `src` at `path`. A URL source (see
    /// `is_url_source`) becomes a URL body, as `write_file` stores it. Any
    /// other source is a host directory: it gets a directory at `path`
    /// (unless `path` is `.`), and `true` says that the host's listing of
    /// `src` is to be mounted below it, pair by pair (see `pair_lines`).
    pub fn mount(&self, is_node: bool, src: &str, path: &str, ents: &mut DirEntries) -> (r: Result<bool, Errno>)
        requires
            old(ents).wf(),
            self.entries == ROOT_ENTRIES,
        ensures
            final(ents).wf(),
            if is_url_source(src.spec_bytes(), is_node) {
                r != Ok::<bool, Errno>(true) && exists|b: Vec<u8>, u: String|
                    u@ == src@ && write_file_spec(old(ents), final(ents), self.entries as int, path.spec_bytes(), b, Some(u), unit_of(r))
            } else if path.spec_bytes() == seq![DOT_BYTE] {
                unchanged(old(ents), final(ents)) && r == Ok::<bool, Errno>(src.spec_bytes().len() > 0)
            } else {
                mkdir_spec(old(ents), final(ents), self.entries as int, path.spec_bytes(), unit_of(r))
                    && (r is Ok ==> r == Ok::<bool, Errno>(src.spec_bytes().len() > 0))
            },
    {
        let sb = src.as_bytes();
        let http: Vec<u8> = vec![104u8, 116, 116, 112, 58];
        let https: Vec<u8> = vec![104u8, 116, 116, 112, 115, 58];
        let file: Vec<u8> = vec![102u8, 105, 108, 101, 58];
        let blob: Vec<u8> = vec![98u8, 108, 111, 98, 58];
        proof {
            assert(http@ =~= seq![104u8, 116, 116, 112, 58]);
            assert(https@ =~= seq![104u8, 116, 116, 112, 115, 58]);
            assert(file@ =~= seq![102u8, 105, 108, 101, 58]);
            assert(blob@ =~= seq![98u8, 108, 111, 98, 58]);
        }
        if has_prefix(sb, http.as_slice()) || has_prefix(sb, https.as_slice()) || has_prefix(
            sb,
            file.as_slice(),
        ) || has_prefix(sb, blob.as_slice()) || (sb.len() > 0 && !is_node) {
            let b: Vec<u8> = Vec::new();
            let u = src.to_owned();
            let ghost bg = b;
            let ghost ug = u;
            let r = self.write_file(path, b, Some(u), ents);
            let res = match r {
                Ok(()) => Ok(false),
                Err(e) => Err(e),
            };
            assert(ug@ == src@ && write_file_spec(old(ents), ents, self.entries as int, path.spec_bytes(), bg, Some(ug), unit_of(res)));
            return res;
        }
        let pb = path.as_bytes();
        let is_dot = pb.len() == 1 && pb[0] == DOT_BYTE;
        proof {
            if pb@.len() == 1 && pb@[0] == DOT_BYTE {
                assert(pb@ =~= seq![DOT_BYTE]);
            }
        }
        if !is_dot {
            self.mkdir(path, ents)?;
        }
        Ok(sb.len() > 0)
    }
}

} // verus!
