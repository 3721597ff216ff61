use vfs::{
    Dir, DirEntries, Errno, FDTable, File, FDFLAGS_APPEND, OFLAGS_CREAT, OFLAGS_DIRECTORY,
    OFLAGS_EXCL, OFLAGS_TRUNC, ROOT_ENTRIES, ROOT_FILE,
};

fn setup() -> (DirEntries, Dir, FDTable) {
    let mut ents = DirEntries::new();
    let root = Dir::new(ROOT_ENTRIES, true);
    let fds = FDTable::init(&mut ents);
    root.mkdir("foo", &mut ents).unwrap();
    (ents, root, fds)
}

fn lstat(root: &Dir, ents: &DirEntries, path: &str) -> Result<(Option<u64>, u8), Errno> {
    let e = root.lookup(path, ents)?;
    Ok((ents.size_of(e.file), e.filetype.raw()))
}

fn body_bytes(ents: &DirEntries, id: usize) -> Vec<u8> {
    match &ents.files[id] {
        File::RegularFile(f) => f.read(0).unwrap(),
        File::Dir(_) => panic!("not a regular file"),
    }
}

fn write_fd(ents: &mut DirEntries, fds: &mut FDTable, fd: u32, data: &[u8]) -> u64 {
    let d = fds.get(fd).unwrap();
    let (id, pos) = (d.file, d.pos);
    let n = ents.write_body(id, None, data, pos).unwrap();
    fds.advance(fd, n).unwrap();
    n
}

fn open_fd(root: &Dir, ents: &mut DirEntries, fds: &mut FDTable, path: &str, oflags: u16, fdflags: u16) -> u32 {
    let id = root.open(path, oflags, ents).unwrap().unwrap();
    let size = ents.size_of(id).unwrap();
    fds.open(id, fdflags, size)
}

#[test]
fn directory_lifecycle() {
    let (mut ents, root, _fds) = setup();
    assert_eq!(root.mkdir("foo", &mut ents), Err(Errno::Exist));
    assert_eq!(root.mkdir("bar", &mut ents), Ok(()));
    assert_eq!(root.mkdir("foo/bar", &mut ents), Ok(()));
    assert_eq!(lstat(&root, &ents, "foo/bar"), Ok((Some(0), 3)));
    assert_eq!(root.write_file("foo/new_file", Vec::new(), None, &mut ents), Ok(()));
    assert_eq!(lstat(&root, &ents, "foo/new_file"), Ok((Some(0), 4)));
    assert_eq!(root.rename("foo/bar", "foo/baz", &mut ents), Ok(()));
    assert_eq!(root.rename("foo/new_file", "foo/new_renamed_file", &mut ents), Ok(()));
    assert_eq!(root.unlink("foo/new_renamed_file", &mut ents), Ok(()));
    assert_eq!(root.write_file("foo/baz/new_file", Vec::new(), None, &mut ents), Ok(()));
    assert_eq!(root.rmdir("foo/baz", false, &mut ents), Err(Errno::Notempty));
    assert_eq!(root.unlink("foo/baz/new_file", &mut ents), Ok(()));
    assert_eq!(root.rmdir("foo/baz", false, &mut ents), Ok(()));
    assert_eq!(root.lookup("foo/baz", &ents).err(), Some(Errno::Noent));
}

#[test]
fn append_and_read_back() {
    let (mut ents, root, mut fds) = setup();
    let first = b"Hello, world!\n";
    let second = b"Goodbye, world\n!";
    assert_eq!(first.len(), 14);
    assert_eq!(second.len(), 16);
    let fd = open_fd(&root, &mut ents, &mut fds, "foo/x", OFLAGS_CREAT, FDFLAGS_APPEND);
    assert_eq!(write_fd(&mut ents, &mut fds, fd, first), 14);
    assert_eq!(fds.close(fd), Ok(()));
    let fd = open_fd(&root, &mut ents, &mut fds, "foo/x", 0, FDFLAGS_APPEND);
    assert_eq!(fds.get(fd).unwrap().pos, 14);
    assert_eq!(write_fd(&mut ents, &mut fds, fd, second), 16);
    let fd = open_fd(&root, &mut ents, &mut fds, "foo/x", 0, 0);
    let id = fds.get(fd).unwrap().file;
    let mut expected = first.to_vec();
    expected.extend_from_slice(second);
    assert_eq!(body_bytes(&ents, id), expected);
    assert_eq!(body_bytes(&ents, id).len(), 30);
}

#[test]
fn allocate_past_end() {
    let (mut ents, root, mut fds) = setup();
    let fd = open_fd(&root, &mut ents, &mut fds, "foo/y", OFLAGS_CREAT | OFLAGS_TRUNC, 0);
    assert_eq!(write_fd(&mut ents, &mut fds, fd, b"foo bar baz"), 11);
    let id = fds.get(fd).unwrap().file;
    assert_eq!(ents.size_of(id), Some(11));
    assert_eq!(ents.allocate_body(id, None, 11, 1234), Ok(()));
    assert_eq!(ents.size_of(id), Some(1234 + 11));
    let bytes = body_bytes(&ents, id);
    assert_eq!(&bytes[..11], b"foo bar baz");
    assert!(bytes[11..].iter().all(|b| *b == 0));
}

#[test]
fn blob_url_read() {
    let (mut ents, root, mut fds) = setup();
    assert_eq!(root.mount(true, "blob:xyz", "foo/blob", &mut ents), Ok(false));
    let e = root.lookup("foo/blob", &ents).unwrap();
    assert_eq!(ents.size_of(e.file), None);
    ents.cache_len(e.file, 9);
    assert_eq!(lstat(&root, &ents, "foo/blob"), Ok((Some(9), 4)));
    let fd = open_fd(&root, &mut ents, &mut fds, "foo/blob", 0, 0);
    let id = fds.get(fd).unwrap().file;
    assert_eq!(ents.write_body(id, None, b"0123456789", 0), Err(Errno::Io));
    let fetched = Some(b"blob body".to_vec());
    assert_eq!(ents.write_body(id, fetched, b"0123456789", 0), Ok(10));
    assert_eq!(body_bytes(&ents, id), b"0123456789".to_vec());
    assert_eq!(ents.size_of(id), Some(10));
}

#[test]
fn renumber_safety() {
    let (mut ents, root, mut fds) = setup();
    assert_eq!(fds.renumber(3, 7), Err(Errno::Badf));
    let a = open_fd(&root, &mut ents, &mut fds, "foo/a", OFLAGS_CREAT, 0);
    let b = open_fd(&root, &mut ents, &mut fds, "foo/b", OFLAGS_CREAT, 0);
    let c = open_fd(&root, &mut ents, &mut fds, "foo/c", OFLAGS_CREAT, 0);
    assert_eq!((a, b, c), (4, 5, 6));
    assert_eq!(fds.renumber(3, 5), Err(Errno::Badf));
    let at5 = fds.get(5).unwrap().file;
    let at6 = fds.get(6).unwrap().file;
    assert_eq!(fds.renumber(5, 6), Ok(()));
    assert_eq!(fds.get(5).unwrap().file, at6);
    assert_eq!(fds.get(6).unwrap().file, at5);
    assert_eq!(fds.close(5), Ok(()));
    assert!(fds.get(5).is_err());
    assert_eq!(fds.get(6).unwrap().file, at5);
    assert_eq!(fds.close(5), Err(Errno::Badf));
}

#[test]
fn path_traversal() {
    let (mut ents, root, _fds) = setup();
    root.mkdir("foo/bar", &mut ents).unwrap();
    ents.chdir("");
    assert_eq!(root.lookup("../foo", &ents).err(), Some(Errno::Notcapable));
    ents.chdir("foo");
    let e = root.lookup("~/foo/bar", &ents).unwrap();
    assert_eq!(e.name, b"bar".to_vec());
    let rel = root.lookup("bar", &ents).unwrap();
    assert_eq!(rel.file, e.file);
    assert_eq!(root.lookup("~/~/~/foo", &ents).unwrap().name, b"foo".to_vec());
}

#[test]
fn standard_streams_after_init() {
    let (ents, _root, mut fds) = setup();
    for fd in 0..3u32 {
        let d = fds.get(fd).unwrap();
        assert_eq!(d.pos, 0);
        assert!(d.preopen.is_none());
        assert_eq!(body_bytes(&ents, d.file), Vec::<u8>::new());
    }
    let pre = fds.get(3).unwrap();
    assert_eq!(pre.file, ROOT_FILE);
    assert_eq!(pre.preopen.as_deref(), Some("/"));
    assert_eq!(fds.close(0), Ok(()));
    assert!(fds.get(1).is_ok());
}

#[test]
fn read_advances_position() {
    let (mut ents, root, mut fds) = setup();
    root.write_file("foo/r", b"abcdef".to_vec(), None, &mut ents).unwrap();
    let fd = open_fd(&root, &mut ents, &mut fds, "foo/r", 0, 0);
    let d = fds.get(fd).unwrap();
    let got = match &ents.files[d.file] {
        File::RegularFile(f) => f.read(d.pos).unwrap(),
        File::Dir(_) => panic!(),
    };
    assert_eq!(got, b"abcdef".to_vec());
    assert_eq!(fds.advance(fd, got.len() as u64), Ok(6));
    assert_eq!(fds.get(fd).unwrap().pos, 6);
}

#[test]
fn rmdir_then_mkdir() {
    let (mut ents, root, _fds) = setup();
    root.mkdir("foo/d", &mut ents).unwrap();
    root.mkdir("foo/d/e", &mut ents).unwrap();
    root.write_file("foo/d/e/f", vec![1, 2], None, &mut ents).unwrap();
    assert_eq!(root.rmdir("foo/d", false, &mut ents), Err(Errno::Notempty));
    assert_eq!(root.rmdir("foo/d", true, &mut ents), Ok(()));
    let live = ents.buckets.iter().filter(|b| b.is_some()).count();
    assert_eq!(live, 2);
    assert_eq!(root.mkdir("foo/d", &mut ents), Ok(()));
    assert_eq!(lstat(&root, &ents, "foo/d"), Ok((Some(0), 3)));
    assert_eq!(root.lookup("foo/d/e", &ents).err(), Some(Errno::Noent));
}

#[test]
fn rename_moves_entry() {
    let (mut ents, root, _fds) = setup();
    root.write_file("foo/old", vec![7], None, &mut ents).unwrap();
    let before = root.lookup("foo/old", &ents).unwrap();
    assert_eq!(root.rename("foo/old", "new", &mut ents), Ok(()));
    assert_eq!(root.lookup("foo/old", &ents).err(), Some(Errno::Noent));
    let after = root.lookup("new", &ents).unwrap();
    assert_eq!(after.file, before.file);
    assert!(after.cookie > before.cookie);
    assert_eq!(root.rename("missing", "x", &mut ents), Err(Errno::Badf));
    assert_eq!(root.rename("new", "nowhere/x", &mut ents), Err(Errno::Notcapable));
    assert_eq!(root.rename("foo", "foo/inner", &mut ents), Err(Errno::Notcapable));
    assert!(root.lookup("foo", &ents).is_ok());
}

#[test]
fn cookies_increase_in_listing() {
    let (mut ents, root, _fds) = setup();
    root.write_file("foo/a", Vec::new(), None, &mut ents).unwrap();
    root.write_file("foo/b", Vec::new(), None, &mut ents).unwrap();
    root.rename("foo/a", "foo/c", &mut ents).unwrap();
    let foo = root.lookup("foo", &ents).unwrap();
    let dir = Dir::new(foo.entries.unwrap(), false);
    let list = dir.entries(&ents);
    let names: Vec<Vec<u8>> = list.iter().map(|e| e.name.clone()).collect();
    assert_eq!(names, vec![b"b".to_vec(), b"c".to_vec()]);
    assert!(list[0].cookie < list[1].cookie);
}

#[test]
fn write_file_then_size() {
    let (mut ents, root, _fds) = setup();
    root.write_file("foo/w", vec![0; 42], None, &mut ents).unwrap();
    let id = root.open("foo/w", 0, &mut ents).unwrap().unwrap();
    assert_eq!(ents.size_of(id), Some(42));
    assert_eq!(ents.truncate_body(id, None, 0), Ok(()));
    assert_eq!(ents.size_of(id), Some(0));
}

#[test]
fn open_errors() {
    let (mut ents, root, _fds) = setup();
    assert_eq!(root.open("", 0, &mut ents), Err(Errno::Isdir));
    assert_eq!(root.open("", OFLAGS_DIRECTORY, &mut ents), Ok(None));
    assert_eq!(root.open("foo", 0, &mut ents), Err(Errno::Isdir));
    assert_eq!(root.open("missing", 0, &mut ents), Err(Errno::Noent));
    assert_eq!(root.open("nodir/x", OFLAGS_CREAT, &mut ents), Err(Errno::Noent));
    root.write_file("foo/f", vec![1, 2, 3], None, &mut ents).unwrap();
    assert_eq!(root.open("foo/f", OFLAGS_CREAT | OFLAGS_EXCL, &mut ents), Err(Errno::Exist));
    assert_eq!(root.open("foo/f", OFLAGS_DIRECTORY, &mut ents), Err(Errno::Notdir));
    let id = root.open("foo/f", OFLAGS_TRUNC, &mut ents).unwrap().unwrap();
    assert_eq!(ents.size_of(id), Some(0));
    assert!(root.open("foo", OFLAGS_DIRECTORY, &mut ents).unwrap().is_some());
}

#[test]
fn tree_errors() {
    let (mut ents, root, _fds) = setup();
    root.write_file("foo/f", Vec::new(), None, &mut ents).unwrap();
    assert_eq!(root.mkdir("", &mut ents), Err(Errno::Exist));
    assert_eq!(root.mkdir("a/b", &mut ents), Err(Errno::Noent));
    assert_eq!(root.unlink("foo", &mut ents), Err(Errno::Isdir));
    assert_eq!(root.unlink("nothing", &mut ents), Err(Errno::Noent));
    assert_eq!(root.rmdir("foo/f", false, &mut ents), Err(Errno::Notdir));
    assert_eq!(root.rmdir("nothing", false, &mut ents), Err(Errno::Noent));
    assert_eq!(root.write_file("foo", Vec::new(), None, &mut ents), Err(Errno::Isdir));
    assert_eq!(root.write_file("zz/f", Vec::new(), None, &mut ents), Err(Errno::Noent));
    assert_eq!(root.read_file("foo", &ents), Err(Errno::Badf));
    assert_eq!(root.read_file("nothing", &ents), Err(Errno::Noent));
    assert!(root.read_file("foo/f", &ents).is_ok());
    assert_eq!(root.lookup("foo/f/x", &ents).err(), Some(Errno::Noent));
}
