use vfs::{
    listed_entries, pair_lines, resolve_path, split_lines, DirEntry, Errno, FileDesc, Filetype,
    RegularFile, Whence,
};

fn comps(v: &[&str]) -> Vec<Vec<u8>> {
    v.iter().map(|s| s.as_bytes().to_vec()).collect()
}

#[test]
fn errno_codes() {
    assert_eq!(Errno::Badf.raw(), 8);
    assert_eq!(Errno::Exist.raw(), 20);
    assert_eq!(Errno::Inval.raw(), 28);
    assert_eq!(Errno::Io.raw(), 29);
    assert_eq!(Errno::Isdir.raw(), 31);
    assert_eq!(Errno::Noent.raw(), 44);
    assert_eq!(Errno::Nomem.raw(), 48);
    assert_eq!(Errno::Notdir.raw(), 54);
    assert_eq!(Errno::Notempty.raw(), 55);
    assert_eq!(Errno::Notcapable.raw(), 76);
    assert_eq!(Filetype::Directory.raw(), 3);
    assert_eq!(Filetype::RegularFile.raw(), 4);
}

#[test]
fn whence_codes() {
    assert_eq!(Whence::from_raw(0), Ok(Whence::Start));
    assert_eq!(Whence::from_raw(1), Ok(Whence::Current));
    assert_eq!(Whence::from_raw(2), Ok(Whence::End));
    assert_eq!(Whence::from_raw(3), Err(Errno::Inval));
}

#[test]
fn resolve_paths() {
    assert_eq!(resolve_path(b"", b"a/./b//c"), Ok(comps(&["a", "b", "c"])));
    assert_eq!(resolve_path(b"foo", b"bar"), Ok(comps(&["foo", "bar"])));
    assert_eq!(resolve_path(b"foo", b"../bar"), Ok(comps(&["bar"])));
    assert_eq!(resolve_path(b"foo", b"~/bar"), Ok(comps(&["bar"])));
    assert_eq!(resolve_path(b"foo", b"~/~/~/~/bar"), Ok(comps(&["foo", "bar"])));
    assert_eq!(resolve_path(b"foo", b"~/~/~/bar"), Ok(comps(&["bar"])));
    assert_eq!(resolve_path(b"", b"/x/y"), Ok(comps(&["x", "y"])));
    assert_eq!(resolve_path(b"", b".."), Err(Errno::Notcapable));
    assert_eq!(resolve_path(b"a", b"../.."), Err(Errno::Notcapable));
    assert_eq!(resolve_path(b"", b""), Ok(Vec::new()));
}

#[test]
fn body_write_grows_with_zeros() {
    let mut f = RegularFile::Buf(b"ab".to_vec());
    assert_eq!(f.write(None, b"xy", 4), Ok(2));
    assert_eq!(f.read(0), Some(b"ab\0\0xy".to_vec()));
    assert_eq!(f.write(None, b"Z", 1), Ok(1));
    assert_eq!(f.read(0), Some(b"aZ\0\0xy".to_vec()));
    assert_eq!(f.read(5), Some(b"y".to_vec()));
    assert_eq!(f.read(9), Some(Vec::new()));
    assert_eq!(f.write(None, b"q", u64::MAX), Err(Errno::Nomem));
}

#[test]
fn body_truncate_and_allocate() {
    let mut f = RegularFile::Buf(b"abcdef".to_vec());
    assert_eq!(f.truncate(None, 3), Ok(()));
    assert_eq!(f.read(0), Some(b"abc".to_vec()));
    assert_eq!(f.truncate(None, 5), Ok(()));
    assert_eq!(f.read(0), Some(b"abc\0\0".to_vec()));
    assert_eq!(f.allocate(None, 1, 2), Ok(()));
    assert_eq!(f.size(), Some(5));
    assert_eq!(f.allocate(None, 4, 3), Ok(()));
    assert_eq!(f.size(), Some(7));
    assert_eq!(f.allocate(None, u64::MAX, 1), Err(Errno::Nomem));
    assert_eq!(f.truncate(None, 0), Ok(()));
    assert_eq!(f.size(), Some(0));
}

#[test]
fn url_body_promotion() {
    let mut f = RegularFile::URL { url: "http://h/x".to_string(), len: None };
    assert_eq!(f.size(), None);
    f.cache_len(4);
    assert_eq!(f.size(), Some(4));
    f.cache_len(8);
    assert_eq!(f.size(), Some(4));
    assert_eq!(f.read(0), None);
    assert_eq!(f.truncate(None, 1), Err(Errno::Io));
    assert!(!f.is_buf());
    assert_eq!(f.write(Some(b"wxyz".to_vec()), b"AB", 1), Ok(2));
    assert!(f.is_buf());
    assert_eq!(f.read(0), Some(b"wABz".to_vec()));
    assert_eq!(f.write(Some(b"ignored".to_vec()), b"C", 0), Ok(1));
    assert_eq!(f.read(0), Some(b"CABz".to_vec()));
    assert!(f.url().is_none());
}

#[test]
fn seek_from_each_base() {
    let mut d = FileDesc::new(0, 5, None);
    assert_eq!(d.seek(3, Whence::Current, 100), Ok(8));
    assert_eq!(d.seek(3, Whence::Start, 100), Ok(3));
    assert_eq!(d.seek(3, Whence::End, 100), Ok(103));
    assert_eq!(d.seek(u64::MAX, Whence::End, 100), Err(Errno::Inval));
    assert_eq!(d.pos, 103);
    assert_eq!(d.advance(7), Ok(110));
}

#[test]
fn host_listing_pairs() {
    assert_eq!(split_lines(b"a\nb\n"), comps(&["a", "b", ""]));
    assert_eq!(split_lines(b""), comps(&[""]));
    let pairs = pair_lines(b"/src/a\na\n/src/b\nb").unwrap();
    assert_eq!(pairs, vec![(b"/src/a".to_vec(), b"a".to_vec()), (b"/src/b".to_vec(), b"b".to_vec())]);
    assert_eq!(pair_lines(b"one\ntwo\nthree"), None);
}

fn entry(name: &str, cookie: u64) -> DirEntry {
    DirEntry { name: name.as_bytes().to_vec(), file: 0, filetype: Filetype::RegularFile, entries: None, cookie }
}

#[test]
fn listing_by_cookie() {
    let list = vec![entry("a", 1), entry("b", 4), entry("c", 9)];
    assert_eq!(listed_entries(&list, None), vec![0, 1, 2]);
    assert_eq!(listed_entries(&list, Some(4)), vec![0, 1]);
    assert_eq!(listed_entries(&list, Some(0)), Vec::<usize>::new());
}

#[test]
fn file_accessors() {
    let mut f = vfs::File::RegularFile(RegularFile::Buf(b"abc".to_vec()));
    assert!(f.is_regular_file());
    assert!(!f.is_dir());
    assert_eq!(f.filetype(), Filetype::RegularFile);
    assert_eq!(f.size(), Some(3));
    f.as_regular_file_mut().unwrap().truncate(None, 1).unwrap();
    assert_eq!(f.as_regular_file().unwrap().read(0), Some(b"a".to_vec()));
    assert_eq!(f.as_dir().err(), Some(Errno::Badf));
    let mut d = vfs::File::Dir(vfs::Dir::new(4, false));
    assert_eq!(d.filetype(), Filetype::Directory);
    assert_eq!(d.size(), Some(0));
    assert_eq!(d.as_regular_file_mut().err(), Some(Errno::Badf));
    assert_eq!(d.as_dir().unwrap().entries, 4);
}
