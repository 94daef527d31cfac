use gist_fs::attr::{Timestamp, S_IFDIR, S_IFMT};
use gist_fs::client::{Client, ClientError, ETag, Gist, GistFile};
use gist_fs::error::FsError;
use gist_fs::fs::{FetchOutcome, GistFs, OpenStep, Refresh};
use gist_fs::node::{Forget, ROOT_INO};

fn at(secs: i64) -> Timestamp {
    Timestamp { secs, nanos: 0 }
}

fn file(name: &str, content: &str) -> GistFile {
    GistFile {
        filename: name.to_string(),
        type_: "text/plain".to_string(),
        language: "Text".to_string(),
        raw_url: format!("https://example.invalid/raw/{}", name),
        size: content.len() as u64,
        truncated: false,
        content: content.to_string(),
    }
}

fn gist(files: Vec<GistFile>) -> Gist {
    Gist {
        id: "abc".to_string(),
        description: "notes".to_string(),
        public: true,
        created_at: at(1000),
        updated_at: at(2000),
        files,
        truncated: false,
    }
}

fn new_fs() -> GistFs {
    GistFs::new(Client::new(None), "abc".to_string(), 501, 20)
}

fn sync(fs: &mut GistFs, now: i64, files: Vec<GistFile>) {
    let outcome = Ok(FetchOutcome::Modified(gist(files), None));
    assert_eq!(fs.complete_refresh_at(at(now), outcome), Ok(()));
}

fn ino_of(fs: &mut GistFs, name: &str) -> u64 {
    fs.do_lookup(ROOT_INO, name).unwrap().ino
}

#[test]
fn scenario_first_sync_exposes_the_file() {
    let mut fs = new_fs();
    sync(&mut fs, 10, vec![file("a.txt", "hi")]);
    let attr = fs.do_lookup(ROOT_INO, "a.txt").unwrap();
    assert_eq!(attr.size, 2);
    assert_eq!(fs.do_read(attr.ino, 0, 10).unwrap(), b"hi".to_vec());
}

#[test]
fn scenario_second_sync_keeps_the_inode() {
    let mut fs = new_fs();
    sync(&mut fs, 10, vec![file("a.txt", "hi")]);
    let first = ino_of(&mut fs, "a.txt");
    sync(&mut fs, 1000, vec![file("a.txt", "hello")]);
    let attr = fs.do_lookup(ROOT_INO, "a.txt").unwrap();
    assert_eq!(attr.ino, first);
    assert_eq!(attr.size, 5);
    assert_eq!(fs.do_read(first, 0, 10).unwrap(), b"hello".to_vec());
}

#[test]
fn scenario_root_is_read_only_and_not_a_file() {
    let mut fs = new_fs();
    assert_eq!(fs.do_setattr(ROOT_INO, None, Some(0)), Err(FsError::PermissionDenied));
    assert!(matches!(fs.do_open(ROOT_INO), Err(FsError::IsADirectory)));
    assert_eq!(fs.do_read(ROOT_INO, 0, 1), Err(FsError::IsADirectory));
    assert_eq!(fs.do_write(ROOT_INO, 0, b"x"), Err(FsError::IsADirectory));
    assert_eq!(fs.do_flush(ROOT_INO), Err(FsError::IsADirectory));
    let root = fs.do_getattr(ROOT_INO).unwrap();
    assert_eq!(root.mode, S_IFDIR | 0o555);
    assert_eq!(root.mode & S_IFMT, S_IFDIR);
    assert_eq!(root.uid, 501);
    assert_eq!(root.gid, 20);
}

#[test]
fn reconcile_is_keyed_by_name_and_keeps_ids() {
    let mut fs = new_fs();
    sync(&mut fs, 10, vec![file("a", "1"), file("b", "2"), file("c", "3")]);
    let a = ino_of(&mut fs, "a");
    let b = ino_of(&mut fs, "b");
    let c = ino_of(&mut fs, "c");
    let before = fs.table.next_ino;
    sync(&mut fs, 20, vec![file("b", "22"), file("c", "33"), file("d", "4")]);
    assert_eq!(ino_of(&mut fs, "b"), b);
    assert_eq!(ino_of(&mut fs, "c"), c);
    let d = ino_of(&mut fs, "d");
    assert!(d >= before);
    assert!(d != a && d != b && d != c);
    assert_eq!(fs.do_lookup(ROOT_INO, "a"), Err(FsError::NotFound));
    assert_eq!(fs.do_getattr(a), Err(FsError::NotFound));
    assert_eq!(fs.do_read(a, 0, 10), Err(FsError::NotFound));
    let listing: Vec<String> = fs.do_readdir(ROOT_INO, 2, 4096).unwrap().into_iter().map(|e| e.name).collect();
    assert_eq!(listing, vec!["b", "c", "d"]);
    assert_eq!(fs.do_read(b, 0, 10).unwrap(), b"22".to_vec());
    assert_eq!(fs.do_read(d, 0, 10).unwrap(), b"4".to_vec());
}

#[test]
fn reconcile_keeps_lookup_counts_and_sets_times() {
    let mut fs = new_fs();
    sync(&mut fs, 10, vec![file("a", "1")]);
    let a = ino_of(&mut fs, "a");
    ino_of(&mut fs, "a");
    sync(&mut fs, 20, vec![file("a", "11")]);
    assert_eq!(fs.table.nodes.get(&a).unwrap().nlookup, 2);
    let attr = fs.do_getattr(a).unwrap();
    assert_eq!(attr.mtime, at(2000));
    assert_eq!(attr.ctime, at(1000));
    assert_eq!(attr.mode, 0o100444);
    assert_eq!(attr.nlink, 1);
    assert_eq!(attr.uid, 501);
    assert_eq!(attr.gid, 20);
    assert_eq!(attr.atime, at(2000));
}

#[test]
fn new_filesystem_hands_out_ids_from_two() {
    let mut fs = new_fs();
    assert_eq!(fs.table.next_ino, 2);
    sync(&mut fs, 10, vec![file("a", "1")]);
    assert_eq!(ino_of(&mut fs, "a"), 2);
}

#[test]
fn truncated_file_waits_for_its_content() {
    let mut fs = new_fs();
    sync(&mut fs, 10, vec![file("big", "full text")]);
    let ino = ino_of(&mut fs, "big");
    assert!(matches!(fs.do_open(ino), Ok(OpenStep::Ready)));
    let mut cut = file("big", "partial");
    cut.truncated = true;
    cut.size = 1234;
    sync(&mut fs, 20, vec![cut]);
    assert_eq!(fs.do_getattr(ino).unwrap().size, 1234);
    assert_eq!(fs.files.get(&ino), Some(&None));
    assert_eq!(fs.do_read(ino, 0, 10).unwrap(), Vec::<u8>::new());
    match fs.do_open(ino) {
        Ok(OpenStep::Fetch(url)) => assert_eq!(url, "https://example.invalid/raw/big"),
        other => panic!("expected a fetch, got {:?}", other),
    }
    assert_eq!(fs.rehydrate(ino, b"the whole text".to_vec()), Ok(()));
    assert_eq!(fs.do_getattr(ino).unwrap().size, 14);
    assert_eq!(fs.do_read(ino, 4, 5).unwrap(), b"whole".to_vec());
    assert!(matches!(fs.do_open(ino), Ok(OpenStep::Ready)));
    assert_eq!(fs.rehydrate(ino, b"late".to_vec()), Ok(()));
    assert_eq!(fs.do_read(ino, 0, 3).unwrap(), b"the".to_vec());
    assert_eq!(fs.rehydrate(ROOT_INO, Vec::new()), Err(FsError::IsADirectory));
    assert_eq!(fs.rehydrate(99, Vec::new()), Err(FsError::NotFound));
    assert!(matches!(fs.do_open(99), Err(FsError::NotFound)));
}

#[test]
fn refresh_waits_for_expiry() {
    let mut fs = new_fs();
    match fs.begin_refresh_at(at(0)) {
        Refresh::Fetch(None) => {}
        _ => panic!("a new filesystem must fetch"),
    }
    let outcome = Ok(FetchOutcome::Modified(gist(vec![file("a", "1")]), Some(ETag { value: b"\"v1\"".to_vec() })));
    assert_eq!(fs.complete_refresh_at(at(100), outcome), Ok(()));
    assert_eq!(fs.expired, at(400));
    assert!(matches!(fs.begin_refresh_at(at(400)), Refresh::Fresh));
    match fs.begin_refresh_at(at(401)) {
        Refresh::Fetch(Some(t)) => assert_eq!(t.value, b"\"v1\"".to_vec()),
        _ => panic!("an expired cache must fetch with its tag"),
    }
    assert_eq!(fs.complete_refresh_at(at(500), Ok(FetchOutcome::NotModified)), Ok(()));
    assert_eq!(fs.expired, at(800));
    let a = ino_of(&mut fs, "a");
    assert_eq!(fs.do_read(a, 0, 5).unwrap(), b"1".to_vec());
}

#[test]
fn failed_fetch_changes_nothing() {
    let mut fs = new_fs();
    sync(&mut fs, 100, vec![file("a", "1")]);
    assert_eq!(fs.complete_refresh_at(at(900), Err(ClientError::NotFound)), Err(FsError::Io));
    assert_eq!(fs.complete_refresh_at(at(900), Err(ClientError::Api(500))), Err(FsError::Io));
    assert_eq!(fs.expired, at(400));
    assert!(matches!(fs.begin_refresh_at(at(900)), Refresh::Fetch(None)));
    let a = ino_of(&mut fs, "a");
    assert_eq!(fs.do_read(a, 0, 5).unwrap(), b"1".to_vec());
}

#[test]
fn cache_period_can_be_changed() {
    let mut fs = new_fs();
    fs.set_cache_period(60);
    assert_eq!(fs.complete_refresh_at(at(100), Ok(FetchOutcome::NotModified)), Ok(()));
    assert_eq!(fs.expired, at(160));
}

#[test]
fn opendir_decides_by_the_time_given() {
    let mut fs = new_fs();
    assert!(matches!(fs.do_opendir(ROOT_INO, at(0)), Ok(Refresh::Fetch(None))));
    assert_eq!(fs.complete_refresh_at(at(100), Ok(FetchOutcome::NotModified)), Ok(()));
    assert!(matches!(fs.do_opendir(ROOT_INO, at(399)), Ok(Refresh::Fresh)));
    assert!(matches!(fs.do_opendir(ROOT_INO, at(401)), Ok(Refresh::Fetch(None))));
    assert!(matches!(fs.do_opendir(42, at(0)), Err(FsError::NotFound)));
    sync(&mut fs, 10, vec![file("a", "1")]);
    let a = ino_of(&mut fs, "a");
    assert!(matches!(fs.do_opendir(a, at(0)), Err(FsError::NotADirectory)));
}

#[test]
fn read_past_the_end_is_empty() {
    let mut fs = new_fs();
    sync(&mut fs, 10, vec![file("a", "hello")]);
    let a = ino_of(&mut fs, "a");
    assert_eq!(fs.do_read(a, 5, 10).unwrap(), Vec::<u8>::new());
    assert_eq!(fs.do_read(a, 50, 10).unwrap(), Vec::<u8>::new());
    assert_eq!(fs.do_read(a, 3, 10).unwrap(), b"lo".to_vec());
    assert_eq!(fs.do_read(a, 1, 3).unwrap(), b"ell".to_vec());
    assert_eq!(fs.do_read(99, 0, 1), Err(FsError::NotFound));
}

#[test]
fn write_past_the_end_fills_with_zeros() {
    let mut fs = new_fs();
    sync(&mut fs, 10, vec![file("a", "ab")]);
    let a = ino_of(&mut fs, "a");
    assert_eq!(fs.do_write(a, 4, b"xy"), Ok(2));
    assert_eq!(fs.do_read(a, 0, 100).unwrap(), vec![b'a', b'b', 0, 0, b'x', b'y']);
    assert_eq!(fs.do_getattr(a).unwrap().size, 6);
    assert_eq!(fs.do_write(a, 1, b"Q"), Ok(1));
    assert_eq!(fs.do_read(a, 0, 100).unwrap(), vec![b'a', b'Q', 0, 0, b'x', b'y']);
    assert_eq!(fs.do_getattr(a).unwrap().size, 6);
    assert_eq!(fs.do_write(99, 0, b"z"), Err(FsError::NotFound));
    assert_eq!(fs.do_write(a, u64::MAX, b"z"), Err(FsError::TooLarge));
    assert_eq!(fs.do_flush(a), Ok(()));
    assert_eq!(fs.do_flush(99), Err(FsError::NotFound));
}

#[test]
fn setattr_truncates_and_sets_times() {
    let mut fs = new_fs();
    sync(&mut fs, 10, vec![file("a", "hello")]);
    let a = ino_of(&mut fs, "a");
    let attr = fs.do_setattr(a, Some(at(77)), Some(2)).unwrap();
    assert_eq!(attr.size, 2);
    assert_eq!(attr.mtime, at(77));
    assert_eq!(fs.do_read(a, 0, 10).unwrap(), b"he".to_vec());
    let attr = fs.do_setattr(a, None, Some(4)).unwrap();
    assert_eq!(attr.mtime, at(77));
    assert_eq!(fs.do_read(a, 0, 10).unwrap(), vec![b'h', b'e', 0, 0]);
    let attr = fs.do_setattr(a, Some(at(88)), None).unwrap();
    assert_eq!(attr.mtime, at(88));
    assert_eq!(attr.size, 4);
    assert_eq!(fs.do_setattr(99, None, None), Err(FsError::NotFound));
}

#[test]
fn forget_goes_through_to_the_table() {
    let mut fs = new_fs();
    sync(&mut fs, 10, vec![file("a", "1")]);
    let a = ino_of(&mut fs, "a");
    ino_of(&mut fs, "a");
    fs.do_forget(&[Forget { ino: a, nlookup: 1 }]);
    assert_eq!(fs.table.nodes.get(&a).unwrap().nlookup, 1);
    fs.do_forget(&[Forget { ino: a, nlookup: 3 }]);
    assert_eq!(fs.table.nodes.get(&a).unwrap().nlookup, 0);
    assert!(fs.do_getattr(a).is_ok());
}

#[test]
fn readdir_of_a_file_or_nothing_fails() {
    let mut fs = new_fs();
    sync(&mut fs, 10, vec![file("a", "1")]);
    let a = ino_of(&mut fs, "a");
    assert_eq!(fs.do_readdir(a, 0, 4096).unwrap_err(), FsError::NotADirectory);
    assert_eq!(fs.do_readdir(77, 0, 4096).unwrap_err(), FsError::NotFound);
}
