use gist_fs::client::{
    check_content_type, check_file_types, check_gist_id, GistFile, fetch_status, is_json, update_status, Client, ClientError, ETag,
    FetchStatus, GistPatch,
};
use gist_fs::content;

#[test]
fn client_keeps_its_token() {
    let c = Client::new(Some("SECRET-REDACTED".to_string()));
    assert_eq!(c.token.as_deref(), Some("SECRET-REDACTED"));
    assert_eq!(c.authorization().as_deref(), Some("token SECRET-REDACTED"));
    assert_eq!(Client::new(None).authorization(), None);
}

#[test]
fn gist_url_appends_the_id() {
    assert_eq!(Client::gist_url("abc123"), "https://api.github.com/gists/abc123");
}

#[test]
fn fetch_status_codes() {
    assert_eq!(fetch_status(200), Ok(FetchStatus::Modified));
    assert_eq!(fetch_status(304), Ok(FetchStatus::NotModified));
    assert_eq!(fetch_status(404), Err(ClientError::NotFound));
    assert_eq!(fetch_status(500), Err(ClientError::Api(500)));
}

#[test]
fn update_status_codes() {
    assert_eq!(update_status(200), Ok(()));
    assert_eq!(update_status(404), Err(ClientError::NotFound));
    assert_eq!(update_status(412), Err(ClientError::PreconditionFailed));
    assert_eq!(update_status(403), Err(ClientError::Api(403)));
}

#[test]
fn content_type_must_be_json() {
    assert_eq!(check_content_type(None), Ok(()));
    assert_eq!(check_content_type(Some("application/json")), Ok(()));
    assert_eq!(check_content_type(Some("application/json; charset=utf-8")), Ok(()));
    assert_eq!(check_content_type(Some("Application/JSON")), Ok(()));
    assert_eq!(check_content_type(Some("text/plain")), Err(ClientError::NotJson));
    assert_eq!(check_content_type(Some("application/xml")), Err(ClientError::NotJson));
    assert_eq!(check_content_type(Some("not a type")), Err(ClientError::BadContentType));
    assert!(is_json("application", "json"));
    assert!(!is_json("application", "jsonx"));
    assert!(!is_json("text", "json"));
}

#[test]
fn gist_id_must_match() {
    assert_eq!(check_gist_id("abc", "abc"), Ok(()));
    assert_eq!(check_gist_id("abd", "abc"), Err(ClientError::IdMismatch));
}

#[test]
fn etag_copies_are_equal() {
    let t = ETag { value: b"W/\"1234\"".to_vec() };
    assert_eq!(t.duplicate().value, t.value);
}

#[test]
fn patch_holds_its_files() {
    let files = [("a.txt", Some("new")), ("old.txt", None)];
    let p = GistPatch { files: &files, description: Some("d") };
    assert_eq!(p.files.len(), 2);
    assert_eq!(p.files[1].1, None);
    assert_eq!(p.description, Some("d"));
}

#[test]
fn content_read_write_resize() {
    let buf = b"hello".to_vec();
    assert_eq!(content::read(&buf, 0, 10), b"hello".to_vec());
    assert_eq!(content::read(&buf, 5, 1), Vec::<u8>::new());
    assert_eq!(content::read(&buf, u64::MAX, u64::MAX), Vec::<u8>::new());
    assert_eq!(content::read(&buf, 4, u64::MAX), b"o".to_vec());
    let mut b = Vec::new();
    content::write(&mut b, 3, b"ab");
    assert_eq!(b, vec![0, 0, 0, b'a', b'b']);
    content::write(&mut b, 0, b"xyz");
    assert_eq!(b, vec![b'x', b'y', b'z', b'a', b'b']);
    content::resize(&mut b, 2);
    assert_eq!(b, b"xy".to_vec());
    content::resize(&mut b, 4);
    assert_eq!(b, vec![b'x', b'y', 0, 0]);
}

fn typed(name: &str, type_: &str) -> GistFile {
    GistFile {
        filename: name.to_string(),
        type_: type_.to_string(),
        language: "Text".to_string(),
        raw_url: String::new(),
        size: 0,
        truncated: false,
        content: String::new(),
    }
}

#[test]
fn file_types_must_parse() {
    assert_eq!(check_file_types(&[]), Ok(()));
    assert_eq!(check_file_types(&[typed("a", "text/plain"), typed("b", "application/x-sh")]), Ok(()));
    assert_eq!(
        check_file_types(&[typed("a", "text/plain"), typed("b", "no type")]),
        Err(ClientError::BadContentType)
    );
}
