use creds::Creds;
use creds::CredsError;

#[test]
fn new_store_is_empty() {
    let c = Creds::new();
    assert_eq!(c.get("anyone"), None);
    assert_eq!(c.write().unwrap(), "");
}

#[test]
fn empty_store_round_trip() {
    let c = Creds::new();
    let text = c.write().unwrap();
    assert_eq!(text, "");
    let c2 = Creds::read(&text);
    assert_eq!(c2.write().unwrap(), "");
    assert_eq!(c2.get("anyone"), None);
}

#[test]
fn round_trip_preserves_mapping_and_order() {
    let mut c = Creds::new();
    c.insert("alice".to_string(), "wonder land".to_string());
    c.insert("bob".to_string(), "builder".to_string());
    c.insert("carol".to_string(), "p:q:r".to_string());
    let text = c.write().unwrap();
    assert_eq!(text, "alice:wonder land\nbob:builder\ncarol:p:q:r\n");
    let c2 = Creds::read(&text);
    assert_eq!(c2.get("alice").as_deref(), Some("wonder land"));
    assert_eq!(c2.get("bob").as_deref(), Some("builder"));
    assert_eq!(c2.get("carol").as_deref(), Some("p:q:r"));
    assert_eq!(c2.write().unwrap(), text);
}

#[test]
fn overwrite_keeps_position_and_newest_password() {
    let mut c = Creds::new();
    c.insert("a".to_string(), "1".to_string());
    c.insert("b".to_string(), "2".to_string());
    c.insert("a".to_string(), "3".to_string());
    assert_eq!(c.get("a").as_deref(), Some("3"));
    assert_eq!(c.get("b").as_deref(), Some("2"));
    assert_eq!(c.write().unwrap(), "a:3\nb:2\n");
}

#[test]
fn unknown_key_lookup_is_none() {
    let mut c = Creds::new();
    assert_eq!(c.get("nonexistent"), None);
    c.insert("present".to_string(), "pw".to_string());
    assert_eq!(c.get("nonexistent"), None);
}

#[test]
fn indexed_access_returns_stored_password() {
    let mut c = Creds::new();
    c.insert("admin".to_string(), "hunter2".to_string());
    assert_eq!(c.index("admin"), "hunter2");
}

#[test]
fn line_without_colon_is_skipped() {
    let c = Creds::read("a:1\njunk\nb:2\n");
    assert_eq!(c.get("a").as_deref(), Some("1"));
    assert_eq!(c.get("b").as_deref(), Some("2"));
    assert_eq!(c.get("junk"), None);
    assert_eq!(c.write().unwrap(), "a:1\nb:2\n");
}

#[test]
fn split_happens_at_first_colon() {
    let c = Creds::read("user:pass:extra\n");
    assert_eq!(c.get("user").as_deref(), Some("pass:extra"));
    assert_eq!(c.get("user:pass"), None);
}

#[test]
fn write_rejects_colon_in_username() {
    let mut c = Creds::new();
    c.insert("a:b".to_string(), "x".to_string());
    assert_eq!(c.write(), Err(CredsError::InvalidData));
}

#[test]
fn write_rejects_newline_in_username() {
    let mut c = Creds::new();
    c.insert("a\nb".to_string(), "x".to_string());
    assert_eq!(c.write(), Err(CredsError::InvalidData));
}

#[test]
fn write_rejects_newline_in_password() {
    let mut c = Creds::new();
    c.insert("user".to_string(), "x\ny".to_string());
    assert_eq!(c.write(), Err(CredsError::InvalidData));
}

#[test]
fn write_fails_even_with_valid_entries_beside_a_bad_one() {
    let mut c = Creds::new();
    c.insert("good".to_string(), "fine".to_string());
    c.insert("bad:name".to_string(), "x".to_string());
    assert_eq!(c.write(), Err(CredsError::InvalidData));
}

#[test]
fn blank_lines_are_skipped() {
    let c = Creds::read("\n\na:1\n\n");
    assert_eq!(c.get("a").as_deref(), Some("1"));
    assert_eq!(c.get(""), None);
    assert_eq!(c.write().unwrap(), "a:1\n");
}

#[test]
fn last_line_without_terminator_is_parsed() {
    let c = Creds::read("a:1\nb:2");
    assert_eq!(c.get("a").as_deref(), Some("1"));
    assert_eq!(c.get("b").as_deref(), Some("2"));
}

#[test]
fn later_line_overwrites_earlier_in_place() {
    let c = Creds::read("a:1\nb:2\na:3\n");
    assert_eq!(c.get("a").as_deref(), Some("3"));
    assert_eq!(c.write().unwrap(), "a:3\nb:2\n");
}

#[test]
fn empty_username_and_empty_password_are_allowed() {
    let c = Creds::read(":p\nu:\n");
    assert_eq!(c.get("").as_deref(), Some("p"));
    assert_eq!(c.get("u").as_deref(), Some(""));
    assert_eq!(c.write().unwrap(), ":p\nu:\n");
}

#[test]
fn password_with_colon_round_trips() {
    let mut c = Creds::new();
    c.insert("u".to_string(), "p:q".to_string());
    let text = c.write().unwrap();
    assert_eq!(text, "u:p:q\n");
    let c2 = Creds::read(&text);
    assert_eq!(c2.get("u").as_deref(), Some("p:q"));
}

#[test]
fn clear_empties_the_store() {
    let mut c = Creds::new();
    c.insert("a".to_string(), "1".to_string());
    c.insert("b".to_string(), "2".to_string());
    c.clear();
    assert_eq!(c.get("a"), None);
    assert_eq!(c.get("b"), None);
    assert_eq!(c.write().unwrap(), "");
}

#[test]
fn default_store_is_empty() {
    let c = Creds::default();
    assert_eq!(c.get("anyone"), None);
    assert_eq!(c.write().unwrap(), "");
}

#[test]
fn clone_preserves_entries_and_order() {
    let mut c = Creds::new();
    c.insert("a".to_string(), "1".to_string());
    c.insert("b".to_string(), "2".to_string());
    let d = c.clone();
    assert_eq!(d.get("a").as_deref(), Some("1"));
    assert_eq!(d.get("b").as_deref(), Some("2"));
    assert_eq!(d.write().unwrap(), "a:1\nb:2\n");
}
