use bkm::bookmark::Bookmark;
use bkm::confirm::{parse_confirmation, ConfirmChoice};
use bkm::database::{StoreError, DB};

#[test]
fn display_lists_id_title_url_and_tags() {
    let b = Bookmark::new(
        1,
        "Example".to_string(),
        "https://example.com".to_string(),
        vec!["ref".to_string()],
    );
    assert_eq!(
        b.display_string(),
        "1 Example\n    https://example.com\n    ref\n"
    );
}

#[test]
fn display_without_tags_has_no_tag_line() {
    let b = Bookmark::new(2, "T".to_string(), "u".to_string(), vec![]);
    assert_eq!(b.display_string(), "2 T\n    u\n");
}

#[test]
fn display_joins_tags_and_renders_any_id() {
    let b = Bookmark::new(
        1234567890,
        "N".to_string(),
        "u".to_string(),
        vec!["a".to_string(), "b".to_string(), "c".to_string()],
    );
    assert_eq!(b.display_string(), "1234567890 N\n    u\n    a, b, c\n");
    let neg = Bookmark::new(-5, "N".to_string(), "u".to_string(), vec![]);
    assert_eq!(neg.display_string(), "-5 N\n    u\n");
}

#[test]
fn end_to_end_add_print_update_delete() {
    let mut db = DB::new();
    let added = db
        .add_bookmark(&"Example".to_string(), &"https://example.com".to_string())
        .unwrap();
    db.add_tag(added.id, "ref");

    let printed = db.get_bookmark_by_id(added.id).unwrap().display_string();
    assert!(printed.contains("Example"));
    assert!(printed.contains("https://example.com"));
    assert!(printed.contains("ref"));

    let same_url = db.get_url_by_id(added.id);
    db.update_bookmark(added.id, &"Example2".to_string(), &same_url);
    let updated = db.get_bookmark_by_id(added.id).unwrap();
    assert_eq!(updated.title, "Example2");
    assert_eq!(updated.url, "https://example.com");
    assert_eq!(updated.tags, vec!["ref".to_string()]);

    db.delete_bookmark(added.id);
    let err = db.get_bookmark_by_id(added.id).unwrap_err();
    assert_eq!(err, StoreError::NotFound);
    assert_eq!(err.message(), "Error: Did not match index");
}

#[test]
fn confirmation_answers() {
    assert_eq!(parse_confirmation(""), ConfirmChoice::Accept);
    assert_eq!(parse_confirmation("\n"), ConfirmChoice::Accept);
    assert_eq!(parse_confirmation("y"), ConfirmChoice::Accept);
    assert_eq!(parse_confirmation(" Y \n"), ConfirmChoice::Accept);
    assert_eq!(parse_confirmation("n"), ConfirmChoice::Decline);
    assert_eq!(parse_confirmation("N"), ConfirmChoice::Decline);
    assert_eq!(parse_confirmation("maybe"), ConfirmChoice::Undecided);
    assert_eq!(parse_confirmation("yes"), ConfirmChoice::Undecided);
}
