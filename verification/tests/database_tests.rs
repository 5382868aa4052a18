use bkm::bookmark::Bookmark;
use bkm::database::{StoreError, TableKind, DB};

fn test_data() -> Vec<Bookmark> {
    let data: Vec<Bookmark> = vec![
        (Bookmark {
            id: 1,
            title: "GitHub".to_string(),
            url: "https://github.com".to_string(),
            tags: vec!["Git".to_string(), "Hosting service".to_string()],
        }),
        (Bookmark {
            id: 2,
            title: "Google".to_string(),
            url: "https://google.com".to_string(),
            tags: vec!["Search".to_string()],
        }),
        (Bookmark {
            id: 3,
            title: "Example Domain".to_string(),
            url: "https://example.com".to_string(),
            tags: vec!["".to_string()],
        }),
    ];

    data
}

fn open() -> DB {
    DB::new()
}

#[test]
fn test_get_bookmark_by_id() {
    let mut db = open();

    for bookmark in test_data() {
        db.add_bookmark(&bookmark.title, &bookmark.url).unwrap();

        let b = db.get_bookmark_by_id(bookmark.id).unwrap();
        assert_eq!(
            (bookmark.id, bookmark.title, bookmark.url),
            (b.id, b.title, b.url)
        );
    }
}

#[test]
fn test_add_bookmark() {
    let mut db = open();

    for bookmark in test_data() {
        db.add_bookmark(&bookmark.title, &bookmark.url).unwrap();
        assert!(db.get_bookmark_by_id(bookmark.id).is_ok());
    }
}

#[test]
fn test_delete_bookmark() {
    let mut db = open();
    let bookmark = &test_data()[0];

    db.add_bookmark(&bookmark.title, &bookmark.url).unwrap();
    db.delete_bookmark(bookmark.id);
    assert!(db.get_bookmark_by_id(bookmark.id).is_err());
}

#[test]
fn test_update_bookmark() {
    let mut db = open();
    let old_bookmark = &test_data()[0];
    let new_bookmark = &test_data()[1];

    db.add_bookmark(&old_bookmark.title, &old_bookmark.url).unwrap();
    db.update_bookmark(old_bookmark.id, &new_bookmark.title, &new_bookmark.url);
    assert!(db.get_bookmark_by_id(old_bookmark.id).is_ok());
}

#[test]
fn test_search() {
    let mut db = open();

    for bookmark in test_data() {
        db.add_bookmark(&bookmark.title, &bookmark.url).unwrap();

        let t_search = &db.search(vec![&bookmark.title])[0];
        let u_search = &db.search(vec![&bookmark.url])[0];

        assert_eq!(
            (&bookmark.id, &bookmark.title, &bookmark.url),
            (&t_search.id, &t_search.title, &t_search.url)
        );
        assert_eq!(
            (&bookmark.id, &bookmark.title, &bookmark.url),
            (&u_search.id, &u_search.title, &u_search.url)
        );
    }
}

#[test]
fn fresh_store_add_then_get_returns_same_fields() {
    let mut db = DB::new();
    let b = db
        .add_bookmark(&"A title".to_string(), &"https://a.example".to_string())
        .unwrap();
    assert_eq!(b.id, 1);
    let got = db.get_bookmark_by_id(1).unwrap();
    assert_eq!(got.title, "A title");
    assert_eq!(got.url, "https://a.example");
    assert!(got.tags.is_empty());
}

#[test]
fn duplicate_url_fails_and_leaves_row_unchanged() {
    let mut db = DB::new();
    db.add_bookmark(&"First".to_string(), &"https://dup.example".to_string())
        .unwrap();
    let r = db.add_bookmark(&"Second".to_string(), &"https://dup.example".to_string());
    assert_eq!(r.unwrap_err(), StoreError::DuplicateUrl);
    let kept = db.get_bookmark_by_id(1).unwrap();
    assert_eq!(kept.title, "First");
    assert_eq!(db.get_record_count(TableKind::Bookmarks), 1);
}

#[test]
fn delete_cascades_and_later_get_is_not_found() {
    let mut db = DB::new();
    let b = db
        .add_bookmark(&"Tagged".to_string(), &"https://t.example".to_string())
        .unwrap();
    db.add_tag(b.id, "keep");
    db.add_tag(b.id, "drop");
    assert_eq!(db.get_record_count(TableKind::BookmarkTag), 2);
    db.delete_bookmark(b.id);
    assert_eq!(db.get_bookmark_by_id(b.id).unwrap_err(), StoreError::NotFound);
    assert_eq!(db.get_record_count(TableKind::BookmarkTag), 0);
    assert!(db.get_tags(b.id).is_empty());
}

#[test]
fn add_tag_twice_reuses_tag_row_but_doubles_association() {
    let mut db = DB::new();
    let b = db
        .add_bookmark(&"One".to_string(), &"https://one.example".to_string())
        .unwrap();
    db.add_tag(b.id, "x");
    db.add_tag(b.id, "x");
    assert_eq!(db.get_all_tag(), vec!["x".to_string()]);
    assert_eq!(db.get_record_count(TableKind::Tags), 1);
    // the observed flow appends one association row per call
    assert_eq!(db.get_tags(b.id), vec!["x".to_string(), "x".to_string()]);
    assert_eq!(db.get_record_count(TableKind::BookmarkTag), 2);
}

#[test]
fn search_is_a_substring_chain_over_title_and_url() {
    let mut db = DB::new();
    db.add_bookmark(&"GitHub".to_string(), &"https://github.com".to_string())
        .unwrap();
    let hit = db.search(vec!["git"]);
    assert_eq!(hit.len(), 1);
    assert_eq!(hit[0].title, "GitHub");
    assert!(db.search(vec!["foo"]).is_empty());
    // keywords must occur in order
    assert_eq!(db.search(vec!["Git", "Hub"]).len(), 1);
    assert!(db.search(vec!["Hub", "Git"]).is_empty());
    // an empty keyword list matches everything
    assert_eq!(db.search(vec![]).len(), 1);
}

#[test]
fn search_by_tag_matches_tag_name_substrings() {
    let mut db = DB::new();
    let a = db
        .add_bookmark(&"GitHub".to_string(), &"https://github.com".to_string())
        .unwrap();
    let b = db
        .add_bookmark(&"Google".to_string(), &"https://google.com".to_string())
        .unwrap();
    db.add_tag(a.id, "Hosting Service");
    db.add_tag(b.id, "Search");
    let hits = db.search_by_tag(vec!["Host"]);
    assert_eq!(hits.len(), 1);
    assert_eq!(hits[0].title, "GitHub");
    assert!(db.search_by_tag(vec!["host"]).is_empty());
}

#[test]
fn delete_tag_by_name_cascades_by_tag_id() {
    let mut db = DB::new();
    let a = db
        .add_bookmark(&"A".to_string(), &"https://a.example".to_string())
        .unwrap();
    let b = db
        .add_bookmark(&"B".to_string(), &"https://b.example".to_string())
        .unwrap();
    db.add_tag(a.id, "shared");
    db.add_tag(b.id, "shared");
    db.add_tag(b.id, "own");
    assert_eq!(db.check_existence_tag("shared"), 1);
    db.delete_tag("shared");
    assert_eq!(db.check_existence_tag("shared"), 0);
    assert!(db.get_tags(a.id).is_empty());
    assert_eq!(db.get_tags(b.id), vec!["own".to_string()]);
}

#[test]
fn clear_empties_one_table_at_a_time() {
    let mut db = DB::new();
    let a = db
        .add_bookmark(&"A".to_string(), &"https://a.example".to_string())
        .unwrap();
    db.add_tag(a.id, "t");
    db.clear(TableKind::Bookmarks);
    db.clear(TableKind::Tags);
    db.clear(TableKind::BookmarkTag);
    assert_eq!(db.get_record_count(TableKind::Bookmarks), 0);
    assert_eq!(db.get_record_count(TableKind::Tags), 0);
    assert_eq!(db.get_record_count(TableKind::BookmarkTag), 0);
    // ids keep counting after a clear
    let again = db
        .add_bookmark(&"A".to_string(), &"https://a.example".to_string())
        .unwrap();
    assert_eq!(again.id, 2);
}

#[test]
fn existence_probes_and_field_getters() {
    let mut db = DB::new();
    let a = db
        .add_bookmark(&"Name".to_string(), &"https://n.example".to_string())
        .unwrap();
    assert_eq!(db.check_existence_bookmark(a.id), 1);
    assert_eq!(db.check_existence_bookmark(99), 0);
    assert_eq!(db.get_url_by_id(a.id), "https://n.example");
    assert_eq!(db.get_title_by_id(a.id), "Name");
    assert_eq!(db.get_max_bookmark_id(), a.id);
    let b = db
        .add_bookmark(&"Other".to_string(), &"https://o.example".to_string())
        .unwrap();
    assert_eq!(db.get_max_bookmark_id(), b.id);
}

#[test]
fn get_all_bookmark_lists_in_ascending_id_order() {
    let mut db = DB::new();
    for bookmark in test_data() {
        db.add_bookmark(&bookmark.title, &bookmark.url).unwrap();
    }
    let all = db.get_all_bookmark();
    assert_eq!(all.len(), 3);
    assert_eq!(all[0].id, 1);
    assert_eq!(all[1].id, 2);
    assert_eq!(all[2].id, 3);
}

#[test]
fn update_keeps_tags_and_other_rows() {
    let mut db = DB::new();
    let a = db
        .add_bookmark(&"Old".to_string(), &"https://u.example".to_string())
        .unwrap();
    db.add_tag(a.id, "kept");
    db.update_bookmark(a.id, &"New".to_string(), &"https://u2.example".to_string());
    let got = db.get_bookmark_by_id(a.id).unwrap();
    assert_eq!(got.title, "New");
    assert_eq!(got.url, "https://u2.example");
    assert_eq!(got.tags, vec!["kept".to_string()]);
}

#[test]
fn loading_rebuilds_rows_under_their_stored_ids() {
    let mut db = DB::new();
    assert!(db.load_bookmark(3, &"Three".to_string(), &"https://three.example".to_string()));
    assert!(db.load_bookmark(7, &"Seven".to_string(), &"https://seven.example".to_string()));
    // out-of-order, duplicate-url and overflowing rows are refused
    assert!(!db.load_bookmark(5, &"Five".to_string(), &"https://five.example".to_string()));
    assert!(!db.load_bookmark(9, &"Again".to_string(), &"https://three.example".to_string()));
    assert!(!db.load_bookmark(i64::MAX, &"Max".to_string(), &"https://m.example".to_string()));
    assert!(db.load_tag(2, "kept"));
    assert!(!db.load_tag(2, "late"));
    assert!(!db.load_tag(4, "kept"));
    db.add_bookmark_tag(7, 2);

    assert_eq!(db.get_bookmark_by_id(3).unwrap().title, "Three");
    assert_eq!(db.get_bookmark_by_id(7).unwrap().tags, vec!["kept".to_string()]);
    assert_eq!(db.tag_rows(), vec![(2, "kept".to_string())]);
    assert_eq!(db.assoc_rows(), vec![(7, 2)]);
    // fresh ids continue above the loaded ones
    let b = db
        .add_bookmark(&"New".to_string(), &"https://new.example".to_string())
        .unwrap();
    assert_eq!(b.id, 8);
    assert_eq!(db.get_max_bookmark_id(), 8);
}

#[test]
fn id_headroom_is_reported_before_it_runs_out() {
    let mut db = DB::new();
    assert!(db.can_assign_ids(0));
    assert!(db.load_bookmark(
        i64::MAX - 1,
        &"Last".to_string(),
        &"https://last.example".to_string()
    ));
    assert!(!db.can_assign_ids(0));
    assert!(db.load_tag(i64::MAX - 1, "last"));
    let mut other = DB::new();
    assert!(other.can_assign_ids(i64::MAX - 1));
    assert!(!other.can_assign_ids(i64::MAX));
}

#[test]
fn update_of_a_missing_id_changes_nothing() {
    let mut db = DB::new();
    db.add_bookmark(&"Kept".to_string(), &"https://kept.example".to_string())
        .unwrap();
    db.update_bookmark(99, &"Other".to_string(), &"https://kept.example".to_string());
    assert_eq!(db.get_record_count(TableKind::Bookmarks), 1);
    let b = db.get_bookmark_by_id(1).unwrap();
    assert_eq!(b.title, "Kept");
    assert_eq!(b.url, "https://kept.example");
    assert_eq!(db.get_bookmark_by_id(99).unwrap_err(), StoreError::NotFound);
}

#[test]
fn error_messages_match_the_command_layer_wording() {
    assert_eq!(StoreError::DuplicateUrl.message(), "Error: URL already exists");
    assert_eq!(StoreError::NotFound.message(), "Error: Did not match index");
}
