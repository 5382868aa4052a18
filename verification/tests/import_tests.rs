use bkm::bookmark::Bookmark;
use bkm::import::{get_bookmarks_from_html, import_bookmarks, title_from_html};
use bkm::database::DB;

fn bookmarks_page() -> String {
    [
        "<!DOCTYPE NETSCAPE-Bookmark-file-1>",
        "<TITLE>Bookmarks</TITLE>",
        "<H1>Bookmarks</H1>",
        "<DL><p>",
        "    <DT><H3>Hosting Service</H3>",
        "    <DL><p>",
        "        <DT><A HREF=\"https://github.com\" TAGS=\"Git,test\">GitHub</A>",
        "    </DL><p>",
        "    <DT><A HREF=\"https://google.com\" TAGS=\"test\">Google</A>",
        "    <DT><A HREF=\"https://example.com\" TAGS=\"Test\">Example Domain</A>",
        "</DL><p>",
    ]
    .join("\n")
}

#[test]
fn test_get_bookmarks_from_html() {
    let testdata: Vec<Bookmark> = vec![
        (Bookmark {
            id: 1,
            title: "GitHub".to_string(),
            url: "https://github.com".to_string(),
            tags: vec![
                "Git".to_string(),
                "Hosting Service".to_string(),
                "test".to_string(),
            ],
        }),
        (Bookmark {
            id: 2,
            title: "Google".to_string(),
            url: "https://google.com".to_string(),
            tags: vec!["test".to_string()],
        }),
        (Bookmark {
            id: 3,
            title: "Example Domain".to_string(),
            url: "https://example.com".to_string(),
            tags: vec!["Test".to_string()],
        }),
    ];

    let page = bookmarks_page();
    let bookmarks: Vec<Bookmark> = get_bookmarks_from_html(&page);

    assert_eq!(bookmarks.len(), testdata.len());
    for (test_bookmark, bookmark) in testdata.iter().zip(bookmarks.iter()) {
        assert_eq!(
            (&test_bookmark.title, &test_bookmark.url, &test_bookmark.tags),
            (&bookmark.title, &bookmark.url, &bookmark.tags)
        );
    }
}

#[test]
fn links_without_href_are_skipped_and_ids_count_in_reading_order() {
    let page = "<DL><DT><A>No link</A><DT><A HREF=\"https://a.example\">A</A></DL>";
    let bookmarks = get_bookmarks_from_html(page);
    assert_eq!(bookmarks.len(), 1);
    assert_eq!(bookmarks[0].id, 1);
    assert_eq!(bookmarks[0].title, "A");
    assert_eq!(bookmarks[0].url, "https://a.example");
}

#[test]
fn heading_tag_is_shared_and_deduplicated_against_attribute_tags() {
    let page = [
        "<DL><p>",
        "  <DT><H3>Ref</H3>",
        "  <DL><p>",
        "    <DT><A HREF=\"https://one.example\" TAGS=\"Ref,alpha\">One</A>",
        "    <DT><A HREF=\"https://two.example\">Two</A>",
        "  </DL><p>",
        "</DL><p>",
    ]
    .join("\n");
    let items = get_bookmarks_from_html(&page);
    assert_eq!(items.len(), 2);
    // both links carry the heading's text; the overlap with the attribute
    // tags is deduplicated, and tags come out sorted
    assert_eq!(items[0].tags, vec!["Ref".to_string(), "alpha".to_string()]);
    assert_eq!(items[1].tags, vec!["Ref".to_string()]);

    let mut db = DB::new();
    let added = import_bookmarks(&mut db, &items);
    assert_eq!(added, vec![true, true]);
    assert_eq!(
        db.get_bookmark_by_id(1).unwrap().tags,
        vec!["Ref".to_string(), "alpha".to_string()]
    );
    assert_eq!(db.get_bookmark_by_id(2).unwrap().tags, vec!["Ref".to_string()]);
    // one tag row serves both bookmarks
    assert_eq!(db.get_all_tag(), vec!["Ref".to_string(), "alpha".to_string()]);

    // importing the same page again reports every url as a duplicate and
    // leaves every tag list as it was
    let again = import_bookmarks(&mut db, &items);
    assert_eq!(again, vec![false, false]);
    assert_eq!(
        db.get_bookmark_by_id(1).unwrap().tags,
        vec!["Ref".to_string(), "alpha".to_string()]
    );
    assert_eq!(db.get_bookmark_by_id(2).unwrap().tags, vec!["Ref".to_string()]);
    assert_eq!(db.get_all_tag(), vec!["Ref".to_string(), "alpha".to_string()]);
}

#[test]
fn imported_tags_follow_the_assigned_id_on_a_loaded_store() {
    let mut db = DB::new();
    db.add_bookmark(&"Old".to_string(), &"https://old.example".to_string())
        .unwrap();
    // the item carries file position 1, but the insertion is assigned id 2
    let items = vec![Bookmark::new(
        1,
        "Fresh".to_string(),
        "https://fresh.example".to_string(),
        vec!["mark".to_string()],
    )];
    let added = import_bookmarks(&mut db, &items);
    assert_eq!(added, vec![true]);
    assert_eq!(db.get_bookmark_by_id(2).unwrap().tags, vec!["mark".to_string()]);
    assert!(db.get_bookmark_by_id(1).unwrap().tags.is_empty());
    assert!(db.get_tags(1).is_empty());
}

#[test]
fn import_skips_duplicates_but_continues_with_the_rest() {
    let mut db = DB::new();
    db.add_bookmark(&"Old".to_string(), &"https://google.com".to_string())
        .unwrap();
    let page = bookmarks_page();
    let items = get_bookmarks_from_html(&page);
    let added = import_bookmarks(&mut db, &items);
    assert_eq!(added, vec![true, false, true]);
    assert_eq!(db.get_all_bookmark().len(), 3);
    // the duplicate's row is unchanged and picks up no tags
    assert_eq!(db.get_bookmark_by_id(1).unwrap().title, "Old");
    assert!(db.get_bookmark_by_id(1).unwrap().tags.is_empty());
    // the added items' tags land on the ids the insertions were assigned
    let github = db.get_bookmark_by_id(2).unwrap();
    assert_eq!(github.title, "GitHub");
    assert_eq!(
        github.tags,
        vec![
            "Git".to_string(),
            "Hosting Service".to_string(),
            "test".to_string()
        ]
    );
    let example = db.get_bookmark_by_id(3).unwrap();
    assert_eq!(example.title, "Example Domain");
    assert_eq!(example.tags, vec!["Test".to_string()]);
}

#[test]
fn title_is_taken_from_the_first_title_element() {
    let page = "<html><head><TITLE>Hello World</TITLE></head><body></body></html>";
    assert_eq!(title_from_html(page), Some("Hello World".to_string()));
    assert_eq!(
        title_from_html("<title lang=\"en\">X</title><title>Y</title>"),
        Some("X".to_string())
    );
    assert_eq!(title_from_html("<html><body>plain</body></html>"), None);
}
