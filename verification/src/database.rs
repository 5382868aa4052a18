//! The store: the executable three-table state with verified operations.
//! Every operation's contract is stated over the model of `crate::model`.

use vstd::prelude::*;
use vstd::pervasive::unreached;
use crate::bookmark::{Bookmark, BookmarkView};
use crate::model::{
    add_assoc_t, add_bookmark_t, add_tag_t, bookmark_at, bookmark_rows_ok, empty_model, entry_of,
    has_url, has_bookmark_id, has_tag_name, inv, saturated_count, tag_named, tags_have_id,
    tag_name_by_id, tag_names_from, tag_names_of, AssocRecord, BookmarkRecord, StoreModel,
    TagRecord,
};

verus! {

/// Why a store operation refused to act.
#[derive(Clone, Copy, Debug, PartialEq, Eq, Structural)]
pub enum StoreError {
    /// The url is already held by a live bookmark.
    DuplicateUrl,
    /// No row matches the given id or name.
    NotFound,
}

impl StoreError {
    /// The message the command layer prints for this error.
    pub fn message(&self) -> (r: String)
        ensures
            *self == StoreError::DuplicateUrl ==> r@ == "Error: URL already exists"@,
            *self == StoreError::NotFound ==> r@ == "Error: Did not match index"@,
    {
        match self {
            StoreError::DuplicateUrl => String::from_str("Error: URL already exists"),
            StoreError::NotFound => String::from_str("Error: Did not match index"),
        }
    }
}

struct BookmarkRow {
    id: i64,
    title: String,
    url: String,
}

impl View for BookmarkRow {
    type V = BookmarkRecord;

    closed spec fn view(&self) -> BookmarkRecord {
        BookmarkRecord { id: self.id as int, title: self.title@, url: self.url@ }
    }
}

struct TagRow {
    id: i64,
    name: String,
}

impl View for TagRow {
    type V = TagRecord;

    closed spec fn view(&self) -> TagRecord {
        TagRecord { id: self.id as int, name: self.name@ }
    }
}

#[derive(Clone, Copy)]
struct AssocRow {
    bookmark_id: i64,
    tag_id: i64,
}

/// The three tables a bulk clear or a row count can name.
#[derive(Clone, Copy, Debug, PartialEq, Eq, Structural)]
pub enum TableKind {
    Bookmarks,
    Tags,
    BookmarkTag,
}

impl View for AssocRow {
    type V = AssocRecord;

    closed spec fn view(&self) -> AssocRecord {
        AssocRecord { bookmark_id: self.bookmark_id as int, tag_id: self.tag_id as int }
    }
}

/// The in-memory store: the three tables and the two id counters.
pub struct DB {
    bookmarks: Vec<BookmarkRow>,
    tags: Vec<TagRow>,
    assoc: Vec<AssocRow>,
    next_bookmark_id: i64,
    next_tag_id: i64,
}

impl View for DB {
    type V = StoreModel;

    closed spec fn view(&self) -> StoreModel {
        StoreModel {
            bookmarks: self.bookmarks@.map_values(|r: BookmarkRow| r@),
            tags: self.tags@.map_values(|r: TagRow| r@),
            assoc: self.assoc@.map_values(|r: AssocRow| r@),
            next_bookmark_id: self.next_bookmark_id as int,
            next_tag_id: self.next_tag_id as int,
        }
    }
}

/// The search keywords as character vectors.
fn keywords_chars(keywords: &Vec<&str>) -> (r: Vec<Vec<char>>)
    ensures
        r.deep_view() == keywords.deep_view(),
{
    let mut r: Vec<Vec<char>> = Vec::new();
    let mut i: usize = 0;
    while i < keywords.len()
        invariant
            i <= keywords.len(),
            r.deep_view() == keywords.deep_view().take(i as int),
        decreases keywords.len() - i,
    {
        let ghost prev = r.deep_view();
        r.push(crate::text::chars_of(keywords[i]));
        proof {
            assert(r.deep_view() =~~= prev.push(keywords.deep_view()[i as int]));
            assert(keywords.deep_view().take(i + 1) =~~= keywords.deep_view().take(
                i as int,
            ).push(keywords.deep_view()[i as int]));
        }
        i += 1;
    }
    proof {
        assert(keywords.deep_view().take(keywords.len() as int) =~~= keywords.deep_view());
    }
    r
}

impl DB {
    /// A fresh, empty store.
    pub fn new() -> (r: DB)
        ensures
            r@ == empty_model(),
            inv(r@),
    {
        let r = DB {
            bookmarks: Vec::new(),
            tags: Vec::new(),
            assoc: Vec::new(),
            next_bookmark_id: 1,
            next_tag_id: 1,
        };
        proof {
            assert(r@ =~= empty_model());
        }
        r
    }

    /// Whether some bookmark row already holds this url.
    fn url_exists(&self, url: &String) -> (r: bool)
        ensures
            r == has_url(self@, url@),
    {
        let mut i: usize = 0;
        while i < self.bookmarks.len()
            invariant
                i <= self.bookmarks.len(),
                forall|j: int| 0 <= j < i ==> (#[trigger] self@.bookmarks[j]).url != url@,
            decreases self.bookmarks.len() - i,
        {
            if self.bookmarks[i].url == *url {
                assert(self@.bookmarks[i as int].url == url@);
                return true;
            }
            i += 1;
        }
        false
    }

    /// Inserts a new bookmark with the next free id, unless the url is
    /// already present; a duplicate url leaves the store unchanged.
    pub fn add_bookmark(&mut self, title: &String, url: &String) -> (r: Result<
        Bookmark,
        StoreError,
    >)
        requires
            inv(old(self)@),
            old(self)@.next_bookmark_id < i64::MAX,
        ensures
            inv(final(self)@),
            has_url(old(self)@, url@) ==> (r matches Err(e) && e == StoreError::DuplicateUrl
                && final(self)@ == old(self)@),
            !has_url(old(self)@, url@) ==> final(self)@ == add_bookmark_t(old(self)@, title@, url@)
                && (
            r matches Ok(b) && b@ == (BookmarkView {
                id: old(self)@.next_bookmark_id,
                title: title@,
                url: url@,
                tags: Seq::empty(),
            })),
    {
        if self.url_exists(url) {
            return Err(StoreError::DuplicateUrl);
        }
        let id = self.next_bookmark_id;
        self.bookmarks.push(BookmarkRow { id, title: title.clone(), url: url.clone() });
        self.next_bookmark_id = id + 1;
        proof {
            assert(self@ =~= add_bookmark_t(old(self)@, title@, url@));
            assert forall|i: int, j: int| 0 <= i < j < self@.bookmarks.len() implies (
            #[trigger] self@.bookmarks[i]).url != (#[trigger] self@.bookmarks[j]).url by {
                if j == self@.bookmarks.len() - 1 {
                    assert(old(self)@.bookmarks[i].url != url@);
                }
            }
            assert(bookmark_rows_ok(self@.bookmarks, self@.next_bookmark_id));
        }
        let b = Bookmark::new(id, title.clone(), url.clone(), Vec::new());
        proof {
            assert(b@.tags =~= Seq::<Seq<char>>::empty());
        }
        Ok(b)
    }

    /// The position of the bookmark row with the given id, if any.
    fn find_bookmark(&self, id: i64) -> (r: Option<usize>)
        requires
            inv(self@),
        ensures
            match r {
                Some(i) => i < self@.bookmarks.len() && self@.bookmarks[i as int].id == id
                    && has_bookmark_id(self@, id as int) && bookmark_at(self@, id as int)
                    == self@.bookmarks[i as int],
                None => !has_bookmark_id(self@, id as int),
            },
    {
        let mut i: usize = 0;
        while i < self.bookmarks.len()
            invariant
                inv(self@),
                i <= self.bookmarks.len(),
                forall|j: int| 0 <= j < i ==> (#[trigger] self@.bookmarks[j]).id != id,
            decreases self.bookmarks.len() - i,
        {
            if self.bookmarks[i].id == id {
                proof {
                    let m = self@;
                    let ci = crate::model::bookmark_index(m, id as int);
                    assert(m.bookmarks[i as int].id == id);
                    if ci < i as int {
                        assert(m.bookmarks[ci].id < m.bookmarks[i as int].id);
                    } else if ci > i as int {
                        assert(m.bookmarks[i as int].id < m.bookmarks[ci].id);
                    }
                }
                return Some(i);
            }
            i += 1;
        }
        None
    }

    /// The name of the tag with the given id, if the tag still exists.
    fn find_tag_name(&self, tag_id: i64) -> (r: Option<String>)
        requires
            inv(self@),
        ensures
            match r {
                Some(name) => tags_have_id(self@.tags, tag_id as int) && name@ == tag_name_by_id(
                    self@.tags,
                    tag_id as int,
                ),
                None => !tags_have_id(self@.tags, tag_id as int),
            },
    {
        let mut i: usize = 0;
        while i < self.tags.len()
            invariant
                inv(self@),
                i <= self.tags.len(),
                forall|j: int| 0 <= j < i ==> (#[trigger] self@.tags[j]).id != tag_id,
            decreases self.tags.len() - i,
        {
            if self.tags[i].id == tag_id {
                proof {
                    let ts = self@.tags;
                    let ci = crate::model::tag_id_index(ts, tag_id as int);
                    assert(ts[i as int].id == tag_id);
                    if ci < i as int {
                        assert(ts[ci].id < ts[i as int].id);
                    } else if ci > i as int {
                        assert(ts[i as int].id < ts[ci].id);
                    }
                }
                return Some(self.tags[i].name.clone());
            }
            i += 1;
        }
        None
    }

    /// The tag names attached to a bookmark, in association order.
    pub fn get_tags(&self, bookmark_id: i64) -> (r: Vec<String>)
        requires
            inv(self@),
        ensures
            r.deep_view() == tag_names_of(self@, bookmark_id as int),
    {
        let mut out: Vec<String> = Vec::new();
        let mut i: usize = 0;
        while i < self.assoc.len()
            invariant
                inv(self@),
                i <= self.assoc.len(),
                out.deep_view() == tag_names_from(
                    self@.tags,
                    self@.assoc.take(i as int),
                    bookmark_id as int,
                ),
            decreases self.assoc.len() - i,
        {
            proof {
                assert(self@.assoc.take(i + 1).drop_last() =~= self@.assoc.take(i as int));
                assert(self@.assoc.take(i + 1).last() == self@.assoc[i as int]);
            }
            let ghost prev = out.deep_view();
            if self.assoc[i].bookmark_id == bookmark_id {
                match self.find_tag_name(self.assoc[i].tag_id) {
                    Some(name) => {
                        out.push(name);
                        proof {
                            assert(out.deep_view() =~= prev.push(
                                tag_name_by_id(self@.tags, self@.assoc[i as int].tag_id),
                            ));
                        }
                    },
                    None => {},
                }
            }
            i += 1;
        }
        proof {
            assert(self@.assoc.take(self@.assoc.len() as int) =~= self@.assoc);
        }
        out
    }

    /// The bookmark at table position `i`, joined with its tag names.
    fn entry_at(&self, i: usize) -> (b: Bookmark)
        requires
            inv(self@),
            i < self@.bookmarks.len(),
        ensures
            b@ == entry_of(self@, self@.bookmarks[i as int]),
    {
        let tags = self.get_tags(self.bookmarks[i].id);
        let b = Bookmark::new(
            self.bookmarks[i].id,
            self.bookmarks[i].title.clone(),
            self.bookmarks[i].url.clone(),
            tags,
        );
        proof {
            assert(b@ =~= entry_of(self@, self@.bookmarks[i as int]));
        }
        b
    }

    /// Fetches one bookmark with its tag-name list, or `NotFound`.
    pub fn get_bookmark_by_id(&self, id: i64) -> (r: Result<Bookmark, StoreError>)
        requires
            inv(self@),
        ensures
            has_bookmark_id(self@, id as int) ==> (r matches Ok(b) && b@ == entry_of(
                self@,
                bookmark_at(self@, id as int),
            )),
            !has_bookmark_id(self@, id as int) ==> (r matches Err(e) && e == StoreError::NotFound),
    {
        match self.find_bookmark(id) {
            Some(i) => Ok(self.entry_at(i)),
            None => Err(StoreError::NotFound),
        }
    }

    /// All bookmarks with their tags, in ascending id order.
    pub fn get_all_bookmark(&self) -> (r: Vec<Bookmark>)
        requires
            inv(self@),
        ensures
            r@.len() == self@.bookmarks.len(),
            forall|i: int|
                0 <= i < r@.len() ==> (#[trigger] r@[i])@ == entry_of(self@, self@.bookmarks[i]),
            forall|i: int, j: int| 0 <= i < j < r@.len() ==> (#[trigger] r@[i])@.id < (
            #[trigger] r@[j])@.id,
    {
        let mut out: Vec<Bookmark> = Vec::new();
        let mut i: usize = 0;
        while i < self.bookmarks.len()
            invariant
                inv(self@),
                i <= self.bookmarks.len(),
                out@.len() == i,
                forall|j: int|
                    0 <= j < i ==> (#[trigger] out@[j])@ == entry_of(self@, self@.bookmarks[j]),
            decreases self.bookmarks.len() - i,
        {
            out.push(self.entry_at(i));
            i += 1;
        }
        out
    }

    /// The id of the tag row with the given name, if any.
    fn find_tag_id_by_name(&self, name: &String) -> (r: Option<i64>)
        requires
            inv(self@),
        ensures
            match r {
                Some(t) => has_tag_name(self@, name@) && t as int == tag_named(self@, name@).id,
                None => !has_tag_name(self@, name@),
            },
    {
        let mut i: usize = 0;
        while i < self.tags.len()
            invariant
                inv(self@),
                i <= self.tags.len(),
                forall|j: int| 0 <= j < i ==> (#[trigger] self@.tags[j]).name != name@,
            decreases self.tags.len() - i,
        {
            if self.tags[i].name == *name {
                proof {
                    let m = self@;
                    let ci = crate::model::tag_name_index(m, name@);
                    assert(m.tags[i as int].name == name@);
                    if ci != i as int {
                        assert(m.tags[ci].name == m.tags[i as int].name);
                    }
                }
                return Some(self.tags[i].id);
            }
            i += 1;
        }
        None
    }

    /// Upsert of the tag named `tag`, then one association row linking the
    /// bookmark id to the tag's id; a second call with the same name reuses
    /// the tag row and still appends a fresh association row.
    pub fn add_tag(&mut self, id: i64, tag: &str)
        requires
            inv(old(self)@),
            old(self)@.next_tag_id < i64::MAX,
        ensures
            inv(final(self)@),
            final(self)@ == add_tag_t(old(self)@, id as int, tag@),
    {
        let name = String::from_str(tag);
        match self.find_tag_id_by_name(&name) {
            Some(tag_id) => {
                self.add_bookmark_tag(id, tag_id);
                proof {
                    assert(self@ =~= add_tag_t(old(self)@, id as int, tag@));
                }
            },
            None => {
                let tag_id = self.next_tag_id;
                self.tags.push(TagRow { id: tag_id, name });
                self.next_tag_id = tag_id + 1;
                proof {
                    assert(self@.tags =~= old(self)@.tags.push(
                        TagRecord { id: old(self)@.next_tag_id, name: tag@ },
                    ));
                    assert forall|a: int, b: int| 0 <= a < b < self@.tags.len() implies (
                    #[trigger] self@.tags[a]).name != (#[trigger] self@.tags[b]).name && self@.tags[a].id
                        < self@.tags[b].id by {
                        if b == self@.tags.len() - 1 {
                            assert(old(self)@.tags[a].name != tag@);
                            assert(old(self)@.tags[a].id < old(self)@.next_tag_id);
                        }
                    }
                    assert(crate::model::tag_rows_ok(self@.tags, self@.next_tag_id));
                }
                self.add_bookmark_tag(id, tag_id);
                proof {
                    assert(self@ =~= add_tag_t(old(self)@, id as int, tag@));
                }
            },
        }
    }

    /// Appends one association row linking a bookmark id to a tag id.
    pub fn add_bookmark_tag(&mut self, bookmark_id: i64, tag_id: i64)
        ensures
            final(self)@ == add_assoc_t(old(self)@, bookmark_id as int, tag_id as int),
    {
        self.assoc.push(AssocRow { bookmark_id, tag_id });
        proof {
            assert(self@ =~= add_assoc_t(old(self)@, bookmark_id as int, tag_id as int));
        }
    }

    /// Removes every association row of the given bookmark id.
    pub fn delete_bookmark_tag_by_id(&mut self, id: i64)
        ensures
            final(self)@ == (StoreModel {
                assoc: crate::model::assoc_without_bookmark(old(self)@.assoc, id as int),
                ..old(self)@
            }),
    {
        let ghost orig = self@.assoc;
        let mut out: Vec<AssocRow> = Vec::new();
        let mut i: usize = 0;
        while i < self.assoc.len()
            invariant
                i <= self.assoc.len(),
                orig == self@.assoc,
                out@.map_values(|r: AssocRow| r@) == crate::model::assoc_without_bookmark(
                    orig.take(i as int),
                    id as int,
                ),
            decreases self.assoc.len() - i,
        {
            proof {
                assert(orig.take(i + 1).drop_last() =~= orig.take(i as int));
                assert(orig.take(i + 1).last() == orig[i as int]);
            }
            let ghost prev = out@.map_values(|r: AssocRow| r@);
            if self.assoc[i].bookmark_id != id {
                out.push(self.assoc[i]);
                proof {
                    assert(out@.map_values(|r: AssocRow| r@) =~= prev.push(orig[i as int]));
                }
            }
            i += 1;
        }
        proof {
            assert(orig.take(orig.len() as int) =~= orig);
        }
        self.assoc = out;
        proof {
            assert(self@ =~= (StoreModel {
                assoc: crate::model::assoc_without_bookmark(old(self)@.assoc, id as int),
                ..old(self)@
            }));
        }
    }

    /// Removes every association row of the given tag id.
    fn remove_assoc_of_tag(&mut self, tag_id: i64)
        ensures
            final(self)@ == (StoreModel {
                assoc: crate::model::assoc_without_tag(old(self)@.assoc, tag_id as int),
                ..old(self)@
            }),
    {
        let ghost orig = self@.assoc;
        let mut out: Vec<AssocRow> = Vec::new();
        let mut i: usize = 0;
        while i < self.assoc.len()
            invariant
                i <= self.assoc.len(),
                orig == self@.assoc,
                out@.map_values(|r: AssocRow| r@) == crate::model::assoc_without_tag(
                    orig.take(i as int),
                    tag_id as int,
                ),
            decreases self.assoc.len() - i,
        {
            proof {
                assert(orig.take(i + 1).drop_last() =~= orig.take(i as int));
                assert(orig.take(i + 1).last() == orig[i as int]);
            }
            let ghost prev = out@.map_values(|r: AssocRow| r@);
            if self.assoc[i].tag_id != tag_id {
                out.push(self.assoc[i]);
                proof {
                    assert(out@.map_values(|r: AssocRow| r@) =~= prev.push(orig[i as int]));
                }
            }
            i += 1;
        }
        proof {
            assert(orig.take(orig.len() as int) =~= orig);
        }
        self.assoc = out;
        proof {
            assert(self@ =~= (StoreModel {
                assoc: crate::model::assoc_without_tag(old(self)@.assoc, tag_id as int),
                ..old(self)@
            }));
        }
    }

    /// Deletes the bookmark row of the given id, cascading over its
    /// association rows; a missing id deletes nothing.
    pub fn delete_bookmark(&mut self, id: i64)
        requires
            inv(old(self)@),
        ensures
            inv(final(self)@),
            final(self)@ == crate::model::delete_bookmark_t(old(self)@, id as int),
    {
        self.delete_bookmark_tag_by_id(id);
        let ghost orig = self@.bookmarks;
        let mut out: Vec<BookmarkRow> = Vec::new();
        let mut i: usize = 0;
        while i < self.bookmarks.len()
            invariant
                i <= self.bookmarks.len(),
                orig == self@.bookmarks,
                out@.map_values(|r: BookmarkRow| r@) == crate::model::bookmarks_without(
                    orig.take(i as int),
                    id as int,
                ),
            decreases self.bookmarks.len() - i,
        {
            proof {
                assert(orig.take(i + 1).drop_last() =~= orig.take(i as int));
                assert(orig.take(i + 1).last() == orig[i as int]);
            }
            let ghost prev = out@.map_values(|r: BookmarkRow| r@);
            if self.bookmarks[i].id != id {
                out.push(
                    BookmarkRow {
                        id: self.bookmarks[i].id,
                        title: self.bookmarks[i].title.clone(),
                        url: self.bookmarks[i].url.clone(),
                    },
                );
                proof {
                    assert(out@.map_values(|r: BookmarkRow| r@) =~= prev.push(orig[i as int]));
                }
            }
            i += 1;
        }
        proof {
            assert(orig.take(orig.len() as int) =~= orig);
        }
        self.bookmarks = out;
        proof {
            assert(self@ =~= crate::model::delete_bookmark_t(old(self)@, id as int));
            crate::model::lemma_bookmarks_without_ok(
                old(self)@.bookmarks,
                id as int,
                old(self)@.next_bookmark_id,
            );
        }
    }

    /// Deletes the tag row of the given name, cascading over the
    /// association rows of its id; a missing name deletes nothing.
    pub fn delete_tag(&mut self, name: &str)
        requires
            inv(old(self)@),
        ensures
            inv(final(self)@),
            final(self)@ == crate::model::delete_tag_t(old(self)@, name@),
    {
        let name_s = String::from_str(name);
        match self.find_tag_id_by_name(&name_s) {
            None => {},
            Some(tag_id) => {
                self.remove_assoc_of_tag(tag_id);
                let ghost orig = self@.tags;
                let mut out: Vec<TagRow> = Vec::new();
                let mut i: usize = 0;
                while i < self.tags.len()
                    invariant
                        i <= self.tags.len(),
                        orig == self@.tags,
                        name_s@ == name@,
                        out@.map_values(|r: TagRow| r@) == crate::model::tags_without_name(
                            orig.take(i as int),
                            name@,
                        ),
                    decreases self.tags.len() - i,
                {
                    proof {
                        assert(orig.take(i + 1).drop_last() =~= orig.take(i as int));
                        assert(orig.take(i + 1).last() == orig[i as int]);
                    }
                    let ghost prev = out@.map_values(|r: TagRow| r@);
                    if !(self.tags[i].name == name_s) {
                        out.push(
                            TagRow { id: self.tags[i].id, name: self.tags[i].name.clone() },
                        );
                        proof {
                            assert(out@.map_values(|r: TagRow| r@) =~= prev.push(orig[i as int]));
                        }
                    }
                    i += 1;
                }
                proof {
                    assert(orig.take(orig.len() as int) =~= orig);
                }
                self.tags = out;
                proof {
                    assert(self@ =~= crate::model::delete_tag_t(old(self)@, name@));
                    crate::model::lemma_tags_without_ok(
                        old(self)@.tags,
                        name@,
                        old(self)@.next_tag_id,
                    );
                }
            },
        }
    }

    /// In-place replacement of one bookmark's title and url; associations
    /// and tags are untouched, and a missing id changes nothing. When the
    /// id exists, the new url must not collide with any other bookmark's
    /// url.
    pub fn update_bookmark(&mut self, id: i64, title: &String, url: &String)
        requires
            inv(old(self)@),
            has_bookmark_id(old(self)@, id as int) ==> (forall|i: int|
                0 <= i < old(self)@.bookmarks.len() && (#[trigger] old(self)@.bookmarks[i]).id
                    != id ==> old(self)@.bookmarks[i].url != url@),
        ensures
            inv(final(self)@),
            final(self)@ == crate::model::update_bookmark_t(old(self)@, id as int, title@, url@),
    {
        let ghost orig = self@.bookmarks;
        let mut out: Vec<BookmarkRow> = Vec::new();
        let mut i: usize = 0;
        while i < self.bookmarks.len()
            invariant
                i <= self.bookmarks.len(),
                orig == self@.bookmarks,
                out@.len() == i,
                forall|j: int|
                    0 <= j < i ==> out@.map_values(|r: BookmarkRow| r@)[j] == (if orig[j].id
                        == id as int {
                        (BookmarkRecord { id: orig[j].id, title: title@, url: url@ })
                    } else {
                        orig[j]
                    }),
            decreases self.bookmarks.len() - i,
        {
            if self.bookmarks[i].id == id {
                out.push(BookmarkRow { id, title: title.clone(), url: url.clone() });
            } else {
                out.push(
                    BookmarkRow {
                        id: self.bookmarks[i].id,
                        title: self.bookmarks[i].title.clone(),
                        url: self.bookmarks[i].url.clone(),
                    },
                );
            }
            i += 1;
        }
        self.bookmarks = out;
        proof {
            assert(self@ =~= crate::model::update_bookmark_t(old(self)@, id as int, title@, url@));
            let rows = self@.bookmarks;
            assert forall|a: int, b: int| 0 <= a < b < rows.len() implies #[trigger] rows[a].url
                != #[trigger] rows[b].url by {
                if orig[a].id == id as int {
                    assert(has_bookmark_id(old(self)@, id as int)) by {
                        assert(old(self)@.bookmarks[a].id == id as int);
                    }
                    assert(orig[b].id != id as int);
                    assert(orig[b].url != url@);
                } else if orig[b].id == id as int {
                    assert(has_bookmark_id(old(self)@, id as int)) by {
                        assert(old(self)@.bookmarks[b].id == id as int);
                    }
                    assert(orig[a].url != url@);
                }
            }
            assert(bookmark_rows_ok(rows, self@.next_bookmark_id));
        }
    }

    /// Empties one of the three tables; the id counters keep counting.
    pub fn clear(&mut self, table: TableKind)
        ensures
            table == TableKind::Bookmarks ==> final(self)@ == (StoreModel {
                bookmarks: Seq::empty(),
                ..old(self)@
            }),
            table == TableKind::Tags ==> final(self)@ == (StoreModel {
                tags: Seq::empty(),
                ..old(self)@
            }),
            table == TableKind::BookmarkTag ==> final(self)@ == (StoreModel {
                assoc: Seq::empty(),
                ..old(self)@
            }),
            inv(old(self)@) ==> inv(final(self)@),
    {
        match table {
            TableKind::Bookmarks => {
                self.bookmarks = Vec::new();
                proof {
                    assert(self@ =~= (StoreModel { bookmarks: Seq::empty(), ..old(self)@ }));
                }
            },
            TableKind::Tags => {
                self.tags = Vec::new();
                proof {
                    assert(self@ =~= (StoreModel { tags: Seq::empty(), ..old(self)@ }));
                }
            },
            TableKind::BookmarkTag => {
                self.assoc = Vec::new();
                proof {
                    assert(self@ =~= (StoreModel { assoc: Seq::empty(), ..old(self)@ }));
                }
            },
        }
    }

    /// 1 when a bookmark row with the id exists, else 0.
    pub fn check_existence_bookmark(&self, id: i64) -> (r: i64)
        requires
            inv(self@),
        ensures
            r == 1 <==> has_bookmark_id(self@, id as int),
            r == 0 <==> !has_bookmark_id(self@, id as int),
    {
        match self.find_bookmark(id) {
            Some(_) => 1,
            None => 0,
        }
    }

    /// 1 when a tag row with the name exists, else 0.
    pub fn check_existence_tag(&self, name: &str) -> (r: i64)
        requires
            inv(self@),
        ensures
            r == 1 <==> has_tag_name(self@, name@),
            r == 0 <==> !has_tag_name(self@, name@),
    {
        let name_s = String::from_str(name);
        match self.find_tag_id_by_name(&name_s) {
            Some(_) => 1,
            None => 0,
        }
    }

    /// The url of the bookmark with the given id, which must exist.
    pub fn get_url_by_id(&self, id: i64) -> (r: String)
        requires
            inv(self@),
            has_bookmark_id(self@, id as int),
        ensures
            r@ == bookmark_at(self@, id as int).url,
    {
        match self.find_bookmark(id) {
            Some(i) => self.bookmarks[i].url.clone(),
            None => unreached(),
        }
    }

    /// The title of the bookmark with the given id, which must exist.
    pub fn get_title_by_id(&self, id: i64) -> (r: String)
        requires
            inv(self@),
            has_bookmark_id(self@, id as int),
        ensures
            r@ == bookmark_at(self@, id as int).title,
    {
        match self.find_bookmark(id) {
            Some(i) => self.bookmarks[i].title.clone(),
            None => unreached(),
        }
    }

    /// The number of rows in a table, saturating at the largest count the
    /// result type can carry.
    pub fn get_record_count(&self, table: TableKind) -> (r: i64)
        ensures
            table == TableKind::Bookmarks ==> r as int == saturated_count(
                self@.bookmarks.len(),
            ),
            table == TableKind::Tags ==> r as int == saturated_count(self@.tags.len()),
            table == TableKind::BookmarkTag ==> r as int == saturated_count(self@.assoc.len()),
    {
        let n: usize = match table {
            TableKind::Bookmarks => self.bookmarks.len(),
            TableKind::Tags => self.tags.len(),
            TableKind::BookmarkTag => self.assoc.len(),
        };
        if n as u64 <= i64::MAX as u64 {
            n as i64
        } else {
            i64::MAX
        }
    }

    /// The largest bookmark id in the table, which must be non-empty; this
    /// is the id the latest insertion was assigned.
    pub fn get_max_bookmark_id(&self) -> (r: i64)
        requires
            inv(self@),
            self@.bookmarks.len() > 0,
        ensures
            r as int == self@.bookmarks.last().id,
            forall|i: int|
                0 <= i < self@.bookmarks.len() ==> (#[trigger] self@.bookmarks[i]).id <= r as int,
    {
        let r = self.bookmarks[self.bookmarks.len() - 1].id;
        proof {
            assert forall|i: int| 0 <= i < self@.bookmarks.len() implies (
            #[trigger] self@.bookmarks[i]).id <= r as int by {
                if i < self@.bookmarks.len() - 1 {
                    assert(self@.bookmarks[i].id < self@.bookmarks[self@.bookmarks.len() - 1].id);
                }
            }
        }
        r
    }

    /// Searches title-and-url text for the keyword chain: a bookmark is
    /// returned, in table order, when its title followed by its url holds
    /// the keywords in order as substrings.
    pub fn search(&self, keywords: Vec<&str>) -> (r: Vec<Bookmark>)
        requires
            inv(self@),
        ensures
            ({
                let found = crate::model::matching_bookmarks(
                    self@.bookmarks,
                    keywords.deep_view(),
                );
                &&& r@.len() == found.len()
                &&& forall|i: int|
                    0 <= i < r@.len() ==> (#[trigger] r@[i])@ == entry_of(self@, found[i])
            }),
    {
        let kw = keywords_chars(&keywords);
        let mut out: Vec<Bookmark> = Vec::new();
        let mut i: usize = 0;
        while i < self.bookmarks.len()
            invariant
                inv(self@),
                i <= self.bookmarks.len(),
                kw.deep_view() == keywords.deep_view(),
                ({
                    let found = crate::model::matching_bookmarks(
                        self@.bookmarks.take(i as int),
                        keywords.deep_view(),
                    );
                    &&& out@.len() == found.len()
                    &&& forall|j: int|
                        0 <= j < out@.len() ==> (#[trigger] out@[j])@ == entry_of(
                            self@,
                            found[j],
                        )
                }),
            decreases self.bookmarks.len() - i,
        {
            proof {
                assert(self@.bookmarks.take(i + 1).drop_last() =~= self@.bookmarks.take(i as int));
                assert(self@.bookmarks.take(i + 1).last() == self@.bookmarks[i as int]);
            }
            let mut text = crate::text::chars_of(self.bookmarks[i].title.as_str());
            let mut url_chars = crate::text::chars_of(self.bookmarks[i].url.as_str());
            text.append(&mut url_chars);
            proof {
                assert(text@ == self@.bookmarks[i as int].title + self@.bookmarks[i as int].url);
            }
            if crate::chain::matches_chain(&text, &kw) {
                out.push(self.entry_at(i));
            }
            i += 1;
        }
        proof {
            assert(self@.bookmarks.take(self@.bookmarks.len() as int) =~= self@.bookmarks);
        }
        out
    }

    /// Searches tag names for the keyword chain: every association row whose
    /// tag name holds the keywords in order contributes its bookmark, in
    /// association order.
    pub fn search_by_tag(&self, keywords: Vec<&str>) -> (r: Vec<Bookmark>)
        requires
            inv(self@),
        ensures
            ({
                let ids = crate::model::tag_match_ids(
                    self@.bookmarks,
                    self@.tags,
                    self@.assoc,
                    keywords.deep_view(),
                );
                &&& r@.len() == ids.len()
                &&& forall|i: int|
                    0 <= i < r@.len() ==> (#[trigger] r@[i])@ == entry_of(
                        self@,
                        bookmark_at(self@, ids[i]),
                    )
            }),
    {
        let kw = keywords_chars(&keywords);
        let mut out: Vec<Bookmark> = Vec::new();
        let mut i: usize = 0;
        while i < self.assoc.len()
            invariant
                inv(self@),
                i <= self.assoc.len(),
                kw.deep_view() == keywords.deep_view(),
                ({
                    let ids = crate::model::tag_match_ids(
                        self@.bookmarks,
                        self@.tags,
                        self@.assoc.take(i as int),
                        keywords.deep_view(),
                    );
                    &&& out@.len() == ids.len()
                    &&& forall|j: int|
                        0 <= j < out@.len() ==> (#[trigger] out@[j])@ == entry_of(
                            self@,
                            bookmark_at(self@, ids[j]),
                        )
                }),
            decreases self.assoc.len() - i,
        {
            proof {
                assert(self@.assoc.take(i + 1).drop_last() =~= self@.assoc.take(i as int));
                assert(self@.assoc.take(i + 1).last() == self@.assoc[i as int]);
            }
            match self.find_tag_name(self.assoc[i].tag_id) {
                None => {},
                Some(name) => {
                    let name_chars = crate::text::chars_of(name.as_str());
                    if crate::chain::matches_chain(&name_chars, &kw) {
                        match self.find_bookmark(self.assoc[i].bookmark_id) {
                            None => {},
                            Some(bi) => {
                                out.push(self.entry_at(bi));
                            },
                        }
                    }
                },
            }
            i += 1;
        }
        proof {
            assert(self@.assoc.take(self@.assoc.len() as int) =~= self@.assoc);
        }
        out
    }

    /// Rebuilds one bookmark row from durable storage, under its stored id.
    /// Rows must arrive in ascending id order; a row whose id is out of
    /// order or too large, or whose url is already present, is refused.
    pub fn load_bookmark(&mut self, id: i64, title: &String, url: &String) -> (r: bool)
        requires
            inv(old(self)@),
        ensures
            inv(final(self)@),
            r == (old(self)@.next_bookmark_id <= id < i64::MAX && !has_url(old(self)@, url@)),
            r ==> final(self)@ == (StoreModel {
                bookmarks: old(self)@.bookmarks.push(
                    BookmarkRecord { id: id as int, title: title@, url: url@ },
                ),
                next_bookmark_id: id + 1,
                ..old(self)@
            }),
            !r ==> final(self)@ == old(self)@,
    {
        if id < self.next_bookmark_id || id == i64::MAX || self.url_exists(url) {
            return false;
        }
        self.bookmarks.push(BookmarkRow { id, title: title.clone(), url: url.clone() });
        self.next_bookmark_id = id + 1;
        proof {
            assert(self@ =~= (StoreModel {
                bookmarks: old(self)@.bookmarks.push(
                    BookmarkRecord { id: id as int, title: title@, url: url@ },
                ),
                next_bookmark_id: id + 1,
                ..old(self)@
            }));
            assert forall|i: int, j: int| 0 <= i < j < self@.bookmarks.len() implies (
            #[trigger] self@.bookmarks[i]).url != (#[trigger] self@.bookmarks[j]).url && self@.bookmarks[i].id
                < self@.bookmarks[j].id by {
                if j == self@.bookmarks.len() - 1 {
                    assert(old(self)@.bookmarks[i].url != url@);
                    assert(old(self)@.bookmarks[i].id < old(self)@.next_bookmark_id);
                }
            }
            assert(bookmark_rows_ok(self@.bookmarks, self@.next_bookmark_id));
        }
        true
    }

    /// Rebuilds one tag row from durable storage, under its stored id; the
    /// same discipline as `load_bookmark`, with the name unique instead.
    pub fn load_tag(&mut self, id: i64, name: &str) -> (r: bool)
        requires
            inv(old(self)@),
        ensures
            inv(final(self)@),
            r == (old(self)@.next_tag_id <= id < i64::MAX && !has_tag_name(old(self)@, name@)),
            r ==> final(self)@ == (StoreModel {
                tags: old(self)@.tags.push(TagRecord { id: id as int, name: name@ }),
                next_tag_id: id + 1,
                ..old(self)@
            }),
            !r ==> final(self)@ == old(self)@,
    {
        let name_s = String::from_str(name);
        if id < self.next_tag_id || id == i64::MAX {
            return false;
        }
        match self.find_tag_id_by_name(&name_s) {
            Some(_) => false,
            None => {
                self.tags.push(TagRow { id, name: name_s });
                self.next_tag_id = id + 1;
                proof {
                    assert(self@ =~= (StoreModel {
                        tags: old(self)@.tags.push(TagRecord { id: id as int, name: name@ }),
                        next_tag_id: id + 1,
                        ..old(self)@
                    }));
                    assert forall|i: int, j: int| 0 <= i < j < self@.tags.len() implies (
                    #[trigger] self@.tags[i]).name != (#[trigger] self@.tags[j]).name
                        && self@.tags[i].id < self@.tags[j].id by {
                        if j == self@.tags.len() - 1 {
                            assert(old(self)@.tags[i].name != name@);
                            assert(old(self)@.tags[i].id < old(self)@.next_tag_id);
                        }
                    }
                    assert(crate::model::tag_rows_ok(self@.tags, self@.next_tag_id));
                }
                true
            },
        }
    }

    /// The tag table as id and name pairs, for durable storage.
    pub fn tag_rows(&self) -> (r: Vec<(i64, String)>)
        ensures
            r@.len() == self@.tags.len(),
            forall|i: int|
                0 <= i < r@.len() ==> (#[trigger] r@[i]).0 as int == self@.tags[i].id && r@[i].1@
                    == self@.tags[i].name,
    {
        let mut out: Vec<(i64, String)> = Vec::new();
        let mut i: usize = 0;
        while i < self.tags.len()
            invariant
                i <= self.tags.len(),
                out@.len() == i,
                forall|j: int|
                    0 <= j < i ==> (#[trigger] out@[j]).0 as int == self@.tags[j].id && out@[j].1@
                        == self@.tags[j].name,
            decreases self.tags.len() - i,
        {
            out.push((self.tags[i].id, self.tags[i].name.clone()));
            i += 1;
        }
        out
    }

    /// The association table as bookmark-id and tag-id pairs, for durable
    /// storage.
    pub fn assoc_rows(&self) -> (r: Vec<(i64, i64)>)
        ensures
            r@.len() == self@.assoc.len(),
            forall|i: int|
                0 <= i < r@.len() ==> (#[trigger] r@[i]).0 as int == self@.assoc[i].bookmark_id
                    && r@[i].1 as int == self@.assoc[i].tag_id,
    {
        let mut out: Vec<(i64, i64)> = Vec::new();
        let mut i: usize = 0;
        while i < self.assoc.len()
            invariant
                i <= self.assoc.len(),
                out@.len() == i,
                forall|j: int|
                    0 <= j < i ==> (#[trigger] out@[j]).0 as int == self@.assoc[j].bookmark_id
                        && out@[j].1 as int == self@.assoc[j].tag_id,
            decreases self.assoc.len() - i,
        {
            out.push((self.assoc[i].bookmark_id, self.assoc[i].tag_id));
            i += 1;
        }
        out
    }

    /// How much headroom the id counters have: whether one more bookmark
    /// and the given number of tags can still be assigned ids.
    pub fn can_assign_ids(&self, new_tags: i64) -> (r: bool)
        requires
            inv(self@),
            new_tags >= 0,
        ensures
            r == (self@.next_bookmark_id < i64::MAX && self@.next_tag_id + new_tags
                <= i64::MAX),
    {
        self.next_bookmark_id < i64::MAX && i64::MAX - self.next_tag_id >= new_tags
    }

    /// All tag names, in table order.
    pub fn get_all_tag(&self) -> (r: Vec<String>)
        ensures
            r@.len() == self@.tags.len(),
            forall|i: int| 0 <= i < r@.len() ==> (#[trigger] r@[i])@ == self@.tags[i].name,
    {
        let mut out: Vec<String> = Vec::new();
        let mut i: usize = 0;
        while i < self.tags.len()
            invariant
                i <= self.tags.len(),
                out@.len() == i,
                forall|j: int| 0 <= j < i ==> (#[trigger] out@[j])@ == self@.tags[j].name,
            decreases self.tags.len() - i,
        {
            out.push(self.tags[i].name.clone());
            i += 1;
        }
        out
    }
}

} // verus!
