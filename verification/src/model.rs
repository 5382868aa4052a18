//! The mathematical model of the store: three tables — bookmarks, tags and
//! their association rows — plus the two id counters, together with the
//! transitions that the store's operations perform on them.

use vstd::prelude::*;
use crate::chain;

verus! {

/// One row of the bookmark table.
#[verifier::ext_equal]
pub struct BookmarkRecord {
    pub id: int,
    pub title: Seq<char>,
    pub url: Seq<char>,
}

/// One row of the tag table.
#[verifier::ext_equal]
pub struct TagRecord {
    pub id: int,
    pub name: Seq<char>,
}

/// One row of the association table: a bookmark-to-tag link.
#[verifier::ext_equal]
pub struct AssocRecord {
    pub bookmark_id: int,
    pub tag_id: int,
}

/// The full state of the store.
#[verifier::ext_equal]
pub struct StoreModel {
    pub bookmarks: Seq<BookmarkRecord>,
    pub tags: Seq<TagRecord>,
    pub assoc: Seq<AssocRecord>,
    pub next_bookmark_id: int,
    pub next_tag_id: int,
}

/// Bookmark rows are sorted by strictly ascending id, ids lie below the next
/// free id, and urls are pairwise distinct.
pub open spec fn bookmark_rows_ok(rows: Seq<BookmarkRecord>, next: int) -> bool {
    &&& forall|i: int, j: int|
        0 <= i < j < rows.len() ==> #[trigger] rows[i].id < #[trigger] rows[j].id
    &&& forall|i: int| 0 <= i < rows.len() ==> 1 <= (#[trigger] rows[i]).id < next
    &&& forall|i: int, j: int|
        0 <= i < j < rows.len() ==> #[trigger] rows[i].url != #[trigger] rows[j].url
}

/// Tag rows are sorted by strictly ascending id, ids lie below the next free
/// id, and names are pairwise distinct.
pub open spec fn tag_rows_ok(rows: Seq<TagRecord>, next: int) -> bool {
    &&& forall|i: int, j: int|
        0 <= i < j < rows.len() ==> #[trigger] rows[i].id < #[trigger] rows[j].id
    &&& forall|i: int| 0 <= i < rows.len() ==> 1 <= (#[trigger] rows[i]).id < next
    &&& forall|i: int, j: int|
        0 <= i < j < rows.len() ==> #[trigger] rows[i].name != #[trigger] rows[j].name
}

/// The store's invariant: each table well formed, counters at least one.
/// Association rows are deliberately unconstrained: the store does not
/// enforce ongoing foreign-key consistency — deletes cascade explicitly.
pub open spec fn inv(m: StoreModel) -> bool {
    &&& 1 <= m.next_bookmark_id
    &&& 1 <= m.next_tag_id
    &&& bookmark_rows_ok(m.bookmarks, m.next_bookmark_id)
    &&& tag_rows_ok(m.tags, m.next_tag_id)
}

/// A row count as reported through a signed 64-bit result: exact until it
/// would no longer fit.
pub open spec fn saturated_count(n: nat) -> int {
    if n <= i64::MAX {
        n as int
    } else {
        i64::MAX as int
    }
}

/// The empty store, as first opened.
pub open spec fn empty_model() -> StoreModel {
    StoreModel {
        bookmarks: Seq::empty(),
        tags: Seq::empty(),
        assoc: Seq::empty(),
        next_bookmark_id: 1,
        next_tag_id: 1,
    }
}

// ---------------------------------------------------------------------------
// Lookups

pub open spec fn has_bookmark_id(m: StoreModel, id: int) -> bool {
    exists|i: int| 0 <= i < m.bookmarks.len() && (#[trigger] m.bookmarks[i]).id == id
}

pub open spec fn bookmark_index(m: StoreModel, id: int) -> int {
    choose|i: int| 0 <= i < m.bookmarks.len() && (#[trigger] m.bookmarks[i]).id == id
}

/// The bookmark row with the given id (meaningful only under `has_bookmark_id`).
pub open spec fn bookmark_at(m: StoreModel, id: int) -> BookmarkRecord {
    m.bookmarks[bookmark_index(m, id)]
}

pub open spec fn has_url(m: StoreModel, url: Seq<char>) -> bool {
    exists|i: int| 0 <= i < m.bookmarks.len() && (#[trigger] m.bookmarks[i]).url == url
}

pub open spec fn has_tag_name(m: StoreModel, name: Seq<char>) -> bool {
    exists|i: int| 0 <= i < m.tags.len() && (#[trigger] m.tags[i]).name == name
}

pub open spec fn tag_name_index(m: StoreModel, name: Seq<char>) -> int {
    choose|i: int| 0 <= i < m.tags.len() && (#[trigger] m.tags[i]).name == name
}

/// The tag row with the given name (meaningful only under `has_tag_name`).
pub open spec fn tag_named(m: StoreModel, name: Seq<char>) -> TagRecord {
    m.tags[tag_name_index(m, name)]
}

pub open spec fn tags_have_id(tags: Seq<TagRecord>, id: int) -> bool {
    exists|i: int| 0 <= i < tags.len() && (#[trigger] tags[i]).id == id
}

pub open spec fn tag_id_index(tags: Seq<TagRecord>, id: int) -> int {
    choose|i: int| 0 <= i < tags.len() && (#[trigger] tags[i]).id == id
}

/// The name of the tag with the given id (meaningful only under `tags_have_id`).
pub open spec fn tag_name_by_id(tags: Seq<TagRecord>, id: int) -> Seq<char> {
    tags[tag_id_index(tags, id)].name
}

/// The tag names attached to bookmark `id`, in association order: each
/// association row for the bookmark contributes the name of its tag, rows
/// whose tag no longer exists contribute nothing.
pub open spec fn tag_names_from(
    tags: Seq<TagRecord>,
    assoc: Seq<AssocRecord>,
    id: int,
) -> Seq<Seq<char>>
    decreases assoc.len(),
{
    if assoc.len() == 0 {
        Seq::empty()
    } else {
        let rest = tag_names_from(tags, assoc.drop_last(), id);
        let a = assoc.last();
        if a.bookmark_id == id && tags_have_id(tags, a.tag_id) {
            rest.push(tag_name_by_id(tags, a.tag_id))
        } else {
            rest
        }
    }
}

pub open spec fn tag_names_of(m: StoreModel, id: int) -> Seq<Seq<char>> {
    tag_names_from(m.tags, m.assoc, id)
}

/// A bookmark row joined with its tag names: what the queries hand out.
pub open spec fn entry_of(m: StoreModel, b: BookmarkRecord) -> crate::bookmark::BookmarkView {
    crate::bookmark::BookmarkView {
        id: b.id,
        title: b.title,
        url: b.url,
        tags: tag_names_of(m, b.id),
    }
}

// ---------------------------------------------------------------------------
// Transitions

/// Appending a fresh bookmark row with the next free id.
pub open spec fn add_bookmark_t(m: StoreModel, title: Seq<char>, url: Seq<char>) -> StoreModel {
    StoreModel {
        bookmarks: m.bookmarks.push(
            BookmarkRecord { id: m.next_bookmark_id, title: title, url: url },
        ),
        next_bookmark_id: m.next_bookmark_id + 1,
        ..m
    }
}

/// Appending one association row.
pub open spec fn add_assoc_t(m: StoreModel, bookmark_id: int, tag_id: int) -> StoreModel {
    StoreModel {
        assoc: m.assoc.push(AssocRecord { bookmark_id: bookmark_id, tag_id: tag_id }),
        ..m
    }
}

/// Upsert of the tag named `name`, then one association row linking
/// `bookmark_id` to the tag's id. A tag row is created only when no tag of
/// that name exists yet; the association row is appended in either case.
pub open spec fn add_tag_t(m: StoreModel, bookmark_id: int, name: Seq<char>) -> StoreModel {
    if has_tag_name(m, name) {
        add_assoc_t(m, bookmark_id, tag_named(m, name).id)
    } else {
        let grown = StoreModel {
            tags: m.tags.push(TagRecord { id: m.next_tag_id, name: name }),
            next_tag_id: m.next_tag_id + 1,
            ..m
        };
        add_assoc_t(grown, bookmark_id, m.next_tag_id)
    }
}

/// The bookmark rows with the row of id `id` removed, order kept.
pub open spec fn bookmarks_without(rows: Seq<BookmarkRecord>, id: int) -> Seq<BookmarkRecord>
    decreases rows.len(),
{
    if rows.len() == 0 {
        Seq::empty()
    } else {
        let rest = bookmarks_without(rows.drop_last(), id);
        if rows.last().id == id {
            rest
        } else {
            rest.push(rows.last())
        }
    }
}

/// The association rows with every row of bookmark `id` removed, order kept.
pub open spec fn assoc_without_bookmark(assoc: Seq<AssocRecord>, id: int) -> Seq<AssocRecord>
    decreases assoc.len(),
{
    if assoc.len() == 0 {
        Seq::empty()
    } else {
        let rest = assoc_without_bookmark(assoc.drop_last(), id);
        if assoc.last().bookmark_id == id {
            rest
        } else {
            rest.push(assoc.last())
        }
    }
}

/// The association rows with every row of tag `tag_id` removed, order kept.
pub open spec fn assoc_without_tag(assoc: Seq<AssocRecord>, tag_id: int) -> Seq<AssocRecord>
    decreases assoc.len(),
{
    if assoc.len() == 0 {
        Seq::empty()
    } else {
        let rest = assoc_without_tag(assoc.drop_last(), tag_id);
        if assoc.last().tag_id == tag_id {
            rest
        } else {
            rest.push(assoc.last())
        }
    }
}

/// The tag rows with the row named `name` removed, order kept.
pub open spec fn tags_without_name(rows: Seq<TagRecord>, name: Seq<char>) -> Seq<TagRecord>
    decreases rows.len(),
{
    if rows.len() == 0 {
        Seq::empty()
    } else {
        let rest = tags_without_name(rows.drop_last(), name);
        if rows.last().name == name {
            rest
        } else {
            rest.push(rows.last())
        }
    }
}

/// Deleting a bookmark cascades over its association rows.
pub open spec fn delete_bookmark_t(m: StoreModel, id: int) -> StoreModel {
    StoreModel {
        bookmarks: bookmarks_without(m.bookmarks, id),
        assoc: assoc_without_bookmark(m.assoc, id),
        ..m
    }
}

/// Deleting a tag by name cascades over the association rows of its id.
pub open spec fn delete_tag_t(m: StoreModel, name: Seq<char>) -> StoreModel {
    if has_tag_name(m, name) {
        StoreModel {
            tags: tags_without_name(m.tags, name),
            assoc: assoc_without_tag(m.assoc, tag_named(m, name).id),
            ..m
        }
    } else {
        m
    }
}

/// The bookmark rows with the fields of row `id` replaced in place.
pub open spec fn rows_updated(
    rows: Seq<BookmarkRecord>,
    id: int,
    title: Seq<char>,
    url: Seq<char>,
) -> Seq<BookmarkRecord> {
    rows.map_values(
        |b: BookmarkRecord|
            if b.id == id {
                BookmarkRecord { id: b.id, title: title, url: url }
            } else {
                b
            },
    )
}

/// In-place field replacement of one bookmark; tags and associations are
/// deliberately untouched.
pub open spec fn update_bookmark_t(
    m: StoreModel,
    id: int,
    title: Seq<char>,
    url: Seq<char>,
) -> StoreModel {
    StoreModel { bookmarks: rows_updated(m.bookmarks, id, title, url), ..m }
}

// ---------------------------------------------------------------------------
// Facts about the removal transitions

/// Removing a bookmark row keeps the table well formed, removes every row of
/// the given id and nothing else, and keeps all other rows.
pub proof fn lemma_bookmarks_without_ok(rows: Seq<BookmarkRecord>, id: int, next: int)
    requires
        bookmark_rows_ok(rows, next),
    ensures
        bookmark_rows_ok(bookmarks_without(rows, id), next),
        forall|j: int|
            0 <= j < bookmarks_without(rows, id).len() ==> (#[trigger] bookmarks_without(
                rows,
                id,
            )[j]).id != id,
        forall|j: int|
            0 <= j < bookmarks_without(rows, id).len() ==> rows.contains(
                #[trigger] bookmarks_without(rows, id)[j],
            ),
        forall|x: BookmarkRecord| rows.contains(x) && x.id != id ==> bookmarks_without(
            rows,
            id,
        ).contains(x),
    decreases rows.len(),
{
    let r = bookmarks_without(rows, id);
    if rows.len() > 0 {
        let prefix = rows.drop_last();
        assert(bookmark_rows_ok(prefix, next)) by {
            assert(forall|i: int| 0 <= i < prefix.len() ==> prefix[i] == rows[i]);
        }
        lemma_bookmarks_without_ok(prefix, id, next);
        let rp = bookmarks_without(prefix, id);
        assert forall|j: int| 0 <= j < r.len() implies rows.contains(#[trigger] r[j]) by {
            if j < rp.len() {
                let x = rp[j];
                assert(prefix.contains(x));
                let k = choose|k: int| 0 <= k < prefix.len() && prefix[k] == x;
                assert(rows[k] == x);
            } else {
                assert(r[j] == rows[rows.len() - 1]);
            }
        }
        if rows.last().id != id {
            assert forall|i: int, j: int| 0 <= i < j < r.len() implies #[trigger] r[i].id
                < #[trigger] r[j].id by {
                if j == r.len() - 1 {
                    let x = rp[i];
                    assert(prefix.contains(x));
                    let k = choose|k: int| 0 <= k < prefix.len() && prefix[k] == x;
                    assert(rows[k].id < rows[rows.len() - 1].id);
                }
            }
            assert forall|i: int, j: int| 0 <= i < j < r.len() implies #[trigger] r[i].url
                != #[trigger] r[j].url by {
                if j == r.len() - 1 {
                    let x = rp[i];
                    assert(prefix.contains(x));
                    let k = choose|k: int| 0 <= k < prefix.len() && prefix[k] == x;
                    assert(rows[k].url != rows[rows.len() - 1].url);
                }
            }
        }
        assert forall|x: BookmarkRecord| rows.contains(x) && x.id != id implies r.contains(x) by {
            let k = choose|k: int| 0 <= k < rows.len() && rows[k] == x;
            if k < rows.len() - 1 {
                assert(prefix[k] == x);
                assert(prefix.contains(x));
                assert(rp.contains(x));
                let t = choose|t: int| 0 <= t < rp.len() && rp[t] == x;
                assert(r[t] == x);
            } else {
                assert(rows.last() == x);
                assert(r[r.len() - 1] == x);
            }
        }
    }
}

/// Removing a tag row by name keeps the table well formed, removes every row
/// of the given name and nothing else, and keeps all other rows.
pub proof fn lemma_tags_without_ok(rows: Seq<TagRecord>, name: Seq<char>, next: int)
    requires
        tag_rows_ok(rows, next),
    ensures
        tag_rows_ok(tags_without_name(rows, name), next),
        forall|j: int|
            0 <= j < tags_without_name(rows, name).len() ==> (#[trigger] tags_without_name(
                rows,
                name,
            )[j]).name != name,
        forall|j: int|
            0 <= j < tags_without_name(rows, name).len() ==> rows.contains(
                #[trigger] tags_without_name(rows, name)[j],
            ),
        forall|x: TagRecord| rows.contains(x) && x.name != name ==> tags_without_name(
            rows,
            name,
        ).contains(x),
    decreases rows.len(),
{
    let r = tags_without_name(rows, name);
    if rows.len() > 0 {
        let prefix = rows.drop_last();
        assert(tag_rows_ok(prefix, next)) by {
            assert(forall|i: int| 0 <= i < prefix.len() ==> prefix[i] == rows[i]);
        }
        lemma_tags_without_ok(prefix, name, next);
        let rp = tags_without_name(prefix, name);
        assert forall|j: int| 0 <= j < r.len() implies rows.contains(#[trigger] r[j]) by {
            if j < rp.len() {
                let x = rp[j];
                assert(prefix.contains(x));
                let k = choose|k: int| 0 <= k < prefix.len() && prefix[k] == x;
                assert(rows[k] == x);
            } else {
                assert(r[j] == rows[rows.len() - 1]);
            }
        }
        if rows.last().name != name {
            assert forall|i: int, j: int| 0 <= i < j < r.len() implies #[trigger] r[i].id
                < #[trigger] r[j].id by {
                if j == r.len() - 1 {
                    let x = rp[i];
                    assert(prefix.contains(x));
                    let k = choose|k: int| 0 <= k < prefix.len() && prefix[k] == x;
                    assert(rows[k].id < rows[rows.len() - 1].id);
                }
            }
            assert forall|i: int, j: int| 0 <= i < j < r.len() implies #[trigger] r[i].name
                != #[trigger] r[j].name by {
                if j == r.len() - 1 {
                    let x = rp[i];
                    assert(prefix.contains(x));
                    let k = choose|k: int| 0 <= k < prefix.len() && prefix[k] == x;
                    assert(rows[k].name != rows[rows.len() - 1].name);
                }
            }
        }
        assert forall|x: TagRecord| rows.contains(x) && x.name != name implies r.contains(x) by {
            let k = choose|k: int| 0 <= k < rows.len() && rows[k] == x;
            if k < rows.len() - 1 {
                assert(prefix[k] == x);
                assert(prefix.contains(x));
                assert(rp.contains(x));
                let t = choose|t: int| 0 <= t < rp.len() && rp[t] == x;
                assert(r[t] == x);
            } else {
                assert(rows.last() == x);
                assert(r[r.len() - 1] == x);
            }
        }
    }
}

/// After the cascade no association row of the removed bookmark remains,
/// and every other row survives in order.
pub proof fn lemma_assoc_without_bookmark_ids(assoc: Seq<AssocRecord>, id: int)
    ensures
        forall|j: int|
            0 <= j < assoc_without_bookmark(assoc, id).len() ==> (
            #[trigger] assoc_without_bookmark(assoc, id)[j]).bookmark_id != id,
        forall|j: int|
            0 <= j < assoc_without_bookmark(assoc, id).len() ==> assoc.contains(
                #[trigger] assoc_without_bookmark(assoc, id)[j],
            ),
    decreases assoc.len(),
{
    let r = assoc_without_bookmark(assoc, id);
    if assoc.len() > 0 {
        let prefix = assoc.drop_last();
        lemma_assoc_without_bookmark_ids(prefix, id);
        let rp = assoc_without_bookmark(prefix, id);
        assert forall|j: int| 0 <= j < r.len() implies assoc.contains(#[trigger] r[j]) by {
            if j < rp.len() {
                let x = rp[j];
                assert(prefix.contains(x));
                let k = choose|k: int| 0 <= k < prefix.len() && prefix[k] == x;
                assert(assoc[k] == x);
            } else {
                assert(r[j] == assoc[assoc.len() - 1]);
            }
        }
    }
}

/// After the cascade no association row of the removed tag remains, and
/// every other row survives in order.
pub proof fn lemma_assoc_without_tag_ids(assoc: Seq<AssocRecord>, tag_id: int)
    ensures
        forall|j: int|
            0 <= j < assoc_without_tag(assoc, tag_id).len() ==> (#[trigger] assoc_without_tag(
                assoc,
                tag_id,
            )[j]).tag_id != tag_id,
        forall|j: int|
            0 <= j < assoc_without_tag(assoc, tag_id).len() ==> assoc.contains(
                #[trigger] assoc_without_tag(assoc, tag_id)[j],
            ),
    decreases assoc.len(),
{
    let r = assoc_without_tag(assoc, tag_id);
    if assoc.len() > 0 {
        let prefix = assoc.drop_last();
        lemma_assoc_without_tag_ids(prefix, tag_id);
        let rp = assoc_without_tag(prefix, tag_id);
        assert forall|j: int| 0 <= j < r.len() implies assoc.contains(#[trigger] r[j]) by {
            if j < rp.len() {
                let x = rp[j];
                assert(prefix.contains(x));
                let k = choose|k: int| 0 <= k < prefix.len() && prefix[k] == x;
                assert(assoc[k] == x);
            } else {
                assert(r[j] == assoc[assoc.len() - 1]);
            }
        }
    }
}

// ---------------------------------------------------------------------------
// Search results

/// The bookmark rows, in table order, whose title followed by url matches
/// the keyword chain.
pub open spec fn matching_bookmarks(
    rows: Seq<BookmarkRecord>,
    kws: Seq<Seq<char>>,
) -> Seq<BookmarkRecord>
    decreases rows.len(),
{
    if rows.len() == 0 {
        Seq::empty()
    } else {
        let rest = matching_bookmarks(rows.drop_last(), kws);
        if chain::chain_matches(rows.last().title + rows.last().url, kws) {
            rest.push(rows.last())
        } else {
            rest
        }
    }
}

/// The bookmark ids reached by the tag search: one per association row, in
/// association order, whose tag exists, whose tag name matches the keyword
/// chain, and whose bookmark exists. The same id appears once per such row.
pub open spec fn tag_match_ids(
    bookmarks: Seq<BookmarkRecord>,
    tags: Seq<TagRecord>,
    assoc: Seq<AssocRecord>,
    kws: Seq<Seq<char>>,
) -> Seq<int>
    decreases assoc.len(),
{
    if assoc.len() == 0 {
        Seq::empty()
    } else {
        let rest = tag_match_ids(bookmarks, tags, assoc.drop_last(), kws);
        let a = assoc.last();
        if tags_have_id(tags, a.tag_id) && chain::chain_matches(tag_name_by_id(tags, a.tag_id), kws)
            && (exists|i: int|
            0 <= i < bookmarks.len() && (#[trigger] bookmarks[i]).id == a.bookmark_id) {
            rest.push(a.bookmark_id)
        } else {
            rest
        }
    }
}

} // verus!
