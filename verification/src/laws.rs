//! Laws that relate several store operations. Each is stated over the model
//! transitions of `crate::model`, which the store's contracts tie to the
//! executable operations.

use vstd::prelude::*;
use crate::chain::chain_matches;
use crate::model::{
    add_bookmark_t, add_tag_t, bookmark_at, bookmark_index, delete_bookmark_t, has_bookmark_id,
    has_tag_name, has_url, inv, lemma_assoc_without_bookmark_ids, lemma_bookmarks_without_ok,
    matching_bookmarks, tag_match_ids, tag_name_by_id, tag_named, tags_have_id, AssocRecord,
    BookmarkRecord, StoreModel, TagRecord,
};

verus! {

/// Adding a bookmark to a store that does not hold its url, then looking up
/// the id the insertion was assigned, finds a row with exactly the given
/// title and url.
pub proof fn lemma_add_bookmark_then_get(m: StoreModel, title: Seq<char>, url: Seq<char>)
    requires
        inv(m),
        !has_url(m, url),
    ensures
        ({
            let m2 = add_bookmark_t(m, title, url);
            let id = m.next_bookmark_id;
            &&& has_bookmark_id(m2, id)
            &&& bookmark_at(m2, id).title == title
            &&& bookmark_at(m2, id).url == url
            &&& inv(m2)
        }),
{
    let m2 = add_bookmark_t(m, title, url);
    let id = m.next_bookmark_id;
    let n = m.bookmarks.len() as int;
    assert(m2.bookmarks[n].id == id);
    let ci = bookmark_index(m2, id);
    if ci != n {
        assert(m.bookmarks[ci] == m2.bookmarks[ci]);
        assert(m.bookmarks[ci].id < m.next_bookmark_id);
    }
    assert forall|i: int, j: int| 0 <= i < j < m2.bookmarks.len() implies (
    #[trigger] m2.bookmarks[i]).url != (#[trigger] m2.bookmarks[j]).url by {
        if j == n {
            assert(m.bookmarks[i].url != url);
        }
    }
}

/// Deleting a bookmark removes its row — a later lookup of the id finds
/// nothing — and leaves no association row referencing the id.
pub proof fn lemma_delete_bookmark_then_get(m: StoreModel, id: int)
    requires
        inv(m),
    ensures
        ({
            let m2 = delete_bookmark_t(m, id);
            &&& !has_bookmark_id(m2, id)
            &&& forall|j: int|
                0 <= j < m2.assoc.len() ==> (#[trigger] m2.assoc[j]).bookmark_id != id
            &&& inv(m2)
        }),
{
    lemma_bookmarks_without_ok(m.bookmarks, id, m.next_bookmark_id);
    lemma_assoc_without_bookmark_ids(m.assoc, id);
}

/// Attaching a tag of one name twice — to any two bookmarks — creates the
/// tag row at most once: the second call adds no tag row, both association
/// rows carry the same tag id, and at most one tag row of that name exists
/// afterwards. Each call still appends its own association row.
pub proof fn lemma_add_tag_twice_reuses_id(m: StoreModel, id1: int, id2: int, name: Seq<char>)
    requires
        inv(m),
    ensures
        ({
            let m1 = add_tag_t(m, id1, name);
            let m2 = add_tag_t(m1, id2, name);
            let t = tag_named(m1, name).id;
            &&& has_tag_name(m1, name)
            &&& m2.tags == m1.tags
            &&& m1.assoc == m.assoc.push(AssocRecord { bookmark_id: id1, tag_id: t })
            &&& m2.assoc == m1.assoc.push(AssocRecord { bookmark_id: id2, tag_id: t })
            &&& forall|i: int, j: int|
                0 <= i < m2.tags.len() && 0 <= j < m2.tags.len() && (
                #[trigger] m2.tags[i]).name == name && (#[trigger] m2.tags[j]).name == name ==> i
                    == j
        }),
{
    let m1 = add_tag_t(m, id1, name);
    let m2 = add_tag_t(m1, id2, name);
    let n = m.tags.len() as int;
    if has_tag_name(m, name) {
        assert(m1.tags == m.tags);
        assert(tag_named(m1, name) == tag_named(m, name));
    } else {
        assert(m1.tags[n].name == name);
        assert(has_tag_name(m1, name));
        let ci = crate::model::tag_name_index(m1, name);
        if ci != n {
            assert(m.tags[ci] == m1.tags[ci]);
            assert(m.tags[ci].name != name);
        }
        assert(tag_named(m1, name).id == m.next_tag_id);
    }
    assert forall|i: int, j: int|
        0 <= i < m2.tags.len() && 0 <= j < m2.tags.len() && (#[trigger] m2.tags[i]).name == name
            && (#[trigger] m2.tags[j]).name == name implies i == j by {
        if has_tag_name(m, name) {
            if i != j {
                if i < j {
                    assert(m.tags[i].name != m.tags[j].name);
                } else {
                    assert(m.tags[j].name != m.tags[i].name);
                }
            }
        } else {
            if i < n {
                assert(m.tags[i].name != name);
            }
            if j < n {
                assert(m.tags[j].name != name);
            }
        }
    }
}

/// Updating a bookmark in place, then looking it up, finds the new title
/// and url under the old id — and the tag names attached to it are exactly
/// what they were before.
pub proof fn lemma_update_then_get(m: StoreModel, id: int, title: Seq<char>, url: Seq<char>)
    requires
        inv(m),
        has_bookmark_id(m, id),
        forall|i: int|
            0 <= i < m.bookmarks.len() && (#[trigger] m.bookmarks[i]).id != id
                ==> m.bookmarks[i].url != url,
    ensures
        ({
            let m2 = crate::model::update_bookmark_t(m, id, title, url);
            &&& has_bookmark_id(m2, id)
            &&& bookmark_at(m2, id).title == title
            &&& bookmark_at(m2, id).url == url
            &&& crate::model::tag_names_of(m2, id) == crate::model::tag_names_of(m, id)
        }),
{
    let m2 = crate::model::update_bookmark_t(m, id, title, url);
    let k = bookmark_index(m, id);
    assert(m2.bookmarks[k].id == id);
    let ci = bookmark_index(m2, id);
    if ci != k {
        assert(m.bookmarks[ci].id == m2.bookmarks[ci].id);
        if ci < k {
            assert(m.bookmarks[ci].id < m.bookmarks[k].id);
        } else {
            assert(m.bookmarks[k].id < m.bookmarks[ci].id);
        }
    }
}

/// The keyword search returns exactly the bookmark rows whose title
/// followed by url holds the keywords in order as substrings.
pub proof fn lemma_search_membership(
    rows: Seq<BookmarkRecord>,
    kws: Seq<Seq<char>>,
    b: BookmarkRecord,
)
    ensures
        matching_bookmarks(rows, kws).contains(b) <==> (rows.contains(b) && chain_matches(
            b.title + b.url,
            kws,
        )),
    decreases rows.len(),
{
    let found = matching_bookmarks(rows, kws);
    if rows.len() > 0 {
        let prefix = rows.drop_last();
        lemma_search_membership(prefix, kws, b);
        let fp = matching_bookmarks(prefix, kws);
        if found.contains(b) {
            let k = choose|k: int| 0 <= k < found.len() && #[trigger] found[k] == b;
            if k < fp.len() {
                assert(fp[k] == b);
                assert(fp.contains(b));
                let t = choose|t: int| 0 <= t < prefix.len() && #[trigger] prefix[t] == b;
                assert(rows[t] == b);
            } else {
                assert(b == rows[rows.len() - 1]);
            }
        }
        if rows.contains(b) && chain_matches(b.title + b.url, kws) {
            let k = choose|k: int| 0 <= k < rows.len() && #[trigger] rows[k] == b;
            if k < rows.len() - 1 {
                assert(prefix[k] == b);
                assert(prefix.contains(b));
                let t = choose|t: int| 0 <= t < fp.len() && #[trigger] fp[t] == b;
                assert(found[t] == b);
            } else {
                assert(found[found.len() - 1] == b);
            }
        }
    }
}

/// The tag search reaches a bookmark id exactly when some association row
/// links it to a live tag whose name holds the keywords in order as
/// substrings — and the bookmark itself still exists.
pub proof fn lemma_tag_search_membership(
    bookmarks: Seq<BookmarkRecord>,
    tags: Seq<TagRecord>,
    assoc: Seq<AssocRecord>,
    kws: Seq<Seq<char>>,
    id: int,
)
    ensures
        tag_match_ids(bookmarks, tags, assoc, kws).contains(id) <==> exists|k: int|
            0 <= k < assoc.len() && (#[trigger] assoc[k]).bookmark_id == id && tags_have_id(
                tags,
                assoc[k].tag_id,
            ) && chain_matches(tag_name_by_id(tags, assoc[k].tag_id), kws) && (exists|i: int|
                0 <= i < bookmarks.len() && (#[trigger] bookmarks[i]).id == id),
    decreases assoc.len(),
{
    let ids = tag_match_ids(bookmarks, tags, assoc, kws);
    if assoc.len() > 0 {
        let prefix = assoc.drop_last();
        lemma_tag_search_membership(bookmarks, tags, prefix, kws, id);
        let ip = tag_match_ids(bookmarks, tags, prefix, kws);
        if ids.contains(id) {
            let k = choose|k: int| 0 <= k < ids.len() && #[trigger] ids[k] == id;
            if k < ip.len() {
                assert(ip[k] == id);
                assert(ip.contains(id));
                let t = choose|t: int|
                    0 <= t < prefix.len() && (#[trigger] prefix[t]).bookmark_id == id
                        && tags_have_id(tags, prefix[t].tag_id) && chain_matches(
                        tag_name_by_id(tags, prefix[t].tag_id),
                        kws,
                    ) && (exists|i: int|
                        0 <= i < bookmarks.len() && (#[trigger] bookmarks[i]).id == id);
                assert(assoc[t] == prefix[t]);
            } else {
                assert(id == assoc.last().bookmark_id);
                assert(assoc[assoc.len() - 1].bookmark_id == id);
            }
        }
        if exists|k: int|
            0 <= k < assoc.len() && (#[trigger] assoc[k]).bookmark_id == id && tags_have_id(
                tags,
                assoc[k].tag_id,
            ) && chain_matches(tag_name_by_id(tags, assoc[k].tag_id), kws) && (exists|i: int|
                0 <= i < bookmarks.len() && (#[trigger] bookmarks[i]).id == id) {
            let k = choose|k: int|
                0 <= k < assoc.len() && (#[trigger] assoc[k]).bookmark_id == id && tags_have_id(
                    tags,
                    assoc[k].tag_id,
                ) && chain_matches(tag_name_by_id(tags, assoc[k].tag_id), kws) && (exists|i: int|
                    0 <= i < bookmarks.len() && (#[trigger] bookmarks[i]).id == id);
            if k < assoc.len() - 1 {
                assert(prefix[k] == assoc[k]);
                assert(ip.contains(id));
                let t = choose|t: int| 0 <= t < ip.len() && #[trigger] ip[t] == id;
                assert(ids[t] == id);
            } else {
                assert(ids[ids.len() - 1] == id);
            }
        }
    }
}

} // verus!
