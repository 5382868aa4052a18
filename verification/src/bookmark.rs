//! The bookmark entity: an id, a title, a url and the tag names attached to it.

use vstd::prelude::*;

verus! {

/// A stored bookmark together with the names of its tags, as handed back by
/// the store's queries. A value of this type is an immutable carrier: every
/// change goes through the store, which builds a fresh value.
#[derive(Debug)]
pub struct Bookmark {
    pub id: i64,
    pub title: String,
    pub url: String,
    pub tags: Vec<String>,
}

/// The mathematical content of a `Bookmark`: the id as an integer and the
/// texts as sequences of characters.
#[verifier::ext_equal]
pub struct BookmarkView {
    pub id: int,
    pub title: Seq<char>,
    pub url: Seq<char>,
    pub tags: Seq<Seq<char>>,
}

impl View for Bookmark {
    type V = BookmarkView;

    open spec fn view(&self) -> BookmarkView {
        BookmarkView {
            id: self.id as int,
            title: self.title@,
            url: self.url@,
            tags: self.tags.deep_view(),
        }
    }
}

/// The tag names joined by a comma and a space.
pub open spec fn join_comma(ts: Seq<Seq<char>>) -> Seq<char>
    decreases ts.len(),
{
    if ts.len() == 0 {
        Seq::empty()
    } else if ts.len() == 1 {
        ts[0]
    } else {
        join_comma(ts.drop_last()) + seq![',', ' '] + ts.last()
    }
}

/// The text the print command shows for a bookmark: the id and title on one
/// line, the indented url on the next, and — only when tags are present — an
/// indented comma-joined tag line.
pub open spec fn display_of(b: BookmarkView) -> Seq<char> {
    let base = crate::text::int_str(b.id) + seq![' '] + b.title + seq!['\n', ' ', ' ', ' ', ' ']
        + b.url + seq!['\n'];
    if b.tags.len() == 0 {
        base
    } else {
        base + seq![' ', ' ', ' ', ' '] + join_comma(b.tags) + seq!['\n']
    }
}

impl Bookmark {
    pub fn new(id: i64, title: String, url: String, tags: Vec<String>) -> (r: Self)
        ensures
            r.id == id,
            r.title == title,
            r.url == url,
            r.tags == tags,
    {
        Bookmark { id, title, url, tags }
    }

    /// The bookmark's printed form, a pure function of its fields.
    pub fn display_string(&self) -> (r: String)
        ensures
            r@ == display_of(self@),
    {
        let mut out: Vec<char> = crate::text::int_chars(self.id);
        out.push(' ');
        let mut t = crate::text::chars_of(self.title.as_str());
        out.append(&mut t);
        out.push('\n');
        out.push(' ');
        out.push(' ');
        out.push(' ');
        out.push(' ');
        let mut u = crate::text::chars_of(self.url.as_str());
        out.append(&mut u);
        out.push('\n');
        let ghost base = crate::text::int_str(self@.id) + seq![' '] + self@.title + seq![
            '\n',
            ' ',
            ' ',
            ' ',
            ' ',
        ] + self@.url + seq!['\n'];
        proof {
            assert(out@ =~= base);
        }
        if self.tags.len() > 0 {
            out.push(' ');
            out.push(' ');
            out.push(' ');
            out.push(' ');
            let ghost tagviews = self@.tags;
            let mut i: usize = 0;
            while i < self.tags.len()
                invariant
                    1 <= self.tags.len(),
                    i <= self.tags.len(),
                    tagviews == self@.tags,
                    tagviews.len() == self.tags.len(),
                    i == 0 ==> out@ == base + seq![' ', ' ', ' ', ' '],
                    i >= 1 ==> out@ == base + seq![' ', ' ', ' ', ' '] + join_comma(
                        tagviews.take(i as int),
                    ),
                decreases self.tags.len() - i,
            {
                proof {
                    assert(tagviews.take(i + 1).drop_last() =~= tagviews.take(i as int));
                    assert(tagviews.take(i + 1).last() == tagviews[i as int]);
                }
                if i > 0 {
                    out.push(',');
                    out.push(' ');
                }
                let mut c = crate::text::chars_of(self.tags[i].as_str());
                out.append(&mut c);
                proof {
                    assert(tagviews[i as int] == self.tags@[i as int]@);
                    if i == 0 {
                        assert(join_comma(tagviews.take(1)) == tagviews[0]);
                        assert(out@ =~= base + seq![' ', ' ', ' ', ' '] + join_comma(
                            tagviews.take(1),
                        ));
                    } else {
                        assert(out@ =~= base + seq![' ', ' ', ' ', ' '] + join_comma(
                            tagviews.take(i + 1),
                        ));
                    }
                }
                i += 1;
            }
            out.push('\n');
            proof {
                assert(tagviews.take(tagviews.len() as int) =~= tagviews);
                assert(out@ =~= display_of(self@));
            }
        }
        crate::text::string_of(&out)
    }
}

} // verus!
