//! The bookmark-file import format: a scan of an exported bookmarks page.
//! Links are `a` elements; the nearest enclosing folder heading (an `h3`
//! ahead of the folder's `dl` list) and the link's comma-separated `tags`
//! attribute supply the tag names. Tag and attribute names are read without
//! regard to ascii case; attribute values with a `>` inside are not handled.

use vstd::prelude::*;
use crate::bookmark::{Bookmark, BookmarkView};
use crate::model::{add_bookmark_t, add_tag_t, has_url, inv, StoreModel};
use crate::database::DB;

verus! {

/// Whitespace as the scan skips it between attributes.
pub open spec fn is_space(c: char) -> bool {
    c == ' ' || c == '\t' || c == '\n' || c == '\r'
}

/// Characters that make up a tag or attribute name.
pub open spec fn is_name_char(c: char) -> bool {
    (97 <= c as u32 && c as u32 <= 122) || (65 <= c as u32 && c as u32 <= 90) || (48 <= c as u32
        && c as u32 <= 57)
}

/// The code point of `c` with an ascii capital folded to its small form.
pub open spec fn lower_code(c: char) -> int {
    if 65 <= c as u32 && c as u32 <= 90 {
        c as u32 + 32
    } else {
        c as u32 as int
    }
}

/// The region `s` reads as the (lower-case) name `lit`, ascii case aside.
pub open spec fn name_is(s: Seq<char>, lit: Seq<char>) -> bool {
    s.len() == lit.len() && forall|i: int|
        0 <= i < s.len() ==> lower_code(s[i]) == (#[trigger] lit[i]) as u32
}

/// `x` clamped into the range from `lo` to `hi`.
pub open spec fn clamp_range(x: int, lo: int, hi: int) -> int {
    if x < lo {
        lo
    } else if x > hi {
        hi
    } else {
        x
    }
}

/// The first position at or after `from` holding `c`, else the length.
pub open spec fn scan_to(s: Seq<char>, from: int, c: char) -> int
    decreases s.len() - from,
{
    if from >= s.len() {
        s.len() as int
    } else if s[from] == c {
        from
    } else {
        scan_to(s, from + 1, c)
    }
}

/// The first position at or after `from` that is no name character.
pub open spec fn scan_name_end(s: Seq<char>, from: int) -> int
    decreases s.len() - from,
{
    if from >= s.len() {
        s.len() as int
    } else if !is_name_char(s[from]) {
        from
    } else {
        scan_name_end(s, from + 1)
    }
}

/// The first position at or after `from` holding whitespace.
pub open spec fn scan_space(s: Seq<char>, from: int) -> int
    decreases s.len() - from,
{
    if from >= s.len() {
        s.len() as int
    } else if is_space(s[from]) {
        from
    } else {
        scan_space(s, from + 1)
    }
}

/// The value of the attribute named `key` inside the tag region from `from`
/// to `to`: attributes are names, optionally followed by `=` and a value,
/// double-quoted or running to the next space.
pub open spec fn attr_value(s: Seq<char>, from: int, to: int, key: Seq<char>) -> Option<Seq<char>>
    decreases to - from,
{
    if from >= to {
        Option::None
    } else if is_space(s[from]) {
        attr_value(s, from + 1, to, key)
    } else {
        let ne = clamp_range(scan_name_end(s, from), from, to);
        if ne < to && s[ne] == '=' {
            if ne + 1 < to && s[ne + 1] == '"' {
                let ve = clamp_range(scan_to(s, ne + 2, '"'), ne + 2, to);
                if name_is(s.subrange(from, ne), key) {
                    Option::Some(s.subrange(ne + 2, ve))
                } else {
                    attr_value(s, clamp_range(ve + 1, from + 1, to), to, key)
                }
            } else {
                let ve = clamp_range(scan_space(s, ne + 1), ne + 1, to);
                if name_is(s.subrange(from, ne), key) {
                    Option::Some(s.subrange(ne + 1, ve))
                } else {
                    attr_value(s, clamp_range(ve, from + 1, to), to, key)
                }
            }
        } else {
            attr_value(s, clamp_range(ne, from + 1, to), to, key)
        }
    }
}

/// Exec scan for a character.
fn scan_to_exec(v: &Vec<char>, from: usize, c: char) -> (r: usize)
    requires
        from <= v.len(),
    ensures
        r as int == scan_to(v@, from as int, c),
        from <= r <= v.len(),
{
    let mut i = from;
    while i < v.len()
        invariant
            from <= i <= v.len(),
            scan_to(v@, from as int, c) == scan_to(v@, i as int, c),
        decreases v.len() - i,
    {
        if v[i] == c {
            return i;
        }
        i += 1;
    }
    i
}

fn is_name_char_exec(c: char) -> (r: bool)
    ensures
        r == is_name_char(c),
{
    let u = c as u32;
    (97 <= u && u <= 122) || (65 <= u && u <= 90) || (48 <= u && u <= 57)
}

fn is_space_exec(c: char) -> (r: bool)
    ensures
        r == is_space(c),
{
    c == ' ' || c == '\t' || c == '\n' || c == '\r'
}

/// Exec scan for the end of a name.
fn scan_name_end_exec(v: &Vec<char>, from: usize) -> (r: usize)
    requires
        from <= v.len(),
    ensures
        r as int == scan_name_end(v@, from as int),
        from <= r <= v.len(),
{
    let mut i = from;
    while i < v.len()
        invariant
            from <= i <= v.len(),
            scan_name_end(v@, from as int) == scan_name_end(v@, i as int),
        decreases v.len() - i,
    {
        if !is_name_char_exec(v[i]) {
            return i;
        }
        i += 1;
    }
    i
}

/// Exec scan for whitespace.
fn scan_space_exec(v: &Vec<char>, from: usize) -> (r: usize)
    requires
        from <= v.len(),
    ensures
        r as int == scan_space(v@, from as int),
        from <= r <= v.len(),
{
    let mut i = from;
    while i < v.len()
        invariant
            from <= i <= v.len(),
            scan_space(v@, from as int) == scan_space(v@, i as int),
        decreases v.len() - i,
    {
        if is_space_exec(v[i]) {
            return i;
        }
        i += 1;
    }
    i
}

/// Whether the region reads as the given lower-case name.
fn region_is(v: &Vec<char>, a: usize, b: usize, key: &Vec<char>) -> (r: bool)
    requires
        a <= b <= v.len(),
    ensures
        r == name_is(v@.subrange(a as int, b as int), key@),
{
    if b - a != key.len() {
        return false;
    }
    let mut i: usize = 0;
    while i < key.len()
        invariant
            a <= b <= v.len(),
            b - a == key.len(),
            i <= key.len(),
            forall|k: int| 0 <= k < i ==> lower_code(v@.subrange(a as int, b as int)[k]) == (
            #[trigger] key@[k]) as u32,
        decreases key.len() - i,
    {
        let c = v[a + i] as u32;
        let lc = if 65 <= c && c <= 90 {
            c + 32
        } else {
            c
        };
        if lc != key[i] as u32 {
            proof {
                assert(v@.subrange(a as int, b as int)[i as int] == v@[a + i]);
            }
            return false;
        }
        proof {
            assert(v@.subrange(a as int, b as int)[i as int] == v@[a + i]);
        }
        i += 1;
    }
    true
}

/// The characters of the region from `a` to `b`.
pub(crate) fn copy_range(v: &Vec<char>, a: usize, b: usize) -> (r: Vec<char>)
    requires
        a <= b <= v.len(),
    ensures
        r@ == v@.subrange(a as int, b as int),
{
    let mut r: Vec<char> = Vec::new();
    let mut i = a;
    while i < b
        invariant
            a <= i <= b <= v.len(),
            r@ == v@.subrange(a as int, i as int),
        decreases b - i,
    {
        r.push(v[i]);
        proof {
            assert(v@.subrange(a as int, i + 1) =~= v@.subrange(a as int, i as int).push(
                v@[i as int],
            ));
        }
        i += 1;
    }
    r
}

/// Exec form of `attr_value`.
fn attr_value_exec(v: &Vec<char>, from: usize, to: usize, key: &Vec<char>) -> (r: Option<
    Vec<char>,
>)
    requires
        from <= v.len(),
        to <= v.len(),
    ensures
        match r {
            Option::Some(u) => attr_value(v@, from as int, to as int, key@) == Option::Some(u@),
            Option::None => attr_value(v@, from as int, to as int, key@) == Option::<
                Seq<char>,
            >::None,
        },
    decreases to - from,
{
    if from >= to {
        return None;
    }
    if is_space_exec(v[from]) {
        return attr_value_exec(v, from + 1, to, key);
    }
    let ne0 = scan_name_end_exec(v, from);
    let ne = if ne0 > to {
        to
    } else {
        ne0
    };
    proof {
        assert(ne as int == clamp_range(scan_name_end(v@, from as int), from as int, to as int));
    }
    if ne < to && v[ne] == '=' {
        if ne + 1 < to && v[ne + 1] == '"' {
            let ve0 = scan_to_exec(v, ne + 2, '"');
            let ve = if ve0 > to {
                to
            } else {
                ve0
            };
            if region_is(v, from, ne, key) {
                Some(copy_range(v, ne + 2, ve))
            } else {
                let nxt = if ve >= to {
                    to
                } else {
                    ve + 1
                };
                attr_value_exec(v, nxt, to, key)
            }
        } else {
            let ve0 = scan_space_exec(v, ne + 1);
            let ve = if ve0 > to {
                to
            } else {
                ve0
            };
            if region_is(v, from, ne, key) {
                Some(copy_range(v, ne + 1, ve))
            } else {
                attr_value_exec(v, ve, to, key)
            }
        }
    } else {
        let nxt = if ne < from + 1 {
            from + 1
        } else {
            ne
        };
        let nxt = if nxt > to {
            to
        } else {
            nxt
        };
        attr_value_exec(v, nxt, to, key)
    }
}

/// One link as the scan extracts it: raw tag names in reading order, the
/// enclosing heading (if any) ahead of the `tags` attribute's pieces.
#[verifier::ext_equal]
pub struct RawItem {
    pub title: Seq<char>,
    pub url: Seq<char>,
    pub tags: Seq<Seq<char>>,
}

/// The nearest heading: the innermost entry of the folder stack that holds
/// one.
pub open spec fn heading_pick(stack: Seq<Option<Seq<char>>>) -> Option<Seq<char>>
    decreases stack.len(),
{
    if stack.len() == 0 {
        Option::None
    } else if stack.last() is Some {
        stack.last()
    } else {
        heading_pick(stack.drop_last())
    }
}

/// The pieces of a comma-separated attribute value, split as written: empty
/// pieces are kept, and an empty value is one empty piece.
pub open spec fn split_commas(v: Seq<char>, from: int) -> Seq<Seq<char>>
    decreases v.len() - from,
{
    if from < 0 || from > v.len() {
        Seq::empty()
    } else {
        let k = clamp_range(scan_to(v, from, ','), from, v.len() as int);
        if k == v.len() {
            seq![v.subrange(from, k)]
        } else {
            seq![v.subrange(from, k)] + split_commas(v, k + 1)
        }
    }
}

/// The raw tag names of one link: the nearest heading, then the pieces of
/// its `tags` attribute.
pub open spec fn tags_of_item(heading: Option<Seq<char>>, attr: Option<Seq<char>>) -> Seq<
    Seq<char>,
> {
    (match heading {
        Option::Some(h) => seq![h],
        Option::None => Seq::empty(),
    }) + (match attr {
        Option::Some(a) => split_commas(a, 0),
        Option::None => Seq::empty(),
    })
}

/// The links of the text from position `pos` on, under the given pending
/// heading and folder stack. An `h3` sets the pending heading, a `dl` opens
/// a folder under it, a closing `dl` leaves the folder; an `a` with an
/// `href` yields one link whose title runs to the next tag. Anchors without
/// an `href` yield nothing.
pub open spec fn parse_from(
    s: Seq<char>,
    pos: int,
    pending: Option<Seq<char>>,
    stack: Seq<Option<Seq<char>>>,
) -> Seq<RawItem>
    decreases s.len() - pos,
{
    if pos < 0 || pos >= s.len() {
        Seq::empty()
    } else {
        let lt = clamp_range(scan_to(s, pos, '<'), pos, s.len() as int);
        if lt >= s.len() {
            Seq::empty()
        } else if lt + 1 < s.len() && s[lt + 1] == '/' {
            let ne = clamp_range(scan_name_end(s, lt + 2), lt + 2, s.len() as int);
            let gt = clamp_range(scan_to(s, ne, '>'), ne, s.len() as int);
            let nxt = clamp_range(gt + 1, pos + 1, s.len() as int);
            if name_is(s.subrange(lt + 2, ne), "dl"@) {
                parse_from(
                    s,
                    nxt,
                    Option::None,
                    if stack.len() > 0 {
                        stack.drop_last()
                    } else {
                        stack
                    },
                )
            } else {
                parse_from(s, nxt, pending, stack)
            }
        } else if lt + 1 < s.len() && s[lt + 1] == '!' {
            let gt = clamp_range(scan_to(s, lt + 2, '>'), lt + 2, s.len() as int);
            let nxt = clamp_range(gt + 1, pos + 1, s.len() as int);
            parse_from(s, nxt, pending, stack)
        } else {
            let ne = clamp_range(scan_name_end(s, lt + 1), lt + 1, s.len() as int);
            let gt = clamp_range(scan_to(s, ne, '>'), ne, s.len() as int);
            let nxt = clamp_range(gt + 1, pos + 1, s.len() as int);
            let name = s.subrange(lt + 1, ne);
            if name_is(name, "h3"@) {
                let te = clamp_range(scan_to(s, nxt, '<'), nxt, s.len() as int);
                parse_from(s, nxt, Option::Some(s.subrange(nxt, te)), stack)
            } else if name_is(name, "dl"@) {
                parse_from(s, nxt, Option::None, stack.push(pending))
            } else if name_is(name, "a"@) {
                match attr_value(s, ne, gt, "href"@) {
                    Option::None => parse_from(s, nxt, pending, stack),
                    Option::Some(u) => {
                        let te = clamp_range(scan_to(s, nxt, '<'), nxt, s.len() as int);
                        let item = RawItem {
                            title: s.subrange(nxt, te),
                            url: u,
                            tags: tags_of_item(
                                heading_pick(stack.push(pending)),
                                attr_value(s, ne, gt, "tags"@),
                            ),
                        };
                        seq![item] + parse_from(s, nxt, pending, stack)
                    },
                }
            } else {
                parse_from(s, nxt, pending, stack)
            }
        }
    }
}

pub open spec fn opt_view(o: Option<String>) -> Option<Seq<char>> {
    match o {
        Option::Some(s) => Option::Some(s@),
        Option::None => Option::None,
    }
}

pub open spec fn stack_view(st: Seq<Option<String>>) -> Seq<Option<Seq<char>>> {
    st.map_values(|o: Option<String>| opt_view(o))
}

fn clone_opt(o: &Option<String>) -> (r: Option<String>)
    ensures
        opt_view(r) == opt_view(*o),
{
    match o {
        Option::Some(s) => Option::Some(s.clone()),
        Option::None => Option::None,
    }
}

/// The nearest heading at the current point of the scan.
fn pick_heading(stack: &Vec<Option<String>>, pending: &Option<String>) -> (r: Option<String>)
    ensures
        opt_view(r) == heading_pick(stack_view(stack@).push(opt_view(*pending))),
{
    let ghost sv = stack_view(stack@);
    match pending {
        Option::Some(h) => {
            return Option::Some(h.clone());
        },
        Option::None => {},
    }
    proof {
        assert(sv.push(Option::None).drop_last() =~= sv);
        assert(sv.take(stack@.len() as int) =~= sv);
    }
    let mut k = stack.len();
    while k > 0
        invariant
            k <= stack.len(),
            sv == stack_view(stack@),
            heading_pick(stack_view(stack@).push(opt_view(*pending))) == heading_pick(
                sv.take(k as int),
            ),
        decreases k,
    {
        proof {
            assert(sv.take(k as int).drop_last() =~= sv.take(k - 1));
            assert(sv.take(k as int).last() == sv[k - 1]);
        }
        match &stack[k - 1] {
            Option::Some(h) => {
                return Option::Some(h.clone());
            },
            Option::None => {},
        }
        k -= 1;
    }
    None
}

/// Exec form of `split_commas`: the comma-separated pieces as strings.
fn split_commas_exec(val: &Vec<char>, from: usize) -> (r: Vec<String>)
    requires
        from <= val.len(),
    ensures
        r.deep_view() == split_commas(val@, from as int),
    decreases val.len() - from,
{
    let k = scan_to_exec(val, from, ',');
    let piece = crate::text::string_of(&copy_range(val, from, k));
    let mut r: Vec<String> = Vec::new();
    r.push(piece);
    if k < val.len() {
        let mut rest = split_commas_exec(val, k + 1);
        r.append(&mut rest);
        proof {
            assert(r.deep_view() =~~= split_commas(val@, from as int));
        }
    } else {
        proof {
            assert(r.deep_view() =~~= split_commas(val@, from as int));
        }
    }
    r
}

/// One parsed link held as executable values.
struct ParsedLink {
    title: String,
    url: String,
    tags: Vec<String>,
}

impl View for ParsedLink {
    type V = RawItem;

    closed spec fn view(&self) -> RawItem {
        RawItem { title: self.title@, url: self.url@, tags: self.tags.deep_view() }
    }
}

/// The scan yields at most one link per character of the text.
pub proof fn lemma_parse_from_len(
    s: Seq<char>,
    pos: int,
    pending: Option<Seq<char>>,
    stack: Seq<Option<Seq<char>>>,
)
    requires
        0 <= pos,
    ensures
        parse_from(s, pos, pending, stack).len() <= s.len() - pos || parse_from(
            s,
            pos,
            pending,
            stack,
        ).len() == 0,
    decreases s.len() - pos,
{
    if pos < s.len() {
        let lt = clamp_range(scan_to(s, pos, '<'), pos, s.len() as int);
        if lt < s.len() {
            if lt + 1 < s.len() && s[lt + 1] == '/' {
                let ne = clamp_range(scan_name_end(s, lt + 2), lt + 2, s.len() as int);
                let gt = clamp_range(scan_to(s, ne, '>'), ne, s.len() as int);
                let nxt = clamp_range(gt + 1, pos + 1, s.len() as int);
                lemma_parse_from_len(
                    s,
                    nxt,
                    Option::None,
                    if stack.len() > 0 {
                        stack.drop_last()
                    } else {
                        stack
                    },
                );
                lemma_parse_from_len(s, nxt, pending, stack);
            } else if lt + 1 < s.len() && s[lt + 1] == '!' {
                let gt = clamp_range(scan_to(s, lt + 2, '>'), lt + 2, s.len() as int);
                let nxt = clamp_range(gt + 1, pos + 1, s.len() as int);
                lemma_parse_from_len(s, nxt, pending, stack);
            } else {
                let ne = clamp_range(scan_name_end(s, lt + 1), lt + 1, s.len() as int);
                let gt = clamp_range(scan_to(s, ne, '>'), ne, s.len() as int);
                let nxt = clamp_range(gt + 1, pos + 1, s.len() as int);
                let te = clamp_range(scan_to(s, nxt, '<'), nxt, s.len() as int);
                lemma_parse_from_len(s, nxt, Option::Some(s.subrange(nxt, te)), stack);
                lemma_parse_from_len(s, nxt, Option::None, stack.push(pending));
                lemma_parse_from_len(s, nxt, pending, stack);
            }
        }
    }
}

/// Runs the link scan over the whole text.
fn parse_links(v: &Vec<char>) -> (links: Vec<ParsedLink>)
    ensures
        links@.map_values(|l: ParsedLink| l@) == parse_from(
            v@,
            0,
            Option::None,
            Seq::empty(),
        ),
{
    let ghost s = v@;
    let ghost full = parse_from(s, 0, Option::None, Seq::<Option<Seq<char>>>::empty());
    let key_dl = crate::text::chars_of("dl");
    let key_h3 = crate::text::chars_of("h3");
    let key_a = crate::text::chars_of("a");
    let key_href = crate::text::chars_of("href");
    let key_tags = crate::text::chars_of("tags");
    let mut links: Vec<ParsedLink> = Vec::new();
    let mut stack: Vec<Option<String>> = Vec::new();
    let mut pending: Option<String> = Option::None;
    let mut pos: usize = 0;
    proof {
        assert(stack_view(stack@) =~= Seq::<Option<Seq<char>>>::empty());
        assert(links@.map_values(|l: ParsedLink| l@) =~= Seq::<RawItem>::empty());
    }
    while pos < v.len()
        invariant
            s == v@,
            pos <= v.len(),
            key_dl@ == "dl"@ && key_h3@ == "h3"@ && key_a@ == "a"@ && key_href@ == "href"@
                && key_tags@ == "tags"@,
            full == links@.map_values(|l: ParsedLink| l@) + parse_from(
                s,
                pos as int,
                opt_view(pending),
                stack_view(stack@),
            ),
        decreases v.len() - pos,
    {
        let ghost pv = opt_view(pending);
        let ghost sv = stack_view(stack@);
        let ghost pos0 = pos as int;
        let lt = scan_to_exec(v, pos, '<');
        if lt >= v.len() {
            proof {
                assert(parse_from(s, pos0, pv, sv) =~= Seq::<RawItem>::empty());
            }
            pos = v.len();
        } else if lt + 1 < v.len() && v[lt + 1] == '/' {
            let ne = scan_name_end_exec(v, lt + 2);
            let gt = scan_to_exec(v, ne, '>');
            let nxt = if gt >= v.len() {
                v.len()
            } else {
                gt + 1
            };
            proof {
                assert(nxt as int == clamp_range(gt + 1, pos0 + 1, s.len() as int));
            }
            if region_is(v, lt + 2, ne, &key_dl) {
                proof {
                    assert(parse_from(s, pos0, pv, sv) == parse_from(
                        s,
                        nxt as int,
                        Option::None,
                        if sv.len() > 0 {
                            sv.drop_last()
                        } else {
                            sv
                        },
                    ));
                }
                if stack.len() > 0 {
                    stack.pop();
                    proof {
                        assert(stack_view(stack@) =~= sv.drop_last());
                    }
                }
                pending = Option::None;
            } else {
                proof {
                    assert(parse_from(s, pos0, pv, sv) == parse_from(s, nxt as int, pv, sv));
                }
            }
            pos = nxt;
        } else if lt + 1 < v.len() && v[lt + 1] == '!' {
            let gt = scan_to_exec(v, lt + 2, '>');
            let nxt = if gt >= v.len() {
                v.len()
            } else {
                gt + 1
            };
            proof {
                assert(nxt as int == clamp_range(gt + 1, pos0 + 1, s.len() as int));
                assert(parse_from(s, pos0, pv, sv) == parse_from(s, nxt as int, pv, sv));
            }
            pos = nxt;
        } else {
            let ne = scan_name_end_exec(v, lt + 1);
            let gt = scan_to_exec(v, ne, '>');
            let nxt = if gt >= v.len() {
                v.len()
            } else {
                gt + 1
            };
            proof {
                assert(nxt as int == clamp_range(gt + 1, pos0 + 1, s.len() as int));
            }
            if region_is(v, lt + 1, ne, &key_h3) {
                let te = scan_to_exec(v, nxt, '<');
                pending = Option::Some(crate::text::string_of(&copy_range(v, nxt, te)));
                proof {
                    assert(parse_from(s, pos0, pv, sv) == parse_from(
                        s,
                        nxt as int,
                        opt_view(pending),
                        sv,
                    ));
                }
                pos = nxt;
            } else if region_is(v, lt + 1, ne, &key_dl) {
                stack.push(clone_opt(&pending));
                pending = Option::None;
                proof {
                    assert(stack_view(stack@) =~= sv.push(pv));
                    assert(parse_from(s, pos0, pv, sv) == parse_from(
                        s,
                        nxt as int,
                        Option::None,
                        sv.push(pv),
                    ));
                }
                pos = nxt;
            } else if region_is(v, lt + 1, ne, &key_a) {
                match attr_value_exec(v, ne, gt, &key_href) {
                    Option::None => {
                        proof {
                            assert(parse_from(s, pos0, pv, sv) == parse_from(
                                s,
                                nxt as int,
                                pv,
                                sv,
                            ));
                        }
                        pos = nxt;
                    },
                    Option::Some(url_chars) => {
                        let te = scan_to_exec(v, nxt, '<');
                        let title = crate::text::string_of(&copy_range(v, nxt, te));
                        let url = crate::text::string_of(&url_chars);
                        let mut tags: Vec<String> = Vec::new();
                        match pick_heading(&stack, &pending) {
                            Option::Some(h) => tags.push(h),
                            Option::None => {},
                        }
                        let ghost headpart = tags.deep_view();
                        match attr_value_exec(v, ne, gt, &key_tags) {
                            Option::Some(tv) => {
                                let mut parts = split_commas_exec(&tv, 0);
                                tags.append(&mut parts);
                            },
                            Option::None => {},
                        }
                        let ghost spec_item = RawItem {
                            title: s.subrange(
                                nxt as int,
                                clamp_range(scan_to(s, nxt as int, '<'), nxt as int, s.len() as int),
                            ),
                            url: attr_value(s, ne as int, gt as int, "href"@)->Some_0,
                            tags: tags_of_item(
                                heading_pick(sv.push(pv)),
                                attr_value(s, ne as int, gt as int, "tags"@),
                            ),
                        };
                        let link = ParsedLink { title, url, tags };
                        proof {
                            assert(link@.tags =~~= spec_item.tags);
                            assert(link@ =~~= spec_item);
                            assert(parse_from(s, pos0, pv, sv) == seq![spec_item] + parse_from(
                                s,
                                nxt as int,
                                pv,
                                sv,
                            ));
                        }
                        let ghost oldlinks = links@.map_values(|l: ParsedLink| l@);
                        links.push(link);
                        proof {
                            assert(links@.map_values(|l: ParsedLink| l@) =~= oldlinks.push(
                                spec_item,
                            ));
                            assert(oldlinks.push(spec_item) + parse_from(s, nxt as int, pv, sv)
                                =~= oldlinks + (seq![spec_item] + parse_from(
                                s,
                                nxt as int,
                                pv,
                                sv,
                            )));
                        }
                        pos = nxt;
                    },
                }
            } else {
                proof {
                    assert(parse_from(s, pos0, pv, sv) == parse_from(s, nxt as int, pv, sv));
                }
                pos = nxt;
            }
        }
    }
    proof {
        assert(parse_from(s, pos as int, opt_view(pending), stack_view(stack@)) =~= Seq::<
            RawItem,
        >::empty());
        assert(full =~= links@.map_values(|l: ParsedLink| l@));
    }
    links
}

/// Copies a list of strings.
fn copy_strings(v: &Vec<String>) -> (r: Vec<String>)
    ensures
        r.deep_view() == v.deep_view(),
{
    let mut r: Vec<String> = Vec::new();
    let mut i: usize = 0;
    while i < v.len()
        invariant
            i <= v.len(),
            r.deep_view() == v.deep_view().take(i as int),
        decreases v.len() - i,
    {
        let ghost prev = r.deep_view();
        r.push(v[i].clone());
        proof {
            assert(r.deep_view() =~~= prev.push(v.deep_view()[i as int]));
            assert(v.deep_view().take(i + 1) =~~= v.deep_view().take(i as int).push(
                v.deep_view()[i as int],
            ));
        }
        i += 1;
    }
    proof {
        assert(v.deep_view().take(v.len() as int) =~~= v.deep_view());
    }
    r
}

/// The links of an exported bookmarks page, numbered from one in reading
/// order, each with its tag names sorted and freed of duplicates.
pub fn get_bookmarks_from_html(content: &str) -> (r: Vec<Bookmark>)
    requires
        content@.len() < i64::MAX,
    ensures
        ({
            let items = parse_from(content@, 0, Option::None, Seq::empty());
            &&& r@.len() == items.len()
            &&& forall|i: int|
                0 <= i < r@.len() ==> {
                    let b = (#[trigger] r@[i])@;
                    &&& b.id == i + 1
                    &&& b.title == items[i].title
                    &&& b.url == items[i].url
                    &&& crate::text::sorted_strict(b.tags)
                    &&& forall|y: Seq<char>|
                        #[trigger] b.tags.contains(y) <==> items[i].tags.contains(y)
                }
        }),
{
    let v = crate::text::chars_of(content);
    let links = parse_links(&v);
    let ghost items = parse_from(content@, 0, Option::None, Seq::<Option<Seq<char>>>::empty());
    proof {
        lemma_parse_from_len(content@, 0, Option::None, Seq::empty());
    }
    let mut r: Vec<Bookmark> = Vec::new();
    let mut i: usize = 0;
    while i < links.len()
        invariant
            i <= links.len(),
            links@.map_values(|l: ParsedLink| l@) == items,
            items.len() < i64::MAX,
            r@.len() == i,
            forall|k: int|
                0 <= k < i ==> {
                    let b = (#[trigger] r@[k])@;
                    &&& b.id == k + 1
                    &&& b.title == items[k].title
                    &&& b.url == items[k].url
                    &&& crate::text::sorted_strict(b.tags)
                    &&& forall|y: Seq<char>|
                        #[trigger] b.tags.contains(y) <==> items[k].tags.contains(y)
                },
        decreases links.len() - i,
    {
        proof {
            assert(links@.map_values(|l: ParsedLink| l@)[i as int] == links@[i as int]@);
        }
        let tags = crate::text::sort_dedup(copy_strings(&links[i].tags));
        let b = Bookmark::new(
            (i as i64) + 1,
            links[i].title.clone(),
            links[i].url.clone(),
            tags,
        );
        r.push(b);
        i += 1;
    }
    r
}

/// The text of the first `title` element of a page, if one is there.
pub open spec fn title_from(s: Seq<char>, pos: int) -> Option<Seq<char>>
    decreases s.len() - pos,
{
    if pos < 0 || pos >= s.len() {
        Option::None
    } else {
        let lt = clamp_range(scan_to(s, pos, '<'), pos, s.len() as int);
        if lt >= s.len() {
            Option::None
        } else {
            let ne = clamp_range(scan_name_end(s, lt + 1), lt + 1, s.len() as int);
            let gt = clamp_range(scan_to(s, ne, '>'), ne, s.len() as int);
            let nxt = clamp_range(gt + 1, pos + 1, s.len() as int);
            if name_is(s.subrange(lt + 1, ne), "title"@) {
                let te = clamp_range(scan_to(s, nxt, '<'), nxt, s.len() as int);
                Option::Some(s.subrange(nxt, te))
            } else {
                title_from(s, nxt)
            }
        }
    }
}

/// The text of the first `title` element of a fetched page.
pub fn title_from_html(content: &str) -> (r: Option<String>)
    ensures
        match r {
            Option::Some(t) => title_from(content@, 0) == Option::Some(t@),
            Option::None => title_from(content@, 0) == Option::<Seq<char>>::None,
        },
{
    let v = crate::text::chars_of(content);
    let ghost s = content@;
    let key_title = crate::text::chars_of("title");
    let mut pos: usize = 0;
    while pos < v.len()
        invariant
            s == v@,
            s == content@,
            pos <= v.len(),
            key_title@ == "title"@,
            title_from(s, 0) == title_from(s, pos as int),
        decreases v.len() - pos,
    {
        let ghost pos0 = pos as int;
        let lt = scan_to_exec(&v, pos, '<');
        if lt >= v.len() {
            proof {
                assert(title_from(s, pos0) == Option::<Seq<char>>::None);
            }
            return Option::None;
        }
        let ne = scan_name_end_exec(&v, lt + 1);
        let gt = scan_to_exec(&v, ne, '>');
        let nxt = if gt >= v.len() {
            v.len()
        } else {
            gt + 1
        };
        proof {
            assert(nxt as int == clamp_range(gt + 1, pos0 + 1, s.len() as int));
        }
        if region_is(&v, lt + 1, ne, &key_title) {
            let te = scan_to_exec(&v, nxt, '<');
            proof {
                assert(title_from(s, pos0) == Option::Some(s.subrange(nxt as int, te as int)));
            }
            return Option::Some(crate::text::string_of(&copy_range(&v, nxt, te)));
        }
        proof {
            assert(title_from(s, pos0) == title_from(s, nxt as int));
        }
        pos = nxt;
    }
    None
}

/// Attaching a list of tag names to bookmark `id`, in order.
pub open spec fn add_tags_t(m: StoreModel, id: int, tags: Seq<Seq<char>>) -> StoreModel
    decreases tags.len(),
{
    if tags.len() == 0 {
        m
    } else {
        add_tag_t(add_tags_t(m, id, tags.drop_last()), id, tags.last())
    }
}

/// Feeding a list of parsed items through the store, in order: an item
/// whose url is already present changes nothing; any other is inserted and
/// then tagged with its names, under the id the insertion was assigned.
pub open spec fn import_t(m: StoreModel, items: Seq<BookmarkView>) -> StoreModel
    decreases items.len(),
{
    if items.len() == 0 {
        m
    } else {
        let m1 = import_t(m, items.drop_last());
        let it = items.last();
        if has_url(m1, it.url) {
            m1
        } else {
            add_tags_t(add_bookmark_t(m1, it.title, it.url), m1.next_bookmark_id, it.tags)
        }
    }
}

/// How many tag names the items carry in all.
pub open spec fn total_tags(items: Seq<BookmarkView>) -> nat
    decreases items.len(),
{
    if items.len() == 0 {
        0
    } else {
        total_tags(items.drop_last()) + items.last().tags.len()
    }
}

proof fn lemma_total_tags_mono(items: Seq<BookmarkView>, k: int)
    requires
        0 <= k <= items.len(),
    ensures
        total_tags(items.take(k)) <= total_tags(items),
    decreases items.len() - k,
{
    if k == items.len() {
        assert(items.take(k) =~= items);
    } else {
        assert(items.take(k + 1).drop_last() =~= items.take(k));
        assert(items.take(k + 1).last() == items[k]);
        lemma_total_tags_mono(items, k + 1);
    }
}

/// Runs the import flow over a store: each item in turn, duplicates
/// reported and skipped, the rest inserted and then tagged under their
/// freshly assigned ids. `r[i]` says whether item `i` was added.
pub fn import_bookmarks(store: &mut DB, items: &Vec<Bookmark>) -> (r: Vec<bool>)
    requires
        inv(old(store)@),
        old(store)@.next_bookmark_id + items@.len() <= i64::MAX,
        old(store)@.next_tag_id + total_tags(items@.map_values(|b: Bookmark| b@)) <= i64::MAX,
    ensures
        inv(final(store)@),
        final(store)@ == import_t(old(store)@, items@.map_values(|b: Bookmark| b@)),
        r@.len() == items@.len(),
        forall|i: int|
            0 <= i < r@.len() ==> #[trigger] r@[i] == !has_url(
                import_t(old(store)@, items@.map_values(|b: Bookmark| b@).take(i)),
                items@.map_values(|b: Bookmark| b@)[i].url,
            ),
{
    let ghost m0 = old(store)@;
    let ghost iv = items@.map_values(|b: Bookmark| b@);
    let mut r: Vec<bool> = Vec::new();
    let mut i: usize = 0;
    proof {
        assert(iv.take(0) =~= Seq::<BookmarkView>::empty());
    }
    while i < items.len()
        invariant
            inv(store@),
            i <= items.len(),
            iv == items@.map_values(|b: Bookmark| b@),
            iv.len() == items@.len(),
            m0.next_bookmark_id + iv.len() <= i64::MAX,
            m0.next_tag_id + total_tags(iv) <= i64::MAX,
            store@ == import_t(m0, iv.take(i as int)),
            store@.next_bookmark_id <= m0.next_bookmark_id + i,
            store@.next_tag_id <= m0.next_tag_id + total_tags(iv.take(i as int)),
            r@.len() == i,
            forall|k: int|
                0 <= k < i ==> #[trigger] r@[k] == !has_url(
                    import_t(m0, iv.take(k)),
                    iv[k].url,
                ),
        decreases items.len() - i,
    {
        proof {
            assert(iv.take(i + 1).drop_last() =~= iv.take(i as int));
            assert(iv.take(i + 1).last() == iv[i as int]);
            assert(iv[i as int] == items@[i as int]@);
            lemma_total_tags_mono(iv, i + 1);
        }
        let ghost mcur = store@;
        let mut added: bool = false;
        let mut new_id: i64 = 0;
        match store.add_bookmark(&items[i].title, &items[i].url) {
            Result::Ok(b) => {
                added = true;
                new_id = b.id;
            },
            Result::Err(_) => {},
        }
        if added {
            let ghost madd = store@;
            proof {
                assert(new_id as int == mcur.next_bookmark_id);
            }
            let ghost tagseq = iv[i as int].tags;
            proof {
                assert(tagseq.take(0) =~= Seq::<Seq<char>>::empty());
                assert(tagseq.len() == items@[i as int].tags.deep_view().len());
            }
            let mut j: usize = 0;
            while j < items[i].tags.len()
                invariant
                    inv(store@),
                    i < items@.len(),
                    j <= items@[i as int].tags@.len(),
                    iv == items@.map_values(|b: Bookmark| b@),
                    tagseq == iv[i as int].tags,
                    tagseq.len() == items@[i as int].tags@.len(),
                    new_id as int == mcur.next_bookmark_id,
                    store@ == add_tags_t(madd, mcur.next_bookmark_id, tagseq.take(j as int)),
                    store@.next_bookmark_id == madd.next_bookmark_id,
                    store@.next_tag_id <= madd.next_tag_id + j,
                    madd.next_tag_id + tagseq.len() <= i64::MAX,
                decreases items@[i as int].tags@.len() - j,
            {
                proof {
                    assert(tagseq.take(j + 1).drop_last() =~= tagseq.take(j as int));
                    assert(tagseq.take(j + 1).last() == tagseq[j as int]);
                    assert(items@[i as int].tags.deep_view()[j as int] == items@[i as int].tags@[
                        j as int
                    ]@);
                }
                store.add_tag(new_id, items[i].tags[j].as_str());
                j += 1;
            }
            proof {
                assert(tagseq.take(tagseq.len() as int) =~= tagseq);
                assert(store@ == import_t(m0, iv.take(i + 1)));
            }
        } else {
            proof {
                assert(store@ == import_t(m0, iv.take(i + 1)));
            }
        }
        r.push(added);
        i += 1;
    }
    proof {
        assert(iv.take(iv.len() as int) =~= iv);
    }
    r
}

} // verus!
