//! Substring-chain matching: a target text matches a list of keywords when
//! the keywords occur in the text in order, as pairwise non-overlapping
//! substrings. An empty keyword list matches every text.

use vstd::prelude::*;

verus! {

/// The pattern `pat` occurs in `text` starting at index `i`.
pub open spec fn occurs_at(text: Seq<char>, pat: Seq<char>, i: int) -> bool {
    0 <= i && i + pat.len() <= text.len() && text.subrange(i, i + pat.len() as int) == pat
}

/// The keywords occur in order as non-overlapping substrings of `text`,
/// the first of them no earlier than index `from`.
pub open spec fn chain_from(text: Seq<char>, kws: Seq<Seq<char>>, from: int) -> bool
    decreases kws.len(),
{
    if kws.len() == 0 {
        true
    } else {
        exists|i: int|
            from <= i && #[trigger] occurs_at(text, kws[0], i) && chain_from(
                text,
                kws.skip(1),
                i + kws[0].len(),
            )
    }
}

/// The whole text matches the keyword chain.
pub open spec fn chain_matches(text: Seq<char>, kws: Seq<Seq<char>>) -> bool {
    chain_from(text, kws, 0)
}

/// Weakening the lower bound keeps a chain match: the same witnesses serve.
pub proof fn lemma_chain_from_mono(text: Seq<char>, kws: Seq<Seq<char>>, f1: int, f2: int)
    requires
        f1 <= f2,
        chain_from(text, kws, f2),
    ensures
        chain_from(text, kws, f1),
{
    if kws.len() > 0 {
        let i = choose|i: int|
            f2 <= i && #[trigger] occurs_at(text, kws[0], i) && chain_from(
                text,
                kws.skip(1),
                i + kws[0].len(),
            );
        assert(f1 <= i && occurs_at(text, kws[0], i) && chain_from(
            text,
            kws.skip(1),
            i + kws[0].len(),
        ));
    }
}

/// The pattern occurs at exactly the index `i`.
fn occurs_check(text: &Vec<char>, pat: &Vec<char>, i: usize) -> (r: bool)
    requires
        i + pat.len() <= text.len(),
    ensures
        r == occurs_at(text@, pat@, i as int),
{
    let mut k: usize = 0;
    while k < pat.len()
        invariant
            i + pat.len() <= text.len(),
            k <= pat.len(),
            forall|t: int| 0 <= t < k ==> text@[i + t] == pat@[t],
        decreases pat.len() - k,
    {
        if text[i + k] != pat[k] {
            proof {
                if occurs_at(text@, pat@, i as int) {
                    assert(text@.subrange(i as int, i + pat@.len() as int)[k as int] == pat@[
                        k as int
                    ]);
                }
            }
            return false;
        }
        k += 1;
    }
    proof {
        assert(text@.subrange(i as int, i + pat@.len() as int) =~= pat@);
    }
    true
}

/// Leftmost occurrence of `pat` in `text` at or after `start`, if any.
pub fn find_from(text: &Vec<char>, pat: &Vec<char>, start: usize) -> (r: Option<usize>)
    ensures
        match r {
            Some(i) => start <= i && occurs_at(text@, pat@, i as int) && (forall|j: int|
                start <= j < i ==> !occurs_at(text@, pat@, j)),
            None => forall|j: int| start <= j ==> !occurs_at(text@, pat@, j),
        },
{
    if start > text.len() || pat.len() > text.len() {
        return None;
    }
    if pat.len() == 0 {
        proof {
            assert(text@.subrange(start as int, start as int) =~= pat@);
        }
        return Some(start);
    }
    let last = text.len() - pat.len();
    let mut i = start;
    while i <= last
        invariant
            start <= i,
            1 <= pat.len() <= text.len(),
            last == text.len() - pat.len(),
            forall|j: int| start <= j < i ==> !occurs_at(text@, pat@, j),
        decreases last - i + 1,
    {
        if occurs_check(text, pat, i) {
            return Some(i);
        }
        i += 1;
    }
    proof {
        assert forall|j: int| start <= j implies !occurs_at(text@, pat@, j) by {
            if j <= last as int {
                assert(!occurs_at(text@, pat@, j));
            }
        }
    }
    None
}

/// Decides the substring-chain match of a text against a keyword list.
pub fn matches_chain(text: &Vec<char>, kws: &Vec<Vec<char>>) -> (r: bool)
    ensures
        r == chain_matches(text@, kws.deep_view()),
{
    let ghost all: Seq<Seq<char>> = kws.deep_view();
    proof {
        assert(all.skip(0) =~= all);
    }
    let mut pos: usize = 0;
    let mut k: usize = 0;
    while k < kws.len()
        invariant
            k <= kws.len(),
            all == kws.deep_view(),
            pos <= text.len(),
            chain_matches(text@, all) <==> chain_from(text@, all.skip(k as int), pos as int),
        decreases kws.len() - k,
    {
        let kw = &kws[k];
        proof {
            assert(all.skip(k as int)[0] == kw@);
            assert(all.skip(k as int).skip(1) =~= all.skip(k as int + 1));
        }
        match find_from(text, kw, pos) {
            Some(i) => {
                proof {
                    let rest = all.skip(k as int);
                    // The leftmost occurrence can replace any witness.
                    if chain_from(text@, rest, pos as int) {
                        let w = choose|w: int|
                            pos <= w && #[trigger] occurs_at(text@, rest[0], w) && chain_from(
                                text@,
                                rest.skip(1),
                                w + rest[0].len(),
                            );
                        assert(i <= w);
                        lemma_chain_from_mono(
                            text@,
                            rest.skip(1),
                            i + rest[0].len(),
                            w + rest[0].len(),
                        );
                    }
                    if chain_from(text@, rest.skip(1), i + kw@.len()) {
                        assert(pos <= i && occurs_at(text@, rest[0], i as int) && chain_from(
                            text@,
                            rest.skip(1),
                            i + rest[0].len(),
                        ));
                    }
                }
                pos = i + kw.len();
            },
            None => {
                return false;
            },
        }
        k += 1;
    }
    proof {
        assert(all.skip(kws.len() as int) =~= Seq::<Seq<char>>::empty());
    }
    true
}

} // verus!
