//! The decision behind the destructive-clear prompt: what a typed answer
//! line means. Blank input counts as consent; anything but a plain yes or
//! no asks again.

use vstd::prelude::*;
use crate::import::is_space;

verus! {

/// What one answer line decides.
#[derive(Clone, Copy, Debug, PartialEq, Eq, Structural)]
pub enum ConfirmChoice {
    /// Proceed with the deletion.
    Accept,
    /// Abandon it.
    Decline,
    /// Ask again.
    Undecided,
}

/// The first position at or after `from` that is no whitespace.
pub open spec fn nonblank_start(s: Seq<char>, from: int) -> int
    decreases s.len() - from,
{
    if from >= s.len() {
        s.len() as int
    } else if !is_space(s[from]) {
        from
    } else {
        nonblank_start(s, from + 1)
    }
}

/// The position just past the last non-whitespace character before `till`.
pub open spec fn nonblank_end(s: Seq<char>, till: int) -> int
    decreases till,
{
    if till <= 0 {
        0
    } else if till > s.len() {
        nonblank_end(s, s.len() as int)
    } else if is_space(s[till - 1]) {
        nonblank_end(s, till - 1)
    } else {
        till
    }
}

/// The answer with leading and trailing whitespace removed.
pub open spec fn trimmed(s: Seq<char>) -> Seq<char> {
    let a = nonblank_start(s, 0);
    let b = nonblank_end(s, s.len() as int);
    if a >= b {
        Seq::empty()
    } else {
        s.subrange(a, b)
    }
}

proof fn lemma_nonblank_end_le(s: Seq<char>, till: int)
    requires
        0 <= till <= s.len(),
    ensures
        nonblank_end(s, till) <= till,
    decreases till,
{
    if till > 0 && is_space(s[till - 1]) {
        lemma_nonblank_end_le(s, till - 1);
    }
}

fn is_space_exec(c: char) -> (r: bool)
    ensures
        r == is_space(c),
{
    c == ' ' || c == '\t' || c == '\n' || c == '\r'
}

/// The trimmed answer, as characters.
fn trim_exec(v: &Vec<char>) -> (r: Vec<char>)
    ensures
        r@ == trimmed(v@),
{
    let mut a: usize = 0;
    while a < v.len() && is_space_exec(v[a])
        invariant
            a <= v.len(),
            nonblank_start(v@, 0) == nonblank_start(v@, a as int),
        decreases v.len() - a,
    {
        a += 1;
    }
    let mut b: usize = v.len();
    while b > a && is_space_exec(v[b - 1])
        invariant
            a <= b <= v.len(),
            nonblank_end(v@, v@.len() as int) == nonblank_end(v@, b as int),
            a as int == nonblank_start(v@, 0),
        decreases b,
    {
        b -= 1;
    }
    if a >= b {
        proof {
            lemma_nonblank_end_le(v@, b as int);
            assert(trimmed(v@) =~= Seq::<char>::empty());
        }
        Vec::new()
    } else {
        proof {
            assert(!is_space(v@[b - 1]));
            assert(nonblank_end(v@, b as int) == b);
        }
        let r = crate::import::copy_range(v, a, b);
        r
    }
}

/// Reads one answer line of the clear-tables prompt: a trimmed `Y`, `y` or
/// empty line consents, `N` or `n` declines, anything else asks again.
pub fn parse_confirmation(line: &str) -> (r: ConfirmChoice)
    ensures
        ({
            let t = trimmed(line@);
            &&& (t =~= "Y"@ || t =~= "y"@ || t.len() == 0) <==> r == ConfirmChoice::Accept
            &&& (t =~= "N"@ || t =~= "n"@) <==> r == ConfirmChoice::Decline
        }),
{
    let v = crate::text::chars_of(line);
    let t = trim_exec(&v);
    proof {
        reveal_strlit("Y");
        reveal_strlit("y");
        reveal_strlit("N");
        reveal_strlit("n");
    }
    if t.len() == 0 {
        return ConfirmChoice::Accept;
    }
    if t.len() == 1 && (t[0] == 'Y' || t[0] == 'y') {
        proof {
            if t@[0] == 'Y' {
                assert(t@ =~= "Y"@);
            } else {
                assert(t@ =~= "y"@);
            }
        }
        return ConfirmChoice::Accept;
    }
    if t.len() == 1 && (t[0] == 'N' || t[0] == 'n') {
        proof {
            if t@[0] == 'N' {
                assert(t@ =~= "N"@);
            } else {
                assert(t@ =~= "n"@);
            }
        }
        return ConfirmChoice::Decline;
    }
    ConfirmChoice::Undecided
}

} // verus!
