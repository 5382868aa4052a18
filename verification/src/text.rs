//! Character-level text helpers: moving between `String` and `Vec<char>`.

use vstd::prelude::*;

verus! {

/// Relies on `String::push`: appends exactly one character to the string.
#[verifier::external_body]
pub(crate) fn push_char(s: &mut String, c: char)
    ensures
        final(s)@ == old(s)@.push(c),
{
    s.push(c);
}

/// The characters of a string slice, in order.
pub fn chars_of(s: &str) -> (r: Vec<char>)
    ensures
        r@ == s@,
{
    let n = s.unicode_len();
    let mut r: Vec<char> = Vec::new();
    let mut i: usize = 0;
    while i < n
        invariant
            n == s@.len(),
            i <= n,
            r@ == s@.take(i as int),
        decreases n - i,
    {
        r.push(s.get_char(i));
        proof {
            assert(s@.take(i + 1) =~= s@.take(i as int).push(s@[i as int]));
        }
        i += 1;
    }
    proof {
        assert(s@.take(n as int) =~= s@);
    }
    r
}

/// The character for one decimal digit.
pub open spec fn digit_char(d: nat) -> char {
    if d == 0 {
        '0'
    } else if d == 1 {
        '1'
    } else if d == 2 {
        '2'
    } else if d == 3 {
        '3'
    } else if d == 4 {
        '4'
    } else if d == 5 {
        '5'
    } else if d == 6 {
        '6'
    } else if d == 7 {
        '7'
    } else if d == 8 {
        '8'
    } else {
        '9'
    }
}

/// The decimal digits of a natural number, most significant first.
pub open spec fn dec_digits(n: nat) -> Seq<char>
    decreases n,
{
    if n < 10 {
        seq![digit_char(n)]
    } else {
        dec_digits(n / 10).push(digit_char(n % 10))
    }
}

/// The decimal rendering of an integer, with a leading minus sign when
/// negative.
pub open spec fn int_str(n: int) -> Seq<char> {
    if n < 0 {
        seq!['-'] + dec_digits((-n) as nat)
    } else {
        dec_digits(n as nat)
    }
}

fn digit_exec(d: u64) -> (c: char)
    requires
        d < 10,
    ensures
        c == digit_char(d as nat),
{
    if d == 0 {
        '0'
    } else if d == 1 {
        '1'
    } else if d == 2 {
        '2'
    } else if d == 3 {
        '3'
    } else if d == 4 {
        '4'
    } else if d == 5 {
        '5'
    } else if d == 6 {
        '6'
    } else if d == 7 {
        '7'
    } else if d == 8 {
        '8'
    } else {
        '9'
    }
}

/// The decimal digits of `n`, most significant first.
fn dec_chars(n: u64) -> (r: Vec<char>)
    ensures
        r@ == dec_digits(n as nat),
    decreases n,
{
    if n < 10 {
        let mut r: Vec<char> = Vec::new();
        r.push(digit_exec(n));
        proof {
            assert(r@ =~= dec_digits(n as nat));
        }
        r
    } else {
        let mut r = dec_chars(n / 10);
        r.push(digit_exec(n % 10));
        r
    }
}

/// The decimal rendering of a signed integer, as characters.
pub fn int_chars(n: i64) -> (r: Vec<char>)
    ensures
        r@ == int_str(n as int),
{
    if n >= 0 {
        dec_chars(n as u64)
    } else {
        let mag: u64 = (-(n as i128)) as u64;
        proof {
            assert(mag as int == -(n as int));
        }
        let mut r: Vec<char> = Vec::new();
        r.push('-');
        let mut d = dec_chars(mag);
        r.append(&mut d);
        proof {
            assert(r@ =~= int_str(n as int));
        }
        r
    }
}

/// A string holding exactly the given characters.
pub fn string_of(v: &Vec<char>) -> (r: String)
    ensures
        r@ == v@,
{
    let mut r = String::new();
    let mut i: usize = 0;
    while i < v.len()
        invariant
            i <= v.len(),
            r@ == v@.take(i as int),
        decreases v.len() - i,
    {
        push_char(&mut r, v[i]);
        proof {
            assert(v@.take(i + 1) =~= v@.take(i as int).push(v@[i as int]));
        }
        i += 1;
    }
    proof {
        assert(v@.take(v@.len() as int) =~= v@);
    }
    r
}

/// Strict lexicographic order on character sequences, by code point.
pub open spec fn lex_lt(a: Seq<char>, b: Seq<char>) -> bool
    decreases a.len(),
{
    if b.len() == 0 {
        false
    } else if a.len() == 0 {
        true
    } else if a[0] != b[0] {
        (a[0] as u32) < (b[0] as u32)
    } else {
        lex_lt(a.drop_first(), b.drop_first())
    }
}

/// Of two distinct sequences one is strictly below the other.
pub proof fn lemma_lex_connected(a: Seq<char>, b: Seq<char>)
    ensures
        lex_lt(a, b) || lex_lt(b, a) || a == b,
    decreases a.len(),
{
    if a.len() == 0 && b.len() == 0 {
        assert(a =~= b);
    }
    if a.len() > 0 && b.len() > 0 && a[0] != b[0] && (a[0] as u32) == (b[0] as u32) {
        vstd::utf8::char_u32_cast(a[0], a[0] as u32);
        vstd::utf8::char_u32_cast(b[0], b[0] as u32);
    }
    if a.len() > 0 && b.len() > 0 && a[0] == b[0] {
        lemma_lex_connected(a.drop_first(), b.drop_first());
        if a.drop_first() == b.drop_first() {
            assert(a.drop_first().len() == b.drop_first().len());
            assert(a.len() == b.len());
            assert forall|i: int| 0 <= i < a.len() implies a[i] == b[i] by {
                if i >= 1 {
                    assert(a[i] == a.drop_first()[i - 1]);
                    assert(b[i] == b.drop_first()[i - 1]);
                }
            }
            assert(a =~= b);
        }
    }
}

/// Nothing is strictly below itself.
pub proof fn lemma_lex_irrefl(a: Seq<char>)
    ensures
        !lex_lt(a, a),
    decreases a.len(),
{
    if a.len() > 0 {
        lemma_lex_irrefl(a.drop_first());
    }
}

/// The order is transitive.
pub proof fn lemma_lex_trans(a: Seq<char>, b: Seq<char>, c: Seq<char>)
    requires
        lex_lt(a, b),
        lex_lt(b, c),
    ensures
        lex_lt(a, c),
    decreases a.len(),
{
    if a.len() > 0 && b.len() > 0 && c.len() > 0 {
        if a[0] == b[0] && b[0] == c[0] {
            lemma_lex_trans(a.drop_first(), b.drop_first(), c.drop_first());
        }
    }
}

/// Decides the strict lexicographic order on two strings.
pub fn str_lt(a: &String, b: &String) -> (r: bool)
    ensures
        r == lex_lt(a@, b@),
{
    let an = a.as_str().unicode_len();
    let bn = b.as_str().unicode_len();
    let mut i: usize = 0;
    proof {
        assert(a@.skip(0) =~= a@);
        assert(b@.skip(0) =~= b@);
    }
    loop
        invariant
            an == a@.len(),
            bn == b@.len(),
            i <= an,
            i <= bn,
            lex_lt(a@, b@) == lex_lt(a@.skip(i as int), b@.skip(i as int)),
        decreases an - i,
    {
        if i == bn {
            return false;
        }
        if i == an {
            return true;
        }
        proof {
            assert(a@.skip(i as int).drop_first() =~= a@.skip(i + 1));
            assert(b@.skip(i as int).drop_first() =~= b@.skip(i + 1));
        }
        let ca = a.as_str().get_char(i);
        let cb = b.as_str().get_char(i);
        if ca as u32 != cb as u32 {
            proof {
                assert(a@.skip(i as int)[0] == a@[i as int]);
                assert(b@.skip(i as int)[0] == b@[i as int]);
            }
            return (ca as u32) < (cb as u32);
        }
        proof {
            assert(a@.skip(i as int)[0] == b@.skip(i as int)[0]);
        }
        i += 1;
    }
}

/// Every element of the sequence with `x` inserted is an old element or `x`.
pub proof fn lemma_insert_contains<A>(s: Seq<A>, j: int, x: A)
    requires
        0 <= j <= s.len(),
    ensures
        forall|y: A| s.insert(j, x).contains(y) <==> (s.contains(y) || y == x),
{
    let t = s.insert(j, x);
    assert forall|y: A| t.contains(y) implies (s.contains(y) || y == x) by {
        let k = choose|k: int| 0 <= k < t.len() && t[k] == y;
        if k < j {
            assert(s[k] == y);
        } else if k > j {
            assert(s[k - 1] == y);
        }
    }
    assert forall|y: A| s.contains(y) || y == x implies t.contains(y) by {
        if y == x {
            assert(t[j] == y);
        } else {
            let k = choose|k: int| 0 <= k < s.len() && s[k] == y;
            if k < j {
                assert(t[k] == y);
            } else {
                assert(t[k + 1] == y);
            }
        }
    }
}

/// The tag lists the queries hand out are strictly sorted: ascending and
/// free of duplicates.
pub open spec fn sorted_strict(ts: Seq<Seq<char>>) -> bool {
    forall|i: int, j: int| 0 <= i < j < ts.len() ==> lex_lt(#[trigger] ts[i], #[trigger] ts[j])
}

/// Sorts the names and drops duplicates: the result is strictly ascending
/// and holds exactly the distinct names of the input.
pub fn sort_dedup(names: Vec<String>) -> (r: Vec<String>)
    ensures
        sorted_strict(r.deep_view()),
        forall|y: Seq<char>| #[trigger] r.deep_view().contains(y) <==> names.deep_view().contains(
            y,
        ),
{
    let mut out: Vec<String> = Vec::new();
    let mut i: usize = 0;
    while i < names.len()
        invariant
            i <= names.len(),
            sorted_strict(out.deep_view()),
            forall|y: Seq<char>|
                #[trigger] out.deep_view().contains(y) <==> names.deep_view().take(
                    i as int,
                ).contains(y),
        decreases names.len() - i,
    {
        let x = names[i].clone();
        let ghost dv = out.deep_view();
        let ghost namesdv = names.deep_view();
        let mut j: usize = 0;
        while j < out.len() && str_lt(&out[j], &x)
            invariant
                i < names.len(),
                j <= out.len(),
                dv == out.deep_view(),
                x@ == names.deep_view()[i as int],
                forall|k: int| 0 <= k < j ==> lex_lt(#[trigger] dv[k], x@),
            decreases out.len() - j,
        {
            j += 1;
        }
        proof {
            assert(namesdv.take(i + 1) =~= namesdv.take(i as int).push(namesdv[i as int]));
            assert(x@ == namesdv[i as int]);
            assert forall|y: Seq<char>| namesdv.take(i + 1).contains(y) implies (namesdv.take(
                i as int,
            ).contains(y) || y == x@) by {
                let k = choose|k: int|
                    0 <= k < namesdv.take(i + 1).len() && #[trigger] namesdv.take(i + 1)[k] == y;
                if k < i {
                    assert(namesdv.take(i as int)[k] == y);
                }
            }
            assert forall|y: Seq<char>| namesdv.take(i as int).contains(y) || y == x@ implies
                namesdv.take(i + 1).contains(y) by {
                if y == x@ {
                    assert(namesdv.take(i + 1)[i as int] == y);
                } else {
                    let k = choose|k: int|
                        0 <= k < namesdv.take(i as int).len() && #[trigger] namesdv.take(
                            i as int,
                        )[k] == y;
                    assert(namesdv.take(i + 1)[k] == y);
                }
            }
        }
        let present = j < out.len() && out[j] == x;
        if !present {
            out.insert(j, x);
            proof {
                assert(out.deep_view() =~~= dv.insert(j as int, namesdv[i as int]));
                lemma_insert_contains(dv, j as int, namesdv[i as int]);
                let ndv = out.deep_view();
                assert forall|a: int, b: int| 0 <= a < b < ndv.len() implies lex_lt(
                    #[trigger] ndv[a],
                    #[trigger] ndv[b],
                ) by {
                    if a == j {
                        // x sits below everything from position j on
                        let w = dv[b - 1];
                        if j < dv.len() {
                            lemma_lex_connected(dv[j as int], x@);
                            lemma_lex_irrefl(x@);
                            if b - 1 > j {
                                lemma_lex_trans(x@, dv[j as int], w);
                            }
                        }
                    } else if b == j {
                        assert(lex_lt(dv[a], x@));
                    } else if a < j && b > j {
                        if j < dv.len() {
                            lemma_lex_connected(dv[j as int], x@);
                            lemma_lex_irrefl(x@);
                            if b - 1 > j {
                                lemma_lex_trans(x@, dv[j as int], dv[b - 1]);
                            }
                            lemma_lex_trans(dv[a], x@, dv[b - 1]);
                        }
                    }
                }
                assert forall|y: Seq<char>| #[trigger] out.deep_view().contains(y) <==>
                    namesdv.take(i + 1).contains(y) by {
                    assert(out.deep_view() == dv.insert(j as int, namesdv[i as int]));
                    assert(dv.insert(j as int, namesdv[i as int]).contains(y) <==> (dv.contains(y)
                        || y == namesdv[i as int]));
                    assert(namesdv.take(i + 1)[i as int] == namesdv[i as int]);
                    assert(namesdv.take(i + 1).contains(namesdv[i as int]));
                    if namesdv.take(i as int).contains(y) {
                        assert(namesdv.take(i + 1).contains(y));
                    }
                    if namesdv.take(i + 1).contains(y) {
                        assert(namesdv.take(i as int).contains(y) || y == namesdv[i as int]);
                    }
                }
            }
        } else {
            proof {
                assert(dv.contains(x@)) by {
                    assert(dv[j as int] == x@);
                }
            }
        }
        i += 1;
    }
    proof {
        assert(names.deep_view().take(names.deep_view().len() as int) =~= names.deep_view());
    }
    out
}

} // verus!
