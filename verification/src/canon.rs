//! The canonical form of a multiset of characters.
use crate::text::{decimal, is_digit, lemma_decimal_digits, lemma_decimal_injective};
use vstd::multiset::Multiset;
use vstd::prelude::*;

verus! {

/// One past the largest code point that a character can have.
pub const CODE_POINT_LIMIT: u32 = 0x110000;

/// The part of a canonical form that stands for `n` occurrences of `c`: the character,
/// then the decimal numeral of `n`.
pub open spec fn piece(c: char, n: nat) -> Seq<char> {
    seq![c] + decimal(n)
}

/// The pieces of the characters of `m` whose code point is below `bound`, in ascending
/// order of code point. A code point that is no character contributes nothing.
pub open spec fn canonical_below(m: Multiset<char>, bound: nat) -> Seq<char>
    decreases bound,
{
    if bound == 0 {
        Seq::empty()
    } else {
        let code = (bound - 1) as nat;
        let c = code as char;
        let before = canonical_below(m, code);
        if c as nat == code && m.count(c) > 0 {
            before + piece(c, m.count(c))
        } else {
            before
        }
    }
}

/// The canonical form of a multiset of characters: for each distinct character, in
/// ascending order of code point, the character followed by the number of times it occurs.
pub open spec fn canonical_form(m: Multiset<char>) -> Seq<char> {
    canonical_below(m, CODE_POINT_LIMIT as nat)
}

/// A character's code point is below the limit, and leads back to the character.
pub proof fn lemma_code_point(c: char)
    ensures
        0 <= (c as int) < CODE_POINT_LIMIT,
        (c as nat) == (c as int),
        (c as nat) as char == c,
{
}

/// Where no character with a code point from `lo` up to `hi` occurs, the pieces below
/// `hi` are those below `lo`.
pub proof fn lemma_canonical_gap(m: Multiset<char>, lo: nat, hi: nat)
    requires
        lo <= hi,
        forall|c: char| lo <= c as int && (c as int) < hi ==> m.count(c) == 0,
    ensures
        canonical_below(m, hi) == canonical_below(m, lo),
    decreases hi - lo,
{
    if lo < hi {
        lemma_canonical_gap(m, lo, (hi - 1) as nat);
    }
}

/// The pieces up to and with a character that occurs end in that character's piece.
pub proof fn lemma_canonical_step(m: Multiset<char>, c: char)
    requires
        m.count(c) > 0,
    ensures
        canonical_below(m, c as nat + 1) == canonical_below(m, c as nat) + piece(c, m.count(c)),
{
}

/// Whether no decimal digit occurs in `m`.
pub open spec fn digit_free(m: Multiset<char>) -> bool {
    forall|c: char| m.count(c) > 0 ==> !is_digit(c)
}

/// Two strings that each end in the piece of a character that is no digit are equal
/// only if they end in the same piece, behind the same string.
pub proof fn lemma_last_piece(x: Seq<char>, c: char, n: nat, y: Seq<char>, d: char, k: nat)
    requires
        !is_digit(c),
        !is_digit(d),
        x + piece(c, n) == y + piece(d, k),
    ensures
        x == y,
        c == d,
        n == k,
{
    let s = x + piece(c, n);
    let t = y + piece(d, k);
    let p = decimal(n);
    let q = decimal(k);
    lemma_decimal_digits(n);
    lemma_decimal_digits(k);
    assert(s.len() == x.len() + 1 + p.len());
    assert(t.len() == y.len() + 1 + q.len());
    assert(s[x.len() as int] == c);
    assert(t[y.len() as int] == d);
    if p.len() < q.len() {
        assert(s[x.len() as int] == t[x.len() as int]);
        assert(t[x.len() as int] == q[x.len() - y.len() - 1]);
    }
    if q.len() < p.len() {
        assert(s[y.len() as int] == t[y.len() as int]);
        assert(s[y.len() as int] == p[y.len() - x.len() - 1]);
    }
    assert(x.len() == y.len());
    assert(x =~= y) by {
        assert forall|i: int| 0 <= i < x.len() implies x[i] == y[i] by {
            assert(s[i] == x[i]);
            assert(t[i] == y[i]);
        }
    }
    assert(p =~= q) by {
        assert forall|i: int| 0 <= i < p.len() implies p[i] == q[i] by {
            assert(s[x.len() + 1 + i] == p[i]);
            assert(t[y.len() + 1 + i] == q[i]);
        }
    }
    lemma_decimal_injective(n, k);
}

/// How often `c` occurs in `m`, if its code point is below `bound`; else zero.
spec fn count_below(m: Multiset<char>, bound: nat, c: char) -> nat {
    if (c as int) < bound {
        m.count(c)
    } else {
        0
    }
}

/// Whether a character with the code point just below `bound` occurs in `m`.
spec fn top_occurs(m: Multiset<char>, bound: nat) -> bool {
    bound > 0 && ((bound - 1) as char) as nat == bound - 1 && m.count((bound - 1) as char) > 0
}

/// Without digits, the pieces below a bound tell how often each character below the
/// bound occurs.
proof fn lemma_canonical_below_injective(m: Multiset<char>, a: nat, w: Multiset<char>, b: nat)
    requires
        digit_free(m),
        digit_free(w),
        canonical_below(m, a) == canonical_below(w, b),
    ensures
        forall|c: char| count_below(m, a, c) == count_below(w, b, c),
    decreases a + b,
{
    if a > 0 && !top_occurs(m, a) {
        // Nothing stands for the code point below `a`.
        lemma_canonical_below_injective(m, (a - 1) as nat, w, b);
        assert forall|c: char| count_below(m, a, c) == count_below(w, b, c) by {
            lemma_code_point(c);
        }
    } else if b > 0 && !top_occurs(w, b) {
        // Nothing stands for the code point below `b`.
        lemma_canonical_below_injective(m, a, w, (b - 1) as nat);
        assert forall|c: char| count_below(m, a, c) == count_below(w, b, c) by {
            lemma_code_point(c);
        }
    } else if a > 0 && b > 0 {
        // Both end in a piece: the same piece, behind the same pieces.
        let c = (a - 1) as char;
        let d = (b - 1) as char;
        lemma_last_piece(
            canonical_below(m, (a - 1) as nat),
            c,
            m.count(c),
            canonical_below(w, (b - 1) as nat),
            d,
            w.count(d),
        );
        lemma_canonical_below_injective(m, (a - 1) as nat, w, (b - 1) as nat);
        assert forall|e: char| count_below(m, a, e) == count_below(w, b, e) by {
            if e != c {
                assert(count_below(m, a, e) == count_below(m, (a - 1) as nat, e));
                assert(count_below(w, b, e) == count_below(w, (b - 1) as nat, e));
            }
        }
    } else {
        // One side is empty, so the other does not end in a piece: both are empty.
        assert(a == 0 && b == 0);
        assert forall|c: char| count_below(m, a, c) == count_below(w, b, c) by {
            lemma_code_point(c);
        }
    }
}

/// Two multisets without digits that have the same canonical form are the same.
pub proof fn lemma_canonical_injective(m: Multiset<char>, w: Multiset<char>)
    requires
        digit_free(m),
        digit_free(w),
        canonical_form(m) == canonical_form(w),
    ensures
        m == w,
{
    lemma_canonical_below_injective(m, CODE_POINT_LIMIT as nat, w, CODE_POINT_LIMIT as nat);
    assert forall|c: char| m.count(c) == w.count(c) by {
        lemma_code_point(c);
        assert(count_below(m, CODE_POINT_LIMIT as nat, c) == m.count(c));
        assert(count_below(w, CODE_POINT_LIMIT as nat, c) == w.count(c));
    }
    assert(m =~= w);
}

} // verus!
