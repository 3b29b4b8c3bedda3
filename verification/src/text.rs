//! Strings: lowercase forms, lengths in characters, decimal numerals and hash codes.
use vstd::prelude::*;
use vstd::string::StrSliceExecFns;

verus! {

/// The lowercase form of a string, as `str::to_lowercase` computes it.
pub uninterp spec fn lowercase(s: Seq<char>) -> Seq<char>;

/// `str::to_lowercase` returns the lowercase equivalent of the string slice as a new
/// `String`; the result depends on the characters of the slice alone.
pub assume_specification[ str::to_lowercase ](s: &str) -> (r: String)
    ensures
        r@ == lowercase(s@),
;

/// `String::push` appends the given character to the end of the string.
pub assume_specification[ String::push ](s: &mut String, ch: char)
    ensures
        final(s)@ == old(s)@.push(ch),
;

/// `String`'s `hash` feeds the string to the hasher. Nothing is claimed of the hasher's
/// state.
pub assume_specification<H: std::hash::Hasher>[ <String as std::hash::Hash>::hash::<H> ](
    s: &String,
    state: &mut H,
);

/// The decimal digit that stands for `d`, for `d` below ten.
pub open spec fn digit(d: nat) -> char {
    (48 + d) as char
}

/// The decimal numeral of `n`, without leading zeros.
pub open spec fn decimal(n: nat) -> Seq<char>
    decreases n,
{
    if n < 10 {
        seq![digit(n)]
    } else {
        decimal(n / 10).push(digit(n % 10))
    }
}

/// Whether `c` is a decimal digit.
pub open spec fn is_digit(c: char) -> bool {
    '0' <= c <= '9'
}

/// A decimal numeral holds digits only, and at least one.
pub proof fn lemma_decimal_digits(n: nat)
    ensures
        decimal(n).len() >= 1,
        forall|i: int| 0 <= i < decimal(n).len() ==> is_digit(#[trigger] decimal(n)[i]),
    decreases n,
{
    if n >= 10 {
        lemma_decimal_digits(n / 10);
    }
}

/// Different numbers have different decimal numerals.
pub proof fn lemma_decimal_injective(a: nat, b: nat)
    requires
        decimal(a) == decimal(b),
    ensures
        a == b,
    decreases a,
{
    if a >= 10 && b >= 10 {
        let x = decimal(a / 10);
        let y = decimal(b / 10);
        assert(x =~= x.push(digit(a % 10)).drop_last());
        assert(y =~= y.push(digit(b % 10)).drop_last());
        assert(digit(a % 10) == x.push(digit(a % 10)).last());
        assert(digit(b % 10) == y.push(digit(b % 10)).last());
        lemma_decimal_injective(a / 10, b / 10);
        assert(digit(a % 10) as int == 48 + a % 10);
        assert(digit(b % 10) as int == 48 + b % 10);
    } else if a < 10 && b < 10 {
        assert(decimal(a)[0] == digit(a));
        assert(decimal(b)[0] == digit(b));
        assert(digit(a) as int == 48 + a);
        assert(digit(b) as int == 48 + b);
    } else if a < 10 {
        assert(decimal(b).len() == decimal(b / 10).len() + 1);
    } else {
        assert(decimal(a).len() == decimal(a / 10).len() + 1);
    }
}

/// The hash code of the empty string: the offset basis of the 64-bit FNV hash.
pub const HASH_SEED: u64 = 0xcbf29ce484222325;

/// The factor by which a hash code is multiplied for each character: the prime of the
/// 64-bit FNV hash.
pub const HASH_FACTOR: u64 = 0x100000001b3;

/// The hash code of a string whose hash code was `h`, after the character `c` has
/// joined it: `h` combined with the code point of `c`, times the factor, modulo 2^64.
pub open spec fn hash_step(h: u64, c: char) -> u64 {
    (((h ^ (c as u64)) * HASH_FACTOR) % 0x1_0000_0000_0000_0000) as u64
}

/// The hash code of a string: the FNV-1a hash of the code points of its characters.
pub open spec fn hash_code(s: Seq<char>) -> u64
    decreases s.len(),
{
    if s.len() == 0 {
        HASH_SEED
    } else {
        hash_step(hash_code(s.drop_last()), s.last())
    }
}

/// The characters of `s`, in order, as a vector.
pub fn chars_of(s: &str) -> (v: Vec<char>)
    ensures
        v@ == s@,
{
    let mut v: Vec<char> = Vec::new();
    let chars = s.chars();
    for c in it: chars
        invariant
            it.seq() == s@,
            v@ == it.seq().take(it.index()),
    {
        v.push(c);
    }
    v
}

/// The hash code of `s`.
pub fn hash_of(s: &str) -> (h: u64)
    ensures
        h == hash_code(s@),
{
    let mut h: u64 = HASH_SEED;
    let chars = s.chars();
    for c in it: chars
        invariant
            it.seq() == s@,
            h == hash_code(s@.take(it.index())),
    {
        proof {
            assert(s@.take(it.index() + 1).drop_last() =~= s@.take(it.index()));
        }
        let mixed: u64 = h ^ (c as u64);
        h = ((mixed as u128 * HASH_FACTOR as u128) % 0x1_0000_0000_0000_0000u128) as u64;
    }
    proof {
        assert(s@.take(s@.len() as int) =~= s@);
    }
    h
}

/// The length of `s`: the number of its characters.
pub fn char_count(s: &str) -> (n: usize)
    ensures
        n == s@.len(),
{
    s.unicode_len()
}

/// Appends the decimal numeral of `n` to `out`.
pub fn push_decimal(out: &mut String, n: usize)
    ensures
        final(out)@ == old(out)@ + decimal(n as nat),
    decreases n,
{
    if n >= 10 {
        push_decimal(out, n / 10);
    }
    let d: u8 = (n % 10) as u8;
    out.push((48u8 + d) as char);
}

} // verus!
