use vstd::prelude::*;
use vstd::string::StringSliceAdditionalSpecFns;
use vstd::arithmetic::div_mod::{lemma_div_decreases, lemma_small_mod};
use crate::text::push_char;

verus! {

/// Value of an ASCII digit or letter as a digit, or 36 for anything else.
pub open spec fn digit_value(c: u8) -> int {
    if 48 <= c <= 57 {
        c - 48
    } else if 97 <= c <= 122 {
        c - 97 + 10
    } else if 65 <= c <= 90 {
        c - 65 + 10
    } else {
        36
    }
}

pub open spec fn all_digits(s: Seq<u8>, base: int) -> bool {
    forall|i: int| 0 <= i < s.len() ==> digit_value(#[trigger] s[i]) < base
}

/// Value of a digit string in `base`, most significant digit first.
pub open spec fn digits_value(s: Seq<u8>, base: int) -> int
    decreases s.len(),
{
    if s.len() == 0 {
        0
    } else {
        digits_value(s.drop_last(), base) * base + digit_value(s.last())
    }
}

/// A non-empty digit string of `base` whose value fits in 32 bits.
pub open spec fn digits_number(s: Seq<u8>, base: int) -> Option<nat> {
    if 2 <= base <= 36 && s.len() > 0 && all_digits(s, base) && digits_value(s, base) <= u32::MAX {
        Some(digits_value(s, base) as nat)
    } else {
        None
    }
}

/// A number of `base` that fits in 32 bits: an optional `+` and then digits.
pub open spec fn number_of(s: Seq<u8>, base: int) -> Option<nat> {
    if s.len() > 0 && s[0] == 43u8 {
        digits_number(s.subrange(1, s.len() as int), base)
    } else {
        digits_number(s, base)
    }
}

/// Index of the first `(` at or after `i`, or the length when there is none.
pub open spec fn open_paren(s: Seq<u8>, i: int) -> int
    decreases s.len() - i,
{
    if i >= s.len() {
        s.len() as int
    } else if s[i] == 40u8 {
        i
    } else {
        open_paren(s, i + 1)
    }
}

/// The number that `NUM(BASE)` or a plain decimal `NUM` denotes.
pub open spec fn input_value(s: Seq<u8>) -> Option<nat> {
    let p = open_paren(s, 0);
    if p == s.len() {
        number_of(s, 10)
    } else if s.len() >= p + 2 && s.last() == 41u8 {
        match number_of(s.subrange(p + 1, s.len() - 1), 10) {
            Some(base) => number_of(s.subrange(0, p), base as int),
            None => None,
        }
    } else {
        None
    }
}

pub open spec fn digit_char_of(d: int) -> char {
    if d < 10 {
        ((d + 48) as u8) as char
    } else {
        ((d - 10 + 97) as u8) as char
    }
}

/// Digits of `n` in `base`, lower-case letters above 9, most significant first.
pub open spec fn radix_digits(n: nat, base: nat) -> Seq<char>
    decreases n,
{
    if base < 2 || n < base {
        seq![digit_char_of(n as int)]
    } else {
        proof {
            lemma_div_decreases(n as int, base as int);
        }
        radix_digits(n / base, base).push(digit_char_of((n % base) as int))
    }
}

fn digit_of(c: u8) -> (r: u32)
    ensures
        r == digit_value(c),
{
    if 48 <= c && c <= 57 {
        (c - 48) as u32
    } else if 97 <= c && c <= 122 {
        (c - 97 + 10) as u32
    } else if 65 <= c && c <= 90 {
        (c - 65 + 10) as u32
    } else {
        36
    }
}

/// Reads `s[lo..hi]` as a number in `base`, with an optional leading `+`.
fn parse_number(s: &[u8], lo: usize, hi: usize, base: u32) -> (r: Option<u32>)
    requires
        lo <= hi <= s@.len(),
    ensures
        r matches Some(v) <==> number_of(s@.subrange(lo as int, hi as int), base as int) is Some,
        r matches Some(v) ==> Some(v as nat) == number_of(s@.subrange(lo as int, hi as int), base as int),
{
    if lo < hi && s[lo] == 43u8 {
        assert(s@.subrange(lo as int, hi as int).subrange(1, (hi - lo) as int) =~= s@.subrange(lo + 1, hi as int));
        parse_digits(s, lo + 1, hi, base)
    } else {
        parse_digits(s, lo, hi, base)
    }
}

/// Reads `s[lo..hi]` as a string of digits in `base`.
fn parse_digits(s: &[u8], lo: usize, hi: usize, base: u32) -> (r: Option<u32>)
    requires
        lo <= hi <= s@.len(),
    ensures
        r matches Some(v) <==> digits_number(s@.subrange(lo as int, hi as int), base as int) is Some,
        r matches Some(v) ==> Some(v as nat) == digits_number(s@.subrange(lo as int, hi as int), base as int),
{
    if base < 2 || base > 36 || lo == hi {
        return None;
    }
    let mut value: u32 = 0;
    let mut i: usize = lo;
    while i < hi
        invariant
            lo <= i <= hi <= s@.len(),
            2 <= base <= 36,
            all_digits(s@.subrange(lo as int, i as int), base as int),
            value as int == digits_value(s@.subrange(lo as int, i as int), base as int),
        decreases hi - i,
    {
        let ghost prefix = s@.subrange(lo as int, i as int);
        let ghost next = s@.subrange(lo as int, i + 1);
        assert(next.drop_last() =~= prefix);
        assert(next.last() == s@[i as int]);
        let d = digit_of(s[i]);
        if d >= base {
            proof {
                let whole = s@.subrange(lo as int, hi as int);
                assert(whole[i - lo] == s@[i as int]);
            }
            return None;
        }
        assert((value as int) * (base as int) + (d as int) <= 0xffff_ffff * 36 + 36) by (nonlinear_arith)
            requires
                value <= 0xffff_ffff,
                base <= 36,
                d < 36,
        ;
        let grown = (value as u64) * (base as u64) + (d as u64);
        if grown > 0xffff_ffff {
            proof {
                lemma_value_grows(s@.subrange(lo as int, hi as int), i - lo, base as int);
                assert(s@.subrange(lo as int, hi as int).subrange(0, i + 1 - lo) =~= next);
            }
            return None;
        }
        value = grown as u32;
        i = i + 1;
        assert(all_digits(next, base as int));
    }
    assert(s@.subrange(lo as int, hi as int) =~= s@.subrange(lo as int, i as int));
    Some(value)
}

/// A prefix of a digit string never has a larger value than the whole.
proof fn lemma_value_grows(s: Seq<u8>, k: int, base: int)
    requires
        0 <= k < s.len(),
        2 <= base,
        forall|i: int| 0 <= i < s.len() ==> 0 <= digit_value(#[trigger] s[i]),
    ensures
        digits_value(s.subrange(0, k + 1), base) <= digits_value(s, base),
    decreases s.len(),
{
    assert(s.subrange(0, s.len() as int) =~= s);
    if k + 1 < s.len() {
        let t = s.drop_last();
        lemma_value_grows(t, k, base);
        assert(t.subrange(0, k + 1) =~= s.subrange(0, k + 1));
        lemma_value_nonneg(t, base);
        assert(digits_value(t, base) * base >= digits_value(t, base)) by (nonlinear_arith)
            requires
                digits_value(t, base) >= 0,
                base >= 2,
        ;
    }
}

proof fn lemma_value_nonneg(s: Seq<u8>, base: int)
    requires
        2 <= base,
        forall|i: int| 0 <= i < s.len() ==> 0 <= digit_value(#[trigger] s[i]),
    ensures
        digits_value(s, base) >= 0,
    decreases s.len(),
{
    if s.len() > 0 {
        lemma_value_nonneg(s.drop_last(), base);
        assert(digits_value(s.drop_last(), base) * base >= 0) by (nonlinear_arith)
            requires
                digits_value(s.drop_last(), base) >= 0,
                base >= 2,
        ;
    }
}

fn push_radix(out: &mut String, n: u32, base: u32)
    requires
        2 <= base <= 36,
    ensures
        final(out)@ == old(out)@ + radix_digits(n as nat, base as nat),
    decreases n,
{
    if n >= base {
        proof {
            lemma_div_decreases(n as int, base as int);
        }
        push_radix(out, n / base, base);
    }
    let d = n % base;
    let c = if d < 10 { ((d as u8) + 48) as char } else { ((d as u8) - 10 + 97) as char };
    assert(c == digit_char_of(d as int));
    proof {
        if n < base {
            lemma_small_mod(n as nat, base as nat);
        }
    }
    push_char(out, c);
    assert(out@ =~= old(out)@ + radix_digits(n as nat, base as nat));
}

/// Rewrites `NUM(BASE)`, or a plain decimal `NUM`, in base `to_base`; `None` where the input
/// is not such a number or does not fit in 32 bits. As in std's integer parsing, `NUM` and
/// `BASE` may each start with a `+`.
pub fn convert_base(num_str: &str, to_base: u32) -> (r: Option<String>)
    requires
        2 <= to_base <= 36,
    ensures
        r is Some <==> input_value(num_str.spec_bytes()) is Some,
        r is Some ==> r->0@ == radix_digits(input_value(num_str.spec_bytes())->0, to_base as nat),
{
    let s = num_str.as_bytes();
    let n = s.len();
    let mut p: usize = 0;
    while p < n && s[p] != 40u8
        invariant
            p <= n == s@.len(),
            open_paren(s@, 0) == open_paren(s@, p as int),
        decreases n - p,
    {
        p = p + 1;
    }
    let value = if p == n {
        assert(s@.subrange(0, n as int) =~= s@);
        parse_number(s, 0, n, 10)
    } else if n - p >= 2 && s[n - 1] == 41u8 {
        match parse_number(s, p + 1, n - 1, 10) {
            Some(base) => parse_number(s, 0, p, base),
            None => None,
        }
    } else {
        None
    };
    match value {
        Some(v) => {
            let mut out = String::new();
            push_radix(&mut out, v, to_base);
            assert(out@ =~= radix_digits(v as nat, to_base as nat));
            Some(out)
        },
        None => None,
    }
}

} // verus!
