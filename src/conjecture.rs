use vstd::prelude::*;
use crate::text::{decimal, push_char, push_decimal};

verus! {

/// Numbers below this bound are searched.
pub const SEARCH_LIMIT: usize = 10000;

pub open spec fn is_prime(k: int) -> bool {
    k >= 2 && forall|d: int| 2 <= d < k ==> #[trigger] (k % d) != 0
}

/// `c` is a prime plus twice a positive square.
pub open spec fn prime_plus_twice_square(c: int) -> bool {
    exists|n: int| n >= 1 && 2 * n * n < c && #[trigger] is_prime(c - 2 * n * n)
}

/// An odd composite number that is not a prime plus twice a square.
pub open spec fn counterexample(c: int) -> bool {
    c >= 9 && c % 2 == 1 && !is_prime(c) && !prime_plus_twice_square(c)
}

fn prime_test(k: usize) -> (r: bool)
    ensures
        r == is_prime(k as int),
{
    if k < 2 {
        return false;
    }
    let mut d: usize = 2;
    while d < k
        invariant
            2 <= d <= k,
            forall|e: int| 2 <= e < d ==> #[trigger] (k as int % e) != 0,
        decreases k - d,
    {
        if k % d == 0 {
            return false;
        }
        d = d + 1;
    }
    true
}

fn prime_table() -> (r: Vec<bool>)
    ensures
        r@.len() == SEARCH_LIMIT,
        forall|k: int| 0 <= k < SEARCH_LIMIT ==> r@[k] == is_prime(k),
{
    let mut r: Vec<bool> = Vec::new();
    let mut k: usize = 0;
    while k < SEARCH_LIMIT
        invariant
            k <= SEARCH_LIMIT,
            r@.len() == k,
            forall|j: int| 0 <= j < k ==> r@[j] == is_prime(j),
        decreases SEARCH_LIMIT - k,
    {
        r.push(prime_test(k));
        k = k + 1;
    }
    r
}

proof fn lemma_square_monotone(n: int, m: int)
    requires
        1 <= n <= m,
    ensures
        2 * n * n <= 2 * m * m,
{
    assert(2 * n * n <= 2 * m * m) by (nonlinear_arith)
        requires
            1 <= n <= m,
    ;
}

/// Whether `c` is a prime plus twice a positive square.
fn decomposes(primes: &Vec<bool>, c: usize) -> (r: bool)
    requires
        primes@.len() == SEARCH_LIMIT,
        forall|k: int| 0 <= k < SEARCH_LIMIT ==> primes@[k] == is_prime(k),
        c < SEARCH_LIMIT,
    ensures
        r == prime_plus_twice_square(c as int),
{
    let mut n: usize = 1;
    let mut twice_square: usize = 2;
    while twice_square < c
        invariant
            1 <= n,
            n == 1 || n <= c,
            twice_square == 2 * n * n,
            c < SEARCH_LIMIT,
            primes@.len() == SEARCH_LIMIT,
            forall|k: int| 0 <= k < SEARCH_LIMIT ==> primes@[k] == is_prime(k),
            forall|m: int| 1 <= m < n ==> !#[trigger] is_prime(c - 2 * m * m),
        decreases c - n,
    {
        if primes[c - twice_square] {
            assert(is_prime(c - 2 * n * n));
            return true;
        }
        proof {
            assert(2 * (n + 1) * (n + 1) == 2 * n * n + 4 * n + 2) by (nonlinear_arith);
            assert(n < c) by (nonlinear_arith)
                requires
                    1 <= n,
                    2 * n * n < c,
            ;
        }
        twice_square = twice_square + 4 * n + 2;
        n = n + 1;
    }
    proof {
        assert forall|m: int| m >= 1 && 2 * m * m < c implies !#[trigger] is_prime(c - 2 * m * m) by {
            if m >= n {
                lemma_square_monotone(n as int, m);
            }
        }
    }
    false
}

/// The two smallest odd composite numbers that are not a prime plus twice a square, as
/// `"a,b"`; `None` if fewer than two lie below the search bound.
pub fn goldbach_conjecture() -> (r: Option<String>)
    ensures
        match r {
            Some(s) => exists|a: int, b: int|
                9 <= a < b < SEARCH_LIMIT && counterexample(a) && counterexample(b)
                    && (forall|c: int| 0 <= c < b && c != a ==> !#[trigger] counterexample(c))
                    && s@ == decimal(a as nat) + seq![','] + decimal(b as nat),
            None => forall|a: int, b: int|
                0 <= a < b < SEARCH_LIMIT ==> !(#[trigger] counterexample(a) && #[trigger] counterexample(b)),
        },
{
    let primes = prime_table();
    let mut first: usize = 0;
    let mut c: usize = 9;
    while c < SEARCH_LIMIT
        invariant
            9 <= c <= SEARCH_LIMIT + 1,
            c % 2 == 1,
            primes@.len() == SEARCH_LIMIT,
            forall|k: int| 0 <= k < SEARCH_LIMIT ==> primes@[k] == is_prime(k),
            first == 0 ==> forall|k: int| 0 <= k < c ==> !#[trigger] counterexample(k),
            first != 0 ==> 9 <= first < c && counterexample(first as int)
                && forall|k: int| 0 <= k < c && k != first ==> !#[trigger] counterexample(k),
        decreases SEARCH_LIMIT + 1 - c,
    {
        if !primes[c] && !decomposes(&primes, c) {
            if first == 0 {
                first = c;
            } else {
                let mut s = String::new();
                push_decimal(&mut s, first as u32);
                push_char(&mut s, ',');
                push_decimal(&mut s, c as u32);
                assert(s@ =~= decimal(first as nat) + seq![','] + decimal(c as nat));
                assert(counterexample(c as int));
                assert(9 <= first < c < SEARCH_LIMIT);
                return Some(s);
            }
        }
        proof {
            assert(!counterexample(c + 1));
        }
        c = c + 2;
    }
    None
}

} // verus!
