use vstd::prelude::*;

verus! {

/// The coin denominations available.
pub const COINS: [u32; 8] = [1, 2, 5, 10, 20, 30, 50, 100];

/// Stands for "no way found yet".
pub const UNREACHED: u32 = 0xffff_ffff;

pub open spec fn coin(k: int) -> int {
    COINS@[k] as int
}

/// Fewest coins that sum to `n`.
pub open spec fn fewest_coins(n: nat) -> int
    decreases n, 9int,
{
    if n == 0 {
        0
    } else {
        fewest_using(n, 8)
    }
}

/// Fewest coins that sum to `n` when the first coin is one of the first `k` denominations,
/// or `UNREACHED` when none of them fits.
pub open spec fn fewest_using(n: nat, k: int) -> int
    decreases n, k,
{
    if k <= 0 || k > 8 {
        UNREACHED as int
    } else {
        let prev = fewest_using(n, k - 1);
        let c = coin(k - 1);
        if 1 <= c <= n && fewest_coins((n - c) as nat) + 1 < prev {
            fewest_coins((n - c) as nat) + 1
        } else {
            prev
        }
    }
}

proof fn lemma_fewest_bounds(n: nat)
    requires
        n < UNREACHED,
    ensures
        0 <= fewest_coins(n) <= n,
        n > 0 ==> fewest_coins(n) >= 1,
    decreases n,
{
    if n > 0 {
        lemma_fewest_using_bounds(n, 8);
    }
}

proof fn lemma_fewest_using_bounds(n: nat, k: int)
    requires
        0 < n < UNREACHED,
        1 <= k <= 8,
    ensures
        1 <= fewest_using(n, k) <= n,
    decreases n, k,
{
    assert(COINS@[0] == 1);
    if k > 1 {
        lemma_fewest_using_bounds(n, k - 1);
    }
    let c = coin(k - 1);
    if 1 <= c <= n {
        lemma_fewest_bounds((n - c) as nat);
    }
    if k == 1 {
        lemma_fewest_bounds((n - 1) as nat);
        assert(fewest_using(n, 0) == UNREACHED as int);
        assert(coin(0) == 1);
    }
}

/// Fewest coins of the denominations `COINS` that sum to `amount`.
pub fn dp_rec_mc(amount: u32) -> (r: u32)
    requires
        amount < UNREACHED,
    ensures
        r == fewest_coins(amount as nat),
{
    let mut dp: Vec<u32> = Vec::new();
    dp.push(0);
    let mut i: u32 = 1;
    while i <= amount
        invariant
            1 <= i <= amount + 1,
            amount < UNREACHED,
            dp@.len() == i,
            forall|j: int| 0 <= j < i ==> dp@[j] == fewest_coins(j as nat),
        decreases amount + 1 - i,
    {
        let mut best: u32 = UNREACHED;
        let mut k: usize = 0;
        while k < 8
            invariant
                1 <= i <= amount,
                dp@.len() == i,
                forall|j: int| 0 <= j < i ==> dp@[j] == fewest_coins(j as nat),
                k <= 8,
                best == fewest_using(i as nat, k as int),
            decreases 8 - k,
        {
            let c = COINS[k];
            if 1 <= c && c <= i {
                let prev = dp[(i - c) as usize];
                proof {
                    lemma_fewest_bounds((i - c) as nat);
                }
                if prev != UNREACHED && prev + 1 < best {
                    best = prev + 1;
                }
            }
            k = k + 1;
        }
        dp.push(best);
        i = i + 1;
    }
    dp[amount as usize]
}

} // verus!
