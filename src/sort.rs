use vstd::prelude::*;

verus! {

broadcast use vstd::seq_lib::group_to_multiset_ensures;

pub open spec fn sorted_between(s: Seq<i32>, lo: int, hi: int) -> bool {
    forall|a: int, b: int| lo <= a < b < hi ==> s[a] <= s[b]
}

pub open spec fn sorted(s: Seq<i32>) -> bool {
    sorted_between(s, 0, s.len() as int)
}

/// `x` stands somewhere in `s[lo..hi]`.
pub open spec fn occurs(s: Seq<i32>, lo: int, hi: int, x: i32) -> bool {
    exists|j: int| lo <= j < hi && s[j] == x
}

/// Every element of `new` in `lo..hi` was in `old` somewhere in `lo..hi`.
pub open spec fn drawn_from(new: Seq<i32>, old: Seq<i32>, lo: int, hi: int) -> bool {
    forall|k: int| lo <= k < hi ==> occurs(old, lo, hi, #[trigger] new[k])
}

pub open spec fn same_outside(new: Seq<i32>, old: Seq<i32>, lo: int, hi: int) -> bool {
    &&& new.len() == old.len()
    &&& forall|k: int| 0 <= k < new.len() && !(lo <= k < hi) ==> #[trigger] new[k] == old[k]
}

proof fn lemma_drawn_from_trans(a: Seq<i32>, b: Seq<i32>, c: Seq<i32>, lo: int, hi: int)
    requires
        drawn_from(a, b, lo, hi),
        drawn_from(b, c, lo, hi),
    ensures
        drawn_from(a, c, lo, hi),
{
    assert forall|k: int| lo <= k < hi implies occurs(c, lo, hi, #[trigger] a[k]) by {
        assert(occurs(b, lo, hi, a[k]));
        let j1 = choose|j: int| lo <= j < hi && b[j] == a[k];
        assert(occurs(c, lo, hi, b[j1]));
    }
}

proof fn lemma_drawn_from_widen(a: Seq<i32>, b: Seq<i32>, lo: int, hi: int, lo2: int, hi2: int)
    requires
        drawn_from(a, b, lo, hi),
        same_outside(a, b, lo, hi),
        lo2 <= lo,
        hi <= hi2,
        0 <= lo2,
        hi2 <= a.len(),
    ensures
        drawn_from(a, b, lo2, hi2),
{
    assert forall|k: int| lo2 <= k < hi2 implies occurs(b, lo2, hi2, #[trigger] a[k]) by {
        if lo <= k < hi {
            assert(occurs(b, lo, hi, a[k]));
            let j = choose|j: int| lo <= j < hi && b[j] == a[k];
            assert(b[j] == a[k]);
        } else {
            assert(a[k] == b[k]);
        }
    }
}

fn swap(v: &mut Vec<i32>, i: usize, j: usize)
    requires
        i < old(v)@.len(),
        j < old(v)@.len(),
    ensures
        final(v)@ == old(v)@.update(i as int, old(v)@[j as int]).update(j as int, old(v)@[i as int]),
        final(v)@.to_multiset() == old(v)@.to_multiset(),
{
    let a = v[i];
    let b = v[j];
    v.set(i, b);
    v.set(j, a);
    proof {
        let s = old(v)@;
        let t = s.update(i as int, b);
        assert(t.to_multiset() == s.to_multiset().insert(b).remove(a));
        assert(t.update(j as int, a).to_multiset() == t.to_multiset().insert(a).remove(t[j as int]));
        if i == j {
            assert(t.update(j as int, a) =~= s);
        } else {
            assert(t[j as int] == b);
        }
    }
}

/// Lomuto partition of `v[lo..hi]` around its last element: smaller-or-equal elements end
/// up before the returned index, larger ones after it.
pub fn partition(v: &mut Vec<i32>, lo: usize, hi: usize) -> (p: usize)
    requires
        lo < hi <= old(v)@.len(),
    ensures
        lo <= p < hi,
        final(v)@.to_multiset() == old(v)@.to_multiset(),
        same_outside(final(v)@, old(v)@, lo as int, hi as int),
        drawn_from(final(v)@, old(v)@, lo as int, hi as int),
        final(v)@[p as int] == old(v)@[hi - 1],
        forall|k: int| lo <= k < p ==> final(v)@[k] <= final(v)@[p as int],
        forall|k: int| p < k < hi ==> final(v)@[k] > final(v)@[p as int],
{
    let pivot = v[hi - 1];
    let mut i: usize = lo;
    let mut j: usize = lo;
    while j < hi - 1
        invariant
            lo <= i <= j <= hi - 1,
            hi <= v@.len(),
            v@[hi - 1] == pivot,
            v@.to_multiset() == old(v)@.to_multiset(),
            same_outside(v@, old(v)@, lo as int, hi as int),
            drawn_from(v@, old(v)@, lo as int, hi as int),
            forall|k: int| lo <= k < i ==> v@[k] <= pivot,
            forall|k: int| i <= k < j ==> v@[k] > pivot,
        decreases hi - 1 - j,
    {
        if v[j] <= pivot {
            let ghost before = v@;
            swap(v, i, j);
            proof {
                assert(drawn_from(v@, before, lo as int, hi as int)) by {
                    assert forall|k: int| lo <= k < hi implies occurs(before, lo as int, hi as int, #[trigger] v@[k]) by {
                        if k == i {
                            assert(v@[k] == before[j as int]);
                        } else if k == j {
                            assert(v@[k] == before[i as int]);
                        } else {
                            assert(v@[k] == before[k]);
                        }
                    }
                }
                lemma_drawn_from_trans(v@, before, old(v)@, lo as int, hi as int);
            }
            i = i + 1;
        }
        j = j + 1;
    }
    let ghost before = v@;
    swap(v, i, hi - 1);
    proof {
        assert(drawn_from(v@, before, lo as int, hi as int)) by {
            assert forall|k: int| lo <= k < hi implies occurs(before, lo as int, hi as int, #[trigger] v@[k]) by {
                if k == i {
                    assert(v@[k] == before[hi - 1]);
                } else if k == hi - 1 {
                    assert(v@[k] == before[i as int]);
                } else {
                    assert(v@[k] == before[k]);
                }
            }
        }
        lemma_drawn_from_trans(v@, before, old(v)@, lo as int, hi as int);
    }
    i
}

fn quicksort(v: &mut Vec<i32>, lo: usize, hi: usize)
    requires
        lo <= hi <= old(v)@.len(),
    ensures
        final(v)@.to_multiset() == old(v)@.to_multiset(),
        same_outside(final(v)@, old(v)@, lo as int, hi as int),
        drawn_from(final(v)@, old(v)@, lo as int, hi as int),
        sorted_between(final(v)@, lo as int, hi as int),
    decreases hi - lo,
{
    if hi - lo <= 1 {
        assert forall|k: int| lo <= k < hi implies occurs(v@, lo as int, hi as int, #[trigger] v@[k]) by {
            assert(v@[k] == v@[k]);
        }
        return;
    }
    let p = partition(v, lo, hi);
    let ghost parted = v@;
    quicksort(v, lo, p);
    let ghost left = v@;
    quicksort(v, p + 1, hi);
    proof {
        let pv = parted[p as int];
        assert forall|k: int| lo <= k < p implies v@[k] <= pv by {
            assert(v@[k] == left[k]);
            assert(occurs(parted, lo as int, p as int, left[k]));
        }
        assert forall|k: int| p < k < hi implies v@[k] > pv by {
            assert(occurs(left, p + 1, hi as int, v@[k]));
            let j = choose|j: int| p + 1 <= j < hi && left[j] == v@[k];
            assert(left[j] == parted[j]);
        }
        assert(v@[p as int] == pv);
        lemma_drawn_from_widen(left, parted, lo as int, p as int, lo as int, hi as int);
        lemma_drawn_from_widen(v@, left, p + 1, hi as int, lo as int, hi as int);
        lemma_drawn_from_trans(v@, left, parted, lo as int, hi as int);
        lemma_drawn_from_trans(v@, parted, old(v)@, lo as int, hi as int);
    }
}

/// Sorts in place into ascending order by partition-exchange.
pub fn sort(v: &mut Vec<i32>)
    ensures
        sorted(final(v)@),
        final(v)@.to_multiset() == old(v)@.to_multiset(),
{
    let n = v.len();
    quicksort(v, 0, n);
}

} // verus!
