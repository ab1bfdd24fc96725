use vstd::prelude::*;
use vstd::string::StringSliceAdditionalSpecFns;

verus! {

pub open spec fn has_comma(s: Seq<u8>) -> bool {
    exists|i: int| 0 <= i < s.len() && s[i] == 44u8
}

/// Index of the last comma of `s`, or -1.
pub open spec fn last_comma(s: Seq<u8>, i: int) -> int
    decreases i,
{
    if i <= 0 {
        -1
    } else if s[i - 1] == 44u8 {
        i - 1
    } else {
        last_comma(s, i - 1)
    }
}

/// The comma-separated fields of `s`, in order; a text without commas is one field.
pub open spec fn fields(s: Seq<u8>) -> Seq<Seq<u8>>
    decreases s.len(),
{
    let p = last_comma(s, s.len() as int);
    if p < 0 || p >= s.len() {
        seq![s]
    } else {
        fields(s.subrange(0, p)).push(s.subrange(p + 1, s.len() as int))
    }
}

proof fn lemma_last_comma_bounds(s: Seq<u8>, i: int)
    requires
        0 <= i <= s.len(),
    ensures
        -1 <= last_comma(s, i) < i,
        last_comma(s, i) >= 0 ==> s[last_comma(s, i)] == 44u8,
        forall|k: int| last_comma(s, i) < k < i ==> s[k] != 44u8,
    decreases i,
{
    if i > 0 {
        lemma_last_comma_bounds(s, i - 1);
    }
}

proof fn lemma_last_comma_prefix(s: Seq<u8>, t: Seq<u8>, i: int)
    requires
        0 <= i <= t.len(),
        t.len() <= s.len(),
        forall|k: int| 0 <= k < t.len() ==> t[k] == s[k],
    ensures
        last_comma(t, i) == last_comma(s, i),
    decreases i,
{
    if i > 0 {
        lemma_last_comma_prefix(s, t, i - 1);
    }
}

/// Fields of `s[0..end]`, where `s[start..end]` holds no comma and `s[start - 1]` is one.
proof fn lemma_fields_split(s: Seq<u8>, start: int, end: int)
    requires
        0 <= start <= end <= s.len(),
        start > 0 ==> s[start - 1] == 44u8,
        forall|k: int| start <= k < end ==> s[k] != 44u8,
    ensures
        start == 0 ==> fields(s.subrange(0, end)) == seq![s.subrange(0, end)],
        start > 0 ==> fields(s.subrange(0, end))
            == fields(s.subrange(0, start - 1)).push(s.subrange(start, end)),
{
    let t = s.subrange(0, end);
    lemma_last_comma_bounds(t, end);
    let p = last_comma(t, end);
    if start == 0 {
        if p >= 0 {
            assert(t[p] == s[p]);
        }
    } else {
        assert(t[start - 1] == s[start - 1]);
        if p < start - 1 {
            assert(t[start - 1] == 44u8);
        }
        if p > start - 1 {
            assert(t[p] == s[p]);
        }
        assert(p == start - 1);
        assert(t.subrange(0, p) =~= s.subrange(0, start - 1));
        assert(t.subrange(p + 1, end) =~= s.subrange(start, end));
    }
}

fn same_bytes(a: &Vec<u8>, b: &[u8], lo: usize, hi: usize) -> (r: bool)
    requires
        lo <= hi <= b@.len(),
    ensures
        r == (a@ == b@.subrange(lo as int, hi as int)),
{
    if a.len() != hi - lo {
        return false;
    }
    let mut i: usize = 0;
    while i < a.len()
        invariant
            a@.len() == hi - lo,
            lo <= hi <= b@.len(),
            i <= a@.len(),
            forall|k: int| 0 <= k < i ==> a@[k] == b@[lo + k],
        decreases a@.len() - i,
    {
        if a[i] != b[lo + i] {
            assert(a@[i as int] != b@.subrange(lo as int, hi as int)[i as int]);
            return false;
        }
        i = i + 1;
    }
    assert(a@ =~= b@.subrange(lo as int, hi as int));
    true
}

fn copy_bytes(b: &[u8], lo: usize, hi: usize) -> (r: Vec<u8>)
    requires
        lo <= hi <= b@.len(),
    ensures
        r@ == b@.subrange(lo as int, hi as int),
{
    let mut r: Vec<u8> = Vec::new();
    let mut i: usize = lo;
    while i < hi
        invariant
            lo <= i <= hi <= b@.len(),
            r@ == b@.subrange(lo as int, i as int),
        decreases hi - i,
    {
        r.push(b[i]);
        i = i + 1;
        assert(r@ =~= b@.subrange(lo as int, i as int));
    }
    r
}

pub open spec fn views(v: Seq<Vec<u8>>) -> Seq<Seq<u8>> {
    v.map_values(|x: Vec<u8>| x@)
}

/// Adds `s[lo..hi]` to `seen` unless it is there already.
fn note_field(seen: &mut Vec<Vec<u8>>, b: &[u8], lo: usize, hi: usize)
    requires
        lo <= hi <= b@.len(),
        views(old(seen)@).no_duplicates(),
    ensures
        views(final(seen)@).no_duplicates(),
        views(final(seen)@).to_set() == views(old(seen)@).to_set().insert(b@.subrange(lo as int, hi as int)),
{
    let ghost field = b@.subrange(lo as int, hi as int);
    let mut i: usize = 0;
    while i < seen.len()
        invariant
            lo <= hi <= b@.len(),
            i <= seen@.len(),
            seen@ == old(seen)@,
            field == b@.subrange(lo as int, hi as int),
            views(seen@).no_duplicates(),
            forall|k: int| 0 <= k < i ==> seen@[k]@ != field,
        decreases seen@.len() - i,
    {
        if same_bytes(&seen[i], b, lo, hi) {
            proof {
                assert(views(seen@)[i as int] == field);
                assert(views(seen@).to_set().insert(field) =~= views(seen@).to_set());
            }
            return;
        }
        i = i + 1;
    }
    let ghost old_views = views(seen@);
    seen.push(copy_bytes(b, lo, hi));
    proof {
        assert(views(seen@) =~= old_views.push(field));
        assert(!old_views.contains(field));
        assert(views(seen@).to_set() =~= old_views.to_set().insert(field)) by {
            assert forall|x: Seq<u8>| views(seen@).to_set().contains(x) <==> old_views.to_set().insert(field).contains(x) by {
                if views(seen@).contains(x) && x != field {
                    let k = choose|k: int| 0 <= k < views(seen@).len() && views(seen@)[k] == x;
                    assert(old_views[k] == x);
                }
                if old_views.contains(x) {
                    let k = choose|k: int| 0 <= k < old_views.len() && old_views[k] == x;
                    assert(views(seen@)[k] == x);
                }
                if x == field {
                    assert(views(seen@)[old_views.len() as int] == x);
                }
            }
        }
    }
}

/// Number of distinct comma-separated fields of the text.
pub fn new_count_distinct(input_str: &str) -> (r: usize)
    ensures
        r == fields(input_str.spec_bytes()).to_set().len(),
{
    let b = input_str.as_bytes();
    let n = b.len();
    let mut seen: Vec<Vec<u8>> = Vec::new();
    let mut start: usize = 0;
    let mut i: usize = 0;
    assert(views(seen@) =~= Seq::<Seq<u8>>::empty());
    while i < n
        invariant
            n == b@.len(),
            start <= i <= n,
            start > 0 ==> b@[start - 1] == 44u8,
            forall|k: int| start <= k < i ==> b@[k] != 44u8,
            views(seen@).no_duplicates(),
            start == 0 ==> views(seen@).to_set() == Set::<Seq<u8>>::empty(),
            start > 0 ==> views(seen@).to_set() == fields(b@.subrange(0, start - 1)).to_set(),
        decreases n - i,
    {
        if b[i] == 44u8 {
            note_field(&mut seen, b, start, i);
            proof {
                lemma_fields_split(b@, start as int, i as int);
                if start == 0 {
                    Seq::<Seq<u8>>::empty().lemma_push_to_set_commute(b@.subrange(0, i as int));
                    assert(seq![b@.subrange(0, i as int)] =~= Seq::<Seq<u8>>::empty().push(b@.subrange(0, i as int)));
                    assert(Seq::<Seq<u8>>::empty().to_set() =~= Set::<Seq<u8>>::empty());
                } else {
                    let f = fields(b@.subrange(0, start - 1));
                    f.lemma_push_to_set_commute(b@.subrange(start as int, i as int));
                }
                assert(b@.subrange(0, i as int) == b@.subrange(0, (i + 1) - 1));
            }
            start = i + 1;
        }
        i = i + 1;
    }
    note_field(&mut seen, b, start, n);
    proof {
        lemma_fields_split(b@, start as int, n as int);
        assert(b@.subrange(0, n as int) =~= b@);
        if start == 0 {
            Seq::<Seq<u8>>::empty().lemma_push_to_set_commute(b@);
            assert(seq![b@] =~= Seq::<Seq<u8>>::empty().push(b@));
            assert(Seq::<Seq<u8>>::empty().to_set() =~= Set::<Seq<u8>>::empty());
        } else {
            let f = fields(b@.subrange(0, start - 1));
            f.lemma_push_to_set_commute(b@.subrange(start as int, n as int));
        }
        views(seen@).unique_seq_to_set();
    }
    seen.len()
}

} // verus!
