use vstd::prelude::*;

verus! {

broadcast use {
    vstd::seq_lib::to_multiset_update,
    vstd::seq_lib::to_multiset_contains,
    vstd::multiset::group_multiset_axioms,
};

/// Exchanges the entries at `a` and `b`; the entries as a multiset stay the same.
fn swap_entries(keys: &mut Vec<u64>, a: usize, b: usize)
    requires
        a < old(keys)@.len(),
        b < old(keys)@.len(),
    ensures
        final(keys)@ == old(keys)@.update(a as int, old(keys)@[b as int]).update(
            b as int,
            old(keys)@[a as int],
        ),
        final(keys)@.to_multiset() == old(keys)@.to_multiset(),
{
    let ghost s0 = keys@;
    let x = keys[a];
    let y = keys[b];
    keys.set(a, y);
    keys.set(b, x);
    proof {
        let s1 = s0.update(a as int, y);
        assert(s1.to_multiset() =~= s0.to_multiset().insert(y).remove(x));
        assert(s1.update(b as int, x).to_multiset() =~= s1.to_multiset().insert(x).remove(
            s1[b as int],
        ));
        assert(s1[b as int] == y);
        assert(s0.contains(x));
        assert(s0.to_multiset().count(x) > 0);
        assert(keys@.to_multiset() =~= s0.to_multiset());
    }
}

/// Rearranges `keys[lo..hi]` around the pivot value `keys[k]`: entries below it
/// first, then the pivot itself, then the remaining entries that are not below it.
/// Returns the pivot's new position. Entries outside `lo..hi` are left alone and
/// no entry is gained or lost.
pub fn partition_around(keys: &mut Vec<u64>, lo: usize, hi: usize, k: usize) -> (mid: usize)
    requires
        lo <= k < hi,
        hi <= old(keys)@.len(),
    ensures
        final(keys)@.len() == old(keys)@.len(),
        final(keys)@.to_multiset() == old(keys)@.to_multiset(),
        forall|q: int|
            0 <= q < old(keys)@.len() && !(lo <= q < hi) ==> #[trigger] final(keys)@[q] == old(
                keys,
            )@[q],
        lo <= mid < hi,
        final(keys)@[mid as int] == old(keys)@[k as int],
        forall|q: int| lo <= q < mid ==> #[trigger] final(keys)@[q] < old(keys)@[k as int],
        forall|q: int| mid <= q < hi ==> #[trigger] final(keys)@[q] >= old(keys)@[k as int],
{
    let ghost s0 = keys@;
    let vk = keys[k];
    let ghost mut p: int = k as int;
    let mut lo2: usize = lo;
    let mut hi2: usize = hi - 1;
    // [lo, lo2) holds entries below vk, (hi2, hi) entries not below it
    while lo2 < hi2
        invariant
            lo <= lo2 <= hi2 + 1,
            hi2 < hi <= keys@.len(),
            keys@.len() == s0.len(),
            keys@.to_multiset() == s0.to_multiset(),
            forall|q: int| 0 <= q < s0.len() && !(lo <= q < hi) ==> #[trigger] keys@[q] == s0[q],
            lo <= p < hi,
            keys@[p] == vk,
            forall|q: int| lo <= q < lo2 ==> #[trigger] keys@[q] < vk,
            forall|q: int| hi2 < q < hi ==> #[trigger] keys@[q] >= vk,
        decreases hi2 + 1 - lo2,
    {
        let vl = keys[lo2];
        let vh = keys[hi2];
        if vl < vk && vk <= vh {
            lo2 = lo2 + 1;
            hi2 = hi2 - 1;
        } else if vl >= vk && vk <= vh {
            hi2 = hi2 - 1;
        } else if vl < vk && vk > vh {
            lo2 = lo2 + 1;
        } else {
            swap_entries(keys, lo2, hi2);
            proof {
                if p == lo2 {
                    p = hi2 as int;
                } else if p == hi2 {
                    p = lo2 as int;
                }
            }
            lo2 = lo2 + 1;
            hi2 = hi2 - 1;
        }
    }
    // at most one undecided entry is left, at lo2
    while keys[lo2] < vk
        invariant
            lo <= lo2 <= p < hi,
            hi2 <= lo2,
            hi <= keys@.len(),
            keys@[p] == vk,
            forall|q: int| lo <= q < lo2 ==> #[trigger] keys@[q] < vk,
            forall|q: int| hi2 < q < hi ==> #[trigger] keys@[q] >= vk,
        decreases p - lo2,
    {
        lo2 = lo2 + 1;
    }
    // bring an entry equal to the pivot to lo2
    let mut i: usize = lo2;
    while keys[i] != vk
        invariant
            lo <= lo2 <= i <= p < hi,
            hi <= keys@.len(),
            keys@[p] == vk,
        decreases p - i,
    {
        i = i + 1;
    }
    let ghost before = keys@;
    swap_entries(keys, lo2, i);
    proof {
        assert forall|q: int| lo2 <= q < hi implies #[trigger] keys@[q] >= vk by {
            if q == i {
                assert(keys@[q] == before[lo2 as int]);
            } else if q != lo2 {
                assert(keys@[q] == before[q]);
            }
        }
        assert forall|q: int| lo <= q < lo2 implies #[trigger] keys@[q] < vk by {
            assert(keys@[q] == before[q]);
        }
        assert forall|q: int| 0 <= q < s0.len() && !(lo <= q < hi) implies #[trigger] keys@[q]
            == s0[q] by {
            assert(keys@[q] == before[q]);
        }
    }
    lo2
}

} // verus!
