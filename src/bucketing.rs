//! The arithmetic of a stable counting sort: where each entry of a sequence of keys lands when
//! the entries are grouped by key, smaller keys first, and kept in their order within a group.
use vstd::prelude::*;

verus! {

/// The number of entries of `s` that are smaller than `v`.
pub open spec fn count_below(s: Seq<nat>, v: nat) -> nat
    decreases s.len(),
{
    if s.len() == 0 {
        0
    } else {
        count_below(s.drop_last(), v) + if s.last() < v {
            1nat
        } else {
            0nat
        }
    }
}

/// The number of entries of `s` that are equal to `v`.
pub open spec fn count_equal(s: Seq<nat>, v: nat) -> nat
    decreases s.len(),
{
    if s.len() == 0 {
        0
    } else {
        count_equal(s.drop_last(), v) + if s.last() == v {
            1nat
        } else {
            0nat
        }
    }
}

/// The position that a stable sort by key gives to entry `e` of `s`: after every entry with a
/// smaller key, and after every earlier entry with the same key.
pub open spec fn sorted_position(s: Seq<nat>, e: int) -> nat {
    count_below(s, s[e]) + count_equal(s.take(e), s[e])
}

/// Whether the keys never decrease.
pub open spec fn keys_sorted(s: Seq<nat>) -> bool {
    forall|i: int, j: int| 0 <= i <= j < s.len() ==> s[i] <= s[j]
}

/// Taking one more entry adds that entry to both counts.
pub proof fn lemma_count_step(s: Seq<nat>, e: int, v: nat)
    requires
        0 <= e < s.len(),
    ensures
        count_below(s.take(e + 1), v) == count_below(s.take(e), v) + if s[e] < v {
            1nat
        } else {
            0nat
        },
        count_equal(s.take(e + 1), v) == count_equal(s.take(e), v) + if s[e] == v {
            1nat
        } else {
            0nat
        },
{
    assert(s.take(e + 1).drop_last() =~= s.take(e));
}

/// Counting over the whole sequence is counting over its longest prefix.
pub proof fn lemma_take_all(s: Seq<nat>)
    ensures
        s.take(s.len() as int) == s,
{
    assert(s.take(s.len() as int) =~= s);
}

/// No entry is smaller than zero.
pub proof fn lemma_count_below_zero(s: Seq<nat>)
    ensures
        count_below(s, 0) == 0,
    decreases s.len(),
{
    if s.len() > 0 {
        lemma_count_below_zero(s.drop_last());
    }
}

/// The entries below `v + 1` are those below `v` and those equal to `v`.
pub proof fn lemma_count_below_next(s: Seq<nat>, v: nat)
    ensures
        count_below(s, v + 1) == count_below(s, v) + count_equal(s, v),
    decreases s.len(),
{
    if s.len() > 0 {
        lemma_count_below_next(s.drop_last(), v);
    }
}

/// Counting below a larger bound counts at least as many entries.
pub proof fn lemma_count_below_monotone(s: Seq<nat>, v: nat, w: nat)
    requires
        v <= w,
    ensures
        count_below(s, v) <= count_below(s, w),
    decreases s.len(),
{
    if s.len() > 0 {
        lemma_count_below_monotone(s.drop_last(), v, w);
    }
}

/// When every entry is below `v`, all of them are counted.
pub proof fn lemma_count_below_all(s: Seq<nat>, v: nat)
    requires
        forall|i: int| 0 <= i < s.len() ==> #[trigger] s[i] < v,
    ensures
        count_below(s, v) == s.len(),
    decreases s.len(),
{
    if s.len() > 0 {
        lemma_count_below_all(s.drop_last(), v);
    }
}

/// The entries below a bound are at most all entries.
pub proof fn lemma_count_below_bound(s: Seq<nat>, v: nat)
    ensures
        count_below(s, v) <= s.len(),
    decreases s.len(),
{
    if s.len() > 0 {
        lemma_count_below_bound(s.drop_last(), v);
    }
}

/// A count never exceeds the length.
pub proof fn lemma_count_equal_bound(s: Seq<nat>, v: nat)
    ensures
        count_equal(s, v) <= s.len(),
    decreases s.len(),
{
    if s.len() > 0 {
        lemma_count_equal_bound(s.drop_last(), v);
    }
}

/// A longer prefix holds at least as many entries equal to `v`.
pub proof fn lemma_count_equal_prefix_monotone(s: Seq<nat>, i: int, j: int, v: nat)
    requires
        0 <= i <= j <= s.len(),
    ensures
        count_equal(s.take(i), v) <= count_equal(s.take(j), v),
    decreases j - i,
{
    if i < j {
        lemma_count_equal_prefix_monotone(s, i, j - 1, v);
        lemma_count_step(s, j - 1, v);
    }
}

/// The entries before `e` with the key of `e` are fewer than all entries with that key.
pub proof fn lemma_earlier_equal_fewer(s: Seq<nat>, e: int)
    requires
        0 <= e < s.len(),
    ensures
        count_equal(s.take(e), s[e]) < count_equal(s, s[e]),
{
    lemma_count_step(s, e, s[e]);
    lemma_count_equal_prefix_monotone(s, e + 1, s.len() as int, s[e]);
    lemma_take_all(s);
}

/// An entry lands within the group of its key: at or after every smaller key, and before every
/// larger key.
pub proof fn lemma_sorted_position_in_group(s: Seq<nat>, e: int)
    requires
        0 <= e < s.len(),
    ensures
        count_below(s, s[e]) <= sorted_position(s, e) < count_below(s, s[e] + 1),
{
    lemma_earlier_equal_fewer(s, e);
    lemma_count_below_next(s, s[e]);
}

/// A position lies below the number of entries whose keys are below `bound`, when all keys are.
pub proof fn lemma_sorted_position_bound(s: Seq<nat>, e: int, bound: nat)
    requires
        0 <= e < s.len(),
        forall|i: int| 0 <= i < s.len() ==> #[trigger] s[i] < bound,
    ensures
        sorted_position(s, e) < s.len(),
{
    lemma_sorted_position_in_group(s, e);
    lemma_count_below_monotone(s, s[e] + 1, bound);
    lemma_count_below_all(s, bound);
}

/// Different entries land at different positions.
pub proof fn lemma_sorted_position_injective(s: Seq<nat>, e: int, f: int)
    requires
        0 <= e < s.len(),
        0 <= f < s.len(),
        e != f,
    ensures
        sorted_position(s, e) != sorted_position(s, f),
{
    lemma_sorted_position_in_group(s, e);
    lemma_sorted_position_in_group(s, f);
    if s[e] == s[f] {
        if e < f {
            lemma_count_step(s, e, s[e]);
            lemma_count_equal_prefix_monotone(s, e + 1, f, s[e]);
        } else {
            lemma_count_step(s, f, s[f]);
            lemma_count_equal_prefix_monotone(s, f + 1, e, s[f]);
        }
    } else if s[e] < s[f] {
        lemma_count_below_monotone(s, s[e] + 1, s[f]);
    } else {
        lemma_count_below_monotone(s, s[f] + 1, s[e]);
    }
}

/// Of two entries with the same key, the earlier one lands first.
pub proof fn lemma_sorted_position_stable(s: Seq<nat>, e: int, f: int)
    requires
        0 <= e < f < s.len(),
        s[e] == s[f],
    ensures
        sorted_position(s, e) < sorted_position(s, f),
{
    lemma_count_step(s, e, s[e]);
    lemma_count_equal_prefix_monotone(s, e + 1, f, s[e]);
}

/// On keys that never decrease, every entry stays where it is.
pub proof fn lemma_sorted_position_of_sorted(s: Seq<nat>, e: int)
    requires
        0 <= e < s.len(),
        keys_sorted(s),
    ensures
        sorted_position(s, e) == e,
{
    let v = s[e];
    // The earlier entries are all at most `v`.
    assert forall|i: int| 0 <= i < s.take(e).len() implies #[trigger] s.take(e)[i] < v + 1 by {
        assert(s.take(e)[i] == s[i]);
    }
    lemma_count_below_all(s.take(e), v + 1);
    lemma_count_below_next(s.take(e), v);
    // The later entries are all at least `v`, so they add nothing below `v`.
    lemma_count_below_later(s, e, s.len() as int, v);
    lemma_take_all(s);
}

/// Entries from `e` on that are at least `v` add nothing to the count below `v`.
proof fn lemma_count_below_later(s: Seq<nat>, e: int, k: int, v: nat)
    requires
        0 <= e <= k <= s.len(),
        forall|i: int| e <= i < s.len() ==> #[trigger] s[i] >= v,
    ensures
        count_below(s.take(k), v) == count_below(s.take(e), v),
    decreases k - e,
{
    if e < k {
        lemma_count_below_later(s, e, k - 1, v);
        lemma_count_step(s, k - 1, v);
    }
}

/// A bound above every key of `s`.
pub open spec fn key_bound(s: Seq<nat>) -> nat
    decreases s.len(),
{
    if s.len() == 0 {
        0
    } else if key_bound(s.drop_last()) > s.last() {
        key_bound(s.drop_last())
    } else {
        s.last() + 1
    }
}

proof fn lemma_key_bound(s: Seq<nat>)
    ensures
        forall|i: int| 0 <= i < s.len() ==> #[trigger] s[i] < key_bound(s),
    decreases s.len(),
{
    if s.len() > 0 {
        lemma_key_bound(s.drop_last());
        assert forall|i: int| 0 <= i < s.len() implies #[trigger] s[i] < key_bound(s) by {
            if i < s.len() - 1 {
                assert(s[i] == s.drop_last()[i]);
            }
        }
    }
}

/// Some key `v` below `bound` has its group around position `p`.
proof fn lemma_group_of_position(s: Seq<nat>, p: nat, bound: nat)
    requires
        p < count_below(s, bound),
    ensures
        exists|v: nat| v < bound && count_below(s, v) <= p < #[trigger] count_below(s, v + 1),
    decreases bound,
{
    lemma_count_below_zero(s);
    if count_below(s, (bound - 1) as nat) <= p {
        assert(count_below(s, (bound - 1) as nat) <= p < count_below(s, ((bound - 1) as nat + 1) as nat));
    } else {
        lemma_group_of_position(s, p, (bound - 1) as nat);
    }
}

/// For every `k` below the number of entries with key `v`, some entry with key `v` has exactly
/// `k` earlier entries with that key.
proof fn lemma_entry_with_rank(s: Seq<nat>, v: nat, k: nat)
    requires
        k < count_equal(s, v),
    ensures
        exists|e: int| 0 <= e < s.len() && s[e] == v && #[trigger] count_equal(s.take(e), v) == k,
    decreases s.len(),
{
    let t = s.drop_last();
    if k < count_equal(t, v) {
        lemma_entry_with_rank(t, v, k);
        let e = choose|e: int| 0 <= e < t.len() && t[e] == v && #[trigger] count_equal(t.take(e), v) == k;
        assert(s.take(e) =~= t.take(e));
        assert(s[e] == t[e]);
    } else {
        assert(s.take(s.len() - 1) =~= t);
        assert(s[s.len() - 1] == v && count_equal(s.take(s.len() - 1), v) == k);
    }
}

/// Every position is taken by some entry: together with injectivity, a stable sort permutes
/// the entries.
pub proof fn lemma_sorted_position_onto(s: Seq<nat>, p: nat)
    requires
        p < s.len(),
    ensures
        exists|e: int| 0 <= e < s.len() && #[trigger] sorted_position(s, e) == p,
{
    lemma_key_bound(s);
    lemma_count_below_all(s, key_bound(s));
    lemma_group_of_position(s, p, key_bound(s));
    let v = choose|v: nat| v < key_bound(s) && count_below(s, v) <= p < #[trigger] count_below(s, v + 1);
    lemma_count_below_next(s, v);
    let k = (p - count_below(s, v)) as nat;
    lemma_entry_with_rank(s, v, k);
    let e = choose|e: int| 0 <= e < s.len() && s[e] == v && #[trigger] count_equal(s.take(e), v) == k;
    assert(sorted_position(s, e) == p);
}

} // verus!
