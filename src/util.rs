//! Running sums over sequences of counters.
use vstd::prelude::*;

verus! {

/// The sum of all entries of `s`.
pub open spec fn seq_sum(s: Seq<u32>) -> nat
    decreases s.len(),
{
    if s.len() == 0 {
        0
    } else {
        seq_sum(s.drop_last()) + s.last() as nat
    }
}

/// A sum over a prefix is at most the sum over a longer prefix.
pub proof fn lemma_seq_sum_prefix_monotone(s: Seq<u32>, i: int, j: int)
    requires
        0 <= i <= j <= s.len(),
    ensures
        seq_sum(s.take(i)) <= seq_sum(s.take(j)),
    decreases j - i,
{
    if i < j {
        lemma_seq_sum_prefix_monotone(s, i, j - 1);
        assert(s.take(j).drop_last() =~= s.take(j - 1));
    }
}

/// Sequences that can be replaced by their running sums.
pub trait PrefixSum<T>: Sized {
    /// Whether every running sum of the elements is representable.
    spec fn prefix_sum_fits(&self) -> bool;

    /// Replaces every element by the sum of itself and all elements before it, and returns the
    /// sum of all elements.
    fn prefix_sum(&mut self) -> T
        requires
            old(self).prefix_sum_fits(),
    ;
}

impl PrefixSum<u32> for Vec<u32> {
    open spec fn prefix_sum_fits(&self) -> bool {
        seq_sum(self@) <= u32::MAX
    }

    fn prefix_sum(&mut self) -> (total: u32)
        ensures
            final(self)@.len() == old(self)@.len(),
            forall|i: int|
                0 <= i < old(self)@.len() ==> #[trigger] final(self)@[i] as nat == seq_sum(
                    old(self)@.take(i + 1),
                ),
            total as nat == seq_sum(old(self)@),
    {
        let ghost before = self@;
        let mut accumulator: u32 = 0;
        let mut i: usize = 0;
        while i < self.len()
            invariant
                seq_sum(before) <= u32::MAX,
                self@.len() == before.len(),
                0 <= i <= before.len(),
                accumulator as nat == seq_sum(before.take(i as int)),
                forall|j: int| 0 <= j < i ==> #[trigger] self@[j] as nat == seq_sum(before.take(j + 1)),
                forall|j: int| i <= j < before.len() ==> #[trigger] self@[j] == before[j],
            decreases before.len() - i,
        {
            proof {
                assert(before.take(i + 1).drop_last() =~= before.take(i as int));
                lemma_seq_sum_prefix_monotone(before, i + 1, before.len() as int);
                assert(before.take(before.len() as int) =~= before);
            }
            let value = self[i];
            self.set(i, value + accumulator);
            accumulator = accumulator + value;
            i = i + 1;
        }
        proof {
            assert(before.take(before.len() as int) =~= before);
        }
        accumulator
    }
}

} // verus!
