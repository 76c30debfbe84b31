//! A memory-corruption canary: blocks of a fixed pattern laid down between
//! phases, checked for intactness later.

use vstd::prelude::*;

verus! {

/// A set of guard blocks all filled with one pattern word.
pub struct Barrier {
    pub pattern: u32,
    pub length_barrier: usize,
    pub barriers: Vec<Vec<u32>>,
}

impl Barrier {
    /// Every word of every guard block still holds the pattern.
    pub open spec fn spec_all_intact(&self) -> bool {
        forall|i: int, k: int|
            0 <= i < self.barriers@.len() && 0 <= k < self.barriers@[i]@.len()
                ==> #[trigger] self.barriers@[i]@[k] == self.pattern
    }

    /// Start with no guard blocks.
    pub fn new(pattern: u32, length_barrier: usize) -> (b: Barrier)
        ensures
            b.pattern == pattern,
            b.length_barrier == length_barrier,
            b.barriers@.len() == 0,
    {
        let barriers = Vec::new();
        Barrier { pattern, length_barrier, barriers }
    }

    /// Check that every laid-down block still holds the pattern everywhere.
    pub fn check_barriers(&self) -> (r: bool)
        ensures
            r == self.spec_all_intact(),
    {
        let mut bar_idx: usize = 0;
        while bar_idx < self.barriers.len()
            invariant
                0 <= bar_idx <= self.barriers@.len(),
                forall|i: int, k: int|
                    0 <= i < bar_idx && 0 <= k < self.barriers@[i]@.len()
                        ==> #[trigger] self.barriers@[i]@[k] == self.pattern,
            decreases self.barriers@.len() - bar_idx,
        {
            let bar = &self.barriers[bar_idx];
            let mut val_idx: usize = 0;
            while val_idx < bar.len()
                invariant
                    0 <= val_idx <= bar@.len(),
                    bar == &self.barriers[bar_idx as int],
                    bar_idx < self.barriers@.len(),
                    forall|k: int| 0 <= k < val_idx ==> #[trigger] bar@[k] == self.pattern,
                decreases bar@.len() - val_idx,
            {
                if bar[val_idx] != self.pattern {
                    return false;
                }
                val_idx = val_idx + 1;
            }
            bar_idx = bar_idx + 1;
        }
        true
    }

    /// Lay down one fresh guard block.
    fn create_barrier(&self) -> (v: Vec<u32>)
        ensures
            v@.len() == self.length_barrier,
            forall|k: int| 0 <= k < v@.len() ==> #[trigger] v@[k] == self.pattern,
    {
        let mut bar: Vec<u32> = Vec::new();
        let mut i: usize = 0;
        while i < self.length_barrier
            invariant
                0 <= i <= self.length_barrier,
                bar@.len() == i,
                forall|k: int| 0 <= k < i ==> #[trigger] bar@[k] == self.pattern,
            decreases self.length_barrier - i,
        {
            bar.push(self.pattern);
            i = i + 1;
        }
        bar
    }

    /// Check the existing blocks, then lay down one more.
    pub fn add_barrier(&mut self)
        requires
            old(self).spec_all_intact(),
        ensures
            final(self).pattern == old(self).pattern,
            final(self).length_barrier == old(self).length_barrier,
            final(self).barriers@.len() == old(self).barriers@.len() + 1,
            final(self).spec_all_intact(),
    {
        let ok = self.check_barriers();
        proof {
            assert(ok);
        }
        let bar = self.create_barrier();
        let ghost before = self.barriers@;
        self.barriers.push(bar);
        proof {
            assert forall|i: int, k: int|
                0 <= i < self.barriers@.len() && 0 <= k < self.barriers@[i]@.len() implies #[trigger] self.barriers@[i]@[k]
                == self.pattern by {
                if i < before.len() {
                    assert(self.barriers@[i] == before[i]);
                }
            }
        }
    }
}

} // verus!
