//! The in-memory block window: the dream blocks of the most recent slots,
//! keyed by slot, pruned as the chain advances.

use vstd::prelude::*;

use crate::types::Block;

verus! {

/// How many slots of blocks are kept in memory.
pub const NUM_SLOTS_IN_MEMORY: u64 = 8;

/// The dream blocks one slot produced, by node name.
pub struct SlotBlocks {
    pub slot: u64,
    pub blocks: Vec<(Vec<u8>, Block)>,
}

/// A window of recent slots' blocks, oldest first.
pub struct BlockWindow {
    pub entries: Vec<SlotBlocks>,
}

impl BlockWindow {
    /// Slots are strictly increasing: each slot appears at most once.
    pub open spec fn wf(&self) -> bool {
        forall|k1: int, k2: int|
            0 <= k1 < k2 < self.entries@.len() ==> (#[trigger] self.entries@[k1]).slot
                < (#[trigger] self.entries@[k2]).slot
    }

    /// Does the window hold an entry for this slot?
    pub open spec fn has_slot(&self, slot: u64) -> bool {
        exists|k: int| 0 <= k < self.entries@.len() && (#[trigger] self.entries@[k]).slot == slot
    }

    pub fn new() -> (r: BlockWindow)
        ensures
            r.wf(),
            r.entries@.len() == 0,
    {
        BlockWindow { entries: Vec::new() }
    }

    /// Store one slot's blocks. The slot must be newer than everything
    /// already stored, which the advancing slot clock guarantees.
    pub fn insert(&mut self, slot: u64, blocks: Vec<(Vec<u8>, Block)>)
        requires
            old(self).wf(),
            forall|k: int|
                0 <= k < old(self).entries@.len() ==> (#[trigger] old(self).entries@[k]).slot
                    < slot,
        ensures
            final(self).wf(),
            final(self).entries@.len() == old(self).entries@.len() + 1,
            final(self).entries@.last().slot == slot,
            final(self).entries@.last().blocks == blocks,
            forall|k: int|
                0 <= k < old(self).entries@.len() ==> final(self).entries@[k] == old(
                    self,
                ).entries@[k],
    {
        self.entries.push(SlotBlocks { slot, blocks });
    }

    /// The blocks stored for a slot, if the window holds that slot.
    pub fn get(&self, slot: u64) -> (r: Option<&Vec<(Vec<u8>, Block)>>)
        requires
            self.wf(),
        ensures
            r.is_some() == self.has_slot(slot),
            r matches Some(bs) ==> exists|k: int|
                0 <= k < self.entries@.len() && (#[trigger] self.entries@[k]).slot == slot
                    && self.entries@[k].blocks == *bs,
    {
        let mut i: usize = 0;
        while i < self.entries.len()
            invariant
                0 <= i <= self.entries@.len(),
                forall|k: int| 0 <= k < i ==> (#[trigger] self.entries@[k]).slot != slot,
            decreases self.entries@.len() - i,
        {
            if self.entries[i].slot == slot {
                return Some(&self.entries[i].blocks);
            }
            i += 1;
        }
        None
    }

    /// Drop every slot older than the retention window. Because stored
    /// slots increase, everything dropped is a prefix.
    pub fn prune(&mut self, current_slot: u64)
        requires
            old(self).wf(),
        ensures
            final(self).wf(),
            pruned_window(old(self).entries@, final(self).entries@, current_slot),
    {
        let ghost pre = self.entries@;
        let ghost mut d: int = 0;
        loop
            invariant
                0 <= d <= pre.len(),
                old(self).wf(),
                old(self).entries@ == pre,
                self.entries@ == pre.skip(d),
                forall|t: int|
                    0 <= t < d ==> (#[trigger] pre[t]).slot + NUM_SLOTS_IN_MEMORY < current_slot,
            ensures
                self.entries@ == pre.skip(d),
                forall|t: int|
                    0 <= t < d ==> (#[trigger] pre[t]).slot + NUM_SLOTS_IN_MEMORY < current_slot,
                self.entries@.len() > 0 ==> self.entries@[0].slot + NUM_SLOTS_IN_MEMORY
                    >= current_slot,
                0 <= d <= pre.len(),
            decreases self.entries@.len(),
        {
            if self.entries.len() == 0 {
                break ;
            }
            let keep = !(current_slot >= NUM_SLOTS_IN_MEMORY && self.entries[0].slot < current_slot
                - NUM_SLOTS_IN_MEMORY);
            if keep {
                break ;
            }
            let ghost before = self.entries@;
            let _dropped = self.entries.remove(0);
            proof {
                assert(before[0] == pre[d]);
                assert(before.remove(0) =~= pre.skip(d + 1));
                d = d + 1;
            }
        }
        proof {
            assert forall|t: int| d <= t < pre.len() implies (#[trigger] pre[t]).slot
                + NUM_SLOTS_IN_MEMORY >= current_slot by {
                assert(pre.skip(d)[t - d] == pre[t]);
                if t > d {
                    assert(pre[d].slot < pre[t].slot);
                    assert(pre.skip(d)[0] == pre[d]);
                }
                if t == d {
                    assert(pre.skip(d)[0] == pre[d]);
                }
            }
            assert forall|k1: int, k2: int|
                0 <= k1 < k2 < self.entries@.len() implies (#[trigger] self.entries@[k1]).slot
                < (#[trigger] self.entries@[k2]).slot by {
                assert(self.entries@[k1] == pre[d + k1]);
                assert(self.entries@[k2] == pre[d + k2]);
            }
            assert(pruned_window(pre, self.entries@, current_slot)) by {
                assert(0 <= d <= pre.len() && self.entries@ == #[trigger] pre.skip(d) && (forall|
                    t: int,
                |
                    0 <= t < d ==> (#[trigger] pre[t]).slot + NUM_SLOTS_IN_MEMORY < current_slot)
                    && (forall|t: int|
                    d <= t < pre.len() ==> (#[trigger] pre[t]).slot + NUM_SLOTS_IN_MEMORY
                        >= current_slot));
            }
        }
    }
}

/// The pruned window keeps exactly the suffix of entries still within the
/// retention window; everything dropped had fallen out of it.
pub open spec fn pruned_window(
    pre: Seq<SlotBlocks>,
    post: Seq<SlotBlocks>,
    current_slot: u64,
) -> bool {
    exists|k: int|
        0 <= k <= pre.len() && post == #[trigger] pre.skip(k) && (forall|t: int|
            0 <= t < k ==> (#[trigger] pre[t]).slot + NUM_SLOTS_IN_MEMORY < current_slot) && (
        forall|t: int|
            k <= t < pre.len() ==> (#[trigger] pre[t]).slot + NUM_SLOTS_IN_MEMORY >= current_slot)
}

} // verus!
