//! The slot clock: mapping wall-clock time to slot indices and to the
//! durations the orchestrator sleeps for. All times are in milliseconds.

use vstd::prelude::*;

verus! {

/// A clock that divides time after genesis into fixed-length slots.
#[derive(Clone, Copy, Debug)]
pub struct SlotClock {
    /// The slot at genesis.
    pub genesis_slot: u64,
    /// Wall-clock time of genesis, in milliseconds.
    pub genesis_time_ms: u64,
    /// Length of one slot, in milliseconds.
    pub slot_duration_ms: u64,
}

impl SlotClock {
    /// Slots have a positive length.
    pub open spec fn wf(&self) -> bool {
        self.slot_duration_ms > 0
    }

    pub fn new(genesis_slot: u64, genesis_time_ms: u64, slot_duration_ms: u64) -> (r: SlotClock)
        requires
            slot_duration_ms > 0,
        ensures
            r.wf(),
            r.genesis_slot == genesis_slot,
            r.genesis_time_ms == genesis_time_ms,
            r.slot_duration_ms == slot_duration_ms,
    {
        SlotClock { genesis_slot, genesis_time_ms, slot_duration_ms }
    }

    /// The current slot: how many whole slot lengths have passed since
    /// genesis. Fails only before genesis, or if the slot index would not
    /// fit its word.
    pub fn now(&self, now_ms: u64) -> (r: Option<u64>)
        requires
            self.wf(),
        ensures
            r.is_some() <==> (now_ms >= self.genesis_time_ms && self.genesis_slot + (now_ms
                - self.genesis_time_ms) / (self.slot_duration_ms as int) <= u64::MAX),
            r matches Some(s) ==> s == self.genesis_slot + (now_ms - self.genesis_time_ms) / (
            self.slot_duration_ms as int),
    {
        if now_ms < self.genesis_time_ms {
            return None;
        }
        let elapsed_slots = (now_ms - self.genesis_time_ms) / self.slot_duration_ms;
        if elapsed_slots <= u64::MAX - self.genesis_slot {
            Some(self.genesis_slot + elapsed_slots)
        } else {
            None
        }
    }

    /// How long until the next slot begins: a full slot length exactly at a
    /// slot boundary, less within a slot. Fails before genesis.
    pub fn duration_to_next_slot(&self, now_ms: u64) -> (r: Option<u64>)
        requires
            self.wf(),
        ensures
            r.is_some() <==> now_ms >= self.genesis_time_ms,
            r matches Some(d) ==> d == self.slot_duration_ms - (now_ms - self.genesis_time_ms) % (
            self.slot_duration_ms as int),
    {
        if now_ms < self.genesis_time_ms {
            return None;
        }
        let into_slot = (now_ms - self.genesis_time_ms) % self.slot_duration_ms;
        Some(self.slot_duration_ms - into_slot)
    }

    /// How far into the current slot the clock is. Fails before genesis.
    pub fn seconds_from_current_slot_start(&self, now_ms: u64) -> (r: Option<u64>)
        requires
            self.wf(),
        ensures
            r.is_some() <==> now_ms >= self.genesis_time_ms,
            r matches Some(d) ==> d == (now_ms - self.genesis_time_ms) % (self.slot_duration_ms
                as int),
    {
        if now_ms < self.genesis_time_ms {
            return None;
        }
        Some((now_ms - self.genesis_time_ms) % self.slot_duration_ms)
    }
}

} // verus!
