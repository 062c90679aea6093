//! Per-slot orchestration decisions: which wire endpoint a node is asked on,
//! when a dispatched request has gone stale, whether a slot's results are
//! stored, and how the previous slot's canonical block is compared and
//! classified. The surrounding loop — sleeping, HTTP, fan-out — lives with
//! the caller; every decision it takes comes from here.

use vstd::prelude::*;

use crate::classify::{classify, is_ranking, classification_of, Classification, ClassifyError, NodeDistance};
use crate::config::clone_bytes;
use crate::delta::is_min_cost;
use crate::distance::Distance;
use crate::types::Block;

verus! {

/// Which block-production endpoint a node is asked on.
#[derive(PartialEq, Eq, Structural, Debug, Clone, Copy)]
pub enum BlockRequestKind {
    V3Ssz,
    V3Json,
    V2Ssz,
    V2Json,
}

/// The wire selection: the v3 endpoint when the node opts in, SSZ bytes
/// when the node opts in, JSON otherwise.
pub fn select_block_request(v3: bool, ssz: bool) -> (r: BlockRequestKind)
    ensures
        v3 && ssz ==> r == BlockRequestKind::V3Ssz,
        v3 && !ssz ==> r == BlockRequestKind::V3Json,
        !v3 && ssz ==> r == BlockRequestKind::V2Ssz,
        !v3 && !ssz ==> r == BlockRequestKind::V2Json,
{
    if v3 {
        if ssz {
            BlockRequestKind::V3Ssz
        } else {
            BlockRequestKind::V3Json
        }
    } else {
        if ssz {
            BlockRequestKind::V2Ssz
        } else {
            BlockRequestKind::V2Json
        }
    }
}

/// A dispatched request is stale when the slot has moved on under it.
pub fn slot_is_stale(dispatch_slot: u64, current_slot: u64) -> (r: bool)
    ensures
        r == (dispatch_slot != current_slot),
{
    dispatch_slot != current_slot
}

/// A slot's results are stored only when every enabled node produced a
/// block; partial results are discarded (they are still forwarded to
/// sinks).
pub fn should_store_slot(produced: usize, enabled: usize) -> (r: bool)
    ensures
        r == (produced == enabled),
{
    produced == enabled
}

/// One node's dream block, named and labelled.
pub struct NodeEntry {
    pub name: Vec<u8>,
    pub label: Vec<u8>,
    pub block: Block,
}

/// The distance list is truthful: one entry per node, carrying that node's
/// name and label and the one minimal matching cost between its block's
/// attestations and the canonical block's.
pub open spec fn distances_match(
    entries: Seq<NodeEntry>,
    canonical: Block,
    ds: Seq<NodeDistance>,
) -> bool {
    &&& ds.len() == entries.len()
    &&& forall|i: int|
        0 <= i < ds.len() ==> (#[trigger] ds[i]).name@ == entries[i].name@ && ds[i].label@
            == entries[i].label@ && is_min_cost(
            entries[i].block.attestations@,
            canonical.attestations@,
            ds[i].distance as int,
        )
}

/// Measure each dream block against the canonical block.
pub fn compare_with_canonical(entries: &Vec<NodeEntry>, canonical: &Block) -> (r: Vec<
    NodeDistance,
>)
    requires
        canonical.wf(),
        forall|i: int| 0 <= i < entries@.len() ==> (#[trigger] entries@[i]).block.wf(),
    ensures
        distances_match(entries@, *canonical, r@),
{
    let mut r: Vec<NodeDistance> = Vec::new();
    let mut i: usize = 0;
    while i < entries.len()
        invariant
            0 <= i <= entries@.len(),
            r@.len() == i,
            canonical.wf(),
            forall|k: int| 0 <= k < entries@.len() ==> (#[trigger] entries@[k]).block.wf(),
            forall|k: int|
                0 <= k < i ==> (#[trigger] r@[k]).name@ == entries@[k].name@ && r@[k].label@
                    == entries@[k].label@ && is_min_cost(
                    entries@[k].block.attestations@,
                    canonical.attestations@,
                    r@[k].distance as int,
                ),
        decreases entries@.len() - i,
    {
        let e = &entries[i];
        let dist = match e.block.distance(canonical) {
            Some(d) => d,
            None => 0,  // unreachable: blocks are always comparable
        };
        proof {
            let d0 = choose|d0: Vec<crate::delta::Delta>|
                e.block.delta_ok(canonical, d0) && #[trigger] <Block as Distance>::cost_of(d0)
                    == dist;
        }
        let nd = NodeDistance {
            name: clone_bytes(&e.name),
            label: clone_bytes(&e.label),
            distance: dist as u64,
        };
        r.push(nd);
        i += 1;
    }
    r
}

/// Compare every dream block of a slot with its canonical block and call
/// the likely producer. Fails only when no dream block is at hand.
pub fn classify_canonical(entries: &Vec<NodeEntry>, canonical: &Block) -> (r: Result<
    Classification,
    ClassifyError,
>)
    requires
        canonical.wf(),
        forall|i: int| 0 <= i < entries@.len() ==> (#[trigger] entries@[i]).block.wf(),
    ensures
        r.is_ok() <==> entries@.len() >= 1,
        r matches Ok(c) ==> exists|ds: Seq<NodeDistance>, s: Seq<NodeDistance>|
            distances_match(entries@, *canonical, ds) && #[trigger] is_ranking(ds, s) && c
                == classification_of(s),
{
    let dists = compare_with_canonical(entries, canonical);
    let ghost dsv = dists@;
    let r = classify(dists);
    proof {
        if r is Ok {
            let s = choose|s: Seq<NodeDistance>|
                #[trigger] is_ranking(dsv, s) && r.unwrap() == classification_of(s);
            assert(distances_match(entries@, *canonical, dsv) && is_ranking(dsv, s) && r.unwrap()
                == classification_of(s));
        }
    }
    r
}

} // verus!
