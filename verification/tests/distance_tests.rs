use blockdreamer::delta::{abs_diff, sort_deltas, Delta};
use blockdreamer::distance::Distance;
use blockdreamer::types::{Attestation, AttestationData, Bitfield, Checkpoint, Root};

fn root(v: u64) -> Root {
    Root { w0: v, w1: 0, w2: 0, w3: 0 }
}

fn checkpoint(epoch: u64, r: u64) -> Checkpoint {
    Checkpoint { epoch, root: root(r) }
}

fn data(slot: u64, index: u64) -> AttestationData {
    AttestationData {
        slot,
        index,
        beacon_block_root: root(1),
        source: checkpoint(0, 2),
        target: checkpoint(1, 3),
    }
}

fn att(d: AttestationData, bits: Vec<bool>) -> Attestation {
    Attestation { data: d, aggregation_bits: Bitfield { bits } }
}

#[test]
fn zero_distance_between_identical_lists() {
    // two identical single-attestation lists: one free modification
    let a = att(data(1, 0), vec![true, true, false, false]);
    let x = vec![a.clone()];
    let y = vec![a];
    let ds = x.delta(&y).unwrap();
    assert_eq!(
        ds,
        vec![Delta::Modify { left: 0, right: 0, pos_distance: 0, bit_distance: 0 }]
    );
    assert_eq!(x.distance(&y), Some(0));
}

#[test]
fn bit_only_difference() {
    // same vote data, bitfields disagreeing in two positions
    let d = data(1, 0);
    let x = vec![att(d, vec![false, false, true, true])];
    let y = vec![att(d, vec![false, true, false, true])];
    let ds = x.delta(&y).unwrap();
    assert_eq!(
        ds,
        vec![Delta::Modify { left: 0, right: 0, pos_distance: 0, bit_distance: 2 }]
    );
    assert_eq!(x.distance(&y), Some(2));
}

#[test]
fn pure_insert() {
    // an empty list against one attestation with three set bits
    let x: Vec<Attestation> = vec![];
    let y = vec![att(data(2, 1), vec![true, true, true, false])];
    let ds = x.delta(&y).unwrap();
    assert_eq!(ds, vec![Delta::InsertRight { index: 0, num_set_bits: 3 }]);
    assert_eq!(x.distance(&y), Some(131));
}

#[test]
fn position_swap_same_data() {
    // [A, B] against [B, A] with the same data and disjoint bits: the
    // matching keeps each attestation and pays the position swap
    let d = data(3, 2);
    let a = att(d, vec![true, true, false, false, false, false]);
    let b = att(d, vec![false, false, true, true, true, true]);
    let x = vec![a.clone(), b.clone()];
    let y = vec![b, a];
    let ds = x.delta(&y).unwrap();
    assert_eq!(
        ds,
        vec![
            Delta::Modify { left: 0, right: 1, pos_distance: 1, bit_distance: 0 },
            Delta::Modify { left: 1, right: 0, pos_distance: 1, bit_distance: 0 },
        ]
    );
    assert_eq!(x.distance(&y), Some(2));
}

#[test]
fn incomparable_data() {
    // different vote data: a deletion plus an insertion
    let x = vec![att(data(1, 0), vec![true, false])];
    let y = vec![att(data(1, 1), vec![true, true])];
    let ds = x.delta(&y).unwrap();
    assert_eq!(
        ds,
        vec![
            Delta::InsertLeft { index: 0, num_set_bits: 1 },
            Delta::InsertRight { index: 0, num_set_bits: 2 },
        ]
    );
    assert_eq!(x.distance(&y), Some(1 + 2 + 256));
}

#[test]
fn attestation_comparability() {
    // a single-attestation distance is defined exactly when the vote data
    // are equal
    let a = att(data(1, 0), vec![true, false, true]);
    let b = att(data(1, 0), vec![true, true, false]);
    let c = att(data(1, 1), vec![true, false, true]);
    assert_eq!(a.distance(&b), Some(2));
    assert_eq!(a.delta(&b), Some(2));
    assert_eq!(a.distance(&c), None);
    assert_eq!(a.delta(&c), None);
    assert_eq!(a.distance(&a), Some(0));
}

#[test]
fn symmetry_on_concrete_lists() {
    let d1 = data(1, 0);
    let d2 = data(2, 5);
    let x = vec![
        att(d1, vec![true, true, false]),
        att(d2, vec![false, true, true]),
    ];
    let y = vec![att(d1, vec![true, false, false])];
    let fwd = x.distance(&y).unwrap();
    let back = y.distance(&x).unwrap();
    assert_eq!(fwd, back);
}

#[test]
fn triangle_on_concrete_lists() {
    let d1 = data(1, 0);
    let d2 = data(2, 5);
    let x = vec![att(d1, vec![true, true, false, false])];
    let y = vec![att(d2, vec![true, true, true, false])];
    let z = vec![
        att(d1, vec![false, true, false, false]),
        att(d2, vec![true, true, true, true]),
    ];
    let xy = x.distance(&y).unwrap();
    let yz = y.distance(&z).unwrap();
    let xz = x.distance(&z).unwrap();
    assert!(xz <= xy + yz);
}

#[test]
fn reduction_of_delta_to_distance() {
    let d1 = data(1, 0);
    let x = vec![att(d1, vec![true, true])];
    let y = vec![att(d1, vec![true, false]), att(data(2, 2), vec![true])];
    let ds = x.delta(&y).unwrap();
    let from_delta = <Vec<Attestation> as Distance>::delta_to_distance(&ds);
    assert_eq!(Some(from_delta), x.distance(&y));
}

#[test]
fn invert_delta_swaps_sides() {
    // inverting the delta of an insertion gives the delta of the reverse
    // comparison
    let x: Vec<Attestation> = vec![];
    let y = vec![att(data(2, 1), vec![true, true, true])];
    let ds = x.delta(&y).unwrap();
    let inv = <Vec<Attestation> as Distance>::invert_delta(ds);
    let back = y.delta(&x).unwrap();
    assert_eq!(inv, back);
    assert_eq!(inv, vec![Delta::InsertLeft { index: 0, num_set_bits: 3 }]);
}

#[test]
fn invert_modification_swaps_endpoints() {
    let d = data(3, 2);
    let a = att(d, vec![true, true, false, false, false, false]);
    let b = att(d, vec![false, false, true, true, true, true]);
    let x = vec![a.clone(), b.clone()];
    let y = vec![b, a];
    let ds = x.delta(&y).unwrap();
    let inv = <Vec<Attestation> as Distance>::invert_delta(ds);
    assert_eq!(inv, y.delta(&x).unwrap());
}

#[test]
fn sorting_orders_by_left_right_handedness() {
    let mut ds = vec![
        Delta::InsertRight { index: 0, num_set_bits: 1 },
        Delta::Modify { left: 1, right: 0, pos_distance: 1, bit_distance: 0 },
        Delta::InsertLeft { index: 0, num_set_bits: 2 },
        Delta::Modify { left: 0, right: 1, pos_distance: 1, bit_distance: 3 },
    ];
    sort_deltas(&mut ds);
    assert_eq!(
        ds,
        vec![
            Delta::InsertLeft { index: 0, num_set_bits: 2 },
            Delta::InsertRight { index: 0, num_set_bits: 1 },
            Delta::Modify { left: 0, right: 1, pos_distance: 1, bit_distance: 3 },
            Delta::Modify { left: 1, right: 0, pos_distance: 1, bit_distance: 0 },
        ]
    );
}

#[test]
fn delta_costs() {
    assert_eq!(
        Delta::Modify { left: 4, right: 1, pos_distance: 3, bit_distance: 2 }.total_distance(),
        5
    );
    assert_eq!(Delta::InsertLeft { index: 0, num_set_bits: 7 }.total_distance(), 135);
    assert_eq!(Delta::InsertRight { index: 3, num_set_bits: 0 }.total_distance(), 128);
}

#[test]
fn absolute_difference() {
    assert_eq!(abs_diff(3, 7), 4);
    assert_eq!(abs_diff(7, 3), 4);
    assert_eq!(abs_diff(5, 5), 0);
    assert_eq!(abs_diff(0, usize::MAX), usize::MAX);
}

#[test]
fn bitfields_padded_with_clear_bits_are_equivalent() {
    // trailing clear bits do not change the metric: the distance is zero
    // although the bitfields differ in length
    let d = data(1, 0);
    let x = vec![att(d, vec![true])];
    let y = vec![att(d, vec![true, false])];
    assert_eq!(x.distance(&y), Some(0));
}

#[test]
fn longer_lists_choose_cheapest_matching() {
    // three comparable attestations against two: the matching must drop the
    // dearest and pair the rest by position
    let d = data(1, 0);
    let x = vec![
        att(d, vec![true, false, false]),
        att(d, vec![false, true, false]),
        att(d, vec![false, false, true]),
    ];
    let y = vec![att(d, vec![true, false, false]), att(d, vec![false, true, false])];
    let dist = x.distance(&y).unwrap();
    // keep the two aligned pairs for free, delete one set bit at indel cost
    assert_eq!(dist, 129);
}

fn pseudo(seed: &mut u64) -> u64 {
    // a small deterministic generator for varied test inputs
    *seed = seed.wrapping_mul(6364136223846793005).wrapping_add(1442695040888963407);
    *seed >> 33
}

fn varied_list(seed: &mut u64, len: usize) -> Vec<Attestation> {
    let mut atts = Vec::new();
    for _ in 0..len {
        let d = data(pseudo(seed) % 3, pseudo(seed) % 2);
        let nbits = 1 + (pseudo(seed) % 12) as usize;
        let mut bits = Vec::new();
        for _ in 0..nbits {
            bits.push(pseudo(seed) % 2 == 1);
        }
        atts.push(att(d, bits));
    }
    atts
}

#[test]
fn metric_laws_on_varied_lists() {
    let mut seed = 7u64;
    for case in 0..12u64 {
        let x = varied_list(&mut seed, (case % 5) as usize * 3);
        let y = varied_list(&mut seed, ((case + 2) % 5) as usize * 3);
        let z = varied_list(&mut seed, ((case + 4) % 5) as usize * 2);
        let xy = x.distance(&y).unwrap();
        let yx = y.distance(&x).unwrap();
        assert_eq!(xy, yx);
        let yz = y.distance(&z).unwrap();
        let xz = x.distance(&z).unwrap();
        assert!(xz <= xy + yz);
        assert_eq!(x.distance(&x), Some(0));
        // the delta reduces to the distance
        let ds = x.delta(&y).unwrap();
        assert_eq!(<Vec<Attestation> as Distance>::delta_to_distance(&ds), xy);
        // inverting the delta preserves the total cost
        let inv = <Vec<Attestation> as Distance>::invert_delta(ds);
        assert_eq!(<Vec<Attestation> as Distance>::delta_to_distance(&inv), yx);
    }
}
