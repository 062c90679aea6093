use blockdreamer::classify::Classification;
use blockdreamer::clock::SlotClock;
use blockdreamer::config::{
    default_genesis_state_timeout, default_true, CliConfig, Config, ConfigError, NetworkSource,
    Node, PostEndpointConfig,
};
use blockdreamer::orchestrate::{
    classify_canonical, compare_with_canonical, select_block_request, should_store_slot,
    slot_is_stale, BlockRequestKind, NodeEntry,
};
use blockdreamer::sink::{
    check_response_count, max_reward_nodes, prepare_post_blocks, SinkError,
};
use blockdreamer::types::{Attestation, AttestationData, Bitfield, Block, Checkpoint, Root};
use blockdreamer::window::BlockWindow;

fn root(v: u64) -> Root {
    Root { w0: v, w1: 0, w2: 0, w3: 0 }
}

fn block(parent: u64, bits: Vec<bool>) -> Block {
    let data = AttestationData {
        slot: 1,
        index: 0,
        beacon_block_root: root(1),
        source: Checkpoint { epoch: 0, root: root(2) },
        target: Checkpoint { epoch: 1, root: root(3) },
    };
    Block {
        parent_root: root(parent),
        attestations: vec![Attestation { data, aggregation_bits: Bitfield { bits } }],
    }
}

fn node_config(name: &str, label: &str, enabled: bool) -> Node {
    Node {
        name: name.as_bytes().to_vec(),
        label: label.as_bytes().to_vec(),
        url: String::from("http://localhost:5052"),
        skip_randao_verification: false,
        use_builder: false,
        ssz: true,
        v3: false,
        enabled,
        builder_boost_factor: None,
    }
}

fn base_config() -> Config {
    Config {
        network: Some(String::from("mainnet")),
        network_dir: None,
        canonical_bn: String::from("http://localhost:5052"),
        post_endpoints: vec![],
        nodes: vec![],
    }
}

#[test]
fn clock_maps_time_to_slots() {
    let clock = SlotClock::new(0, 1_000, 12_000);
    assert_eq!(clock.now(999), None);
    assert_eq!(clock.now(1_000), Some(0));
    assert_eq!(clock.now(12_999), Some(0));
    assert_eq!(clock.now(13_000), Some(1));
    assert_eq!(clock.now(1_000 + 7 * 12_000 + 5), Some(7));
}

#[test]
fn clock_with_genesis_slot_offset() {
    let clock = SlotClock::new(100, 0, 12_000);
    assert_eq!(clock.now(24_000), Some(102));
}

#[test]
fn clock_sleep_durations() {
    let clock = SlotClock::new(0, 1_000, 12_000);
    // exactly at a slot boundary: a full slot to the next one
    assert_eq!(clock.duration_to_next_slot(1_000), Some(12_000));
    assert_eq!(clock.duration_to_next_slot(2_000), Some(11_000));
    assert_eq!(clock.seconds_from_current_slot_start(2_000), Some(1_000));
    assert_eq!(clock.seconds_from_current_slot_start(13_000), Some(0));
    assert_eq!(clock.duration_to_next_slot(999), None);
}

#[test]
fn window_stores_and_prunes() {
    let mut w = BlockWindow::new();
    w.insert(100, vec![(b"n1".to_vec(), block(1, vec![true]))]);
    w.insert(101, vec![(b"n2".to_vec(), block(1, vec![true]))]);
    w.insert(105, vec![(b"n3".to_vec(), block(1, vec![true]))]);
    assert!(w.get(100).is_some());
    assert!(w.get(102).is_none());
    assert_eq!(w.get(101).unwrap()[0].0, b"n2".to_vec());
    // slot 109: 100 + 8 < 109 is dropped, 101 + 8 >= 109 stays
    w.prune(109);
    assert!(w.get(100).is_none());
    assert!(w.get(101).is_some());
    assert!(w.get(105).is_some());
    // far in the future: everything goes
    w.prune(200);
    assert!(w.get(101).is_none());
    assert!(w.get(105).is_none());
}

#[test]
fn sink_refuses_mismatched_inputs() {
    let r = prepare_post_blocks(vec![(b"a".to_vec(), b"A".to_vec())], vec![], false, false);
    assert!(matches!(r, Err(SinkError::MismatchedCounts { blocks: 0, nodes: 1 })));
}

#[test]
fn sink_filters_missing_blocks() {
    let nl = vec![
        (b"a".to_vec(), b"A".to_vec()),
        (b"b".to_vec(), b"B".to_vec()),
        (b"c".to_vec(), b"C".to_vec()),
    ];
    let blocks = vec![Some(block(1, vec![true])), None, Some(block(1, vec![false]))];
    let sel = prepare_post_blocks(nl, blocks, false, false).unwrap();
    assert_eq!(sel.names, vec![b"a".to_vec(), b"c".to_vec()]);
    assert_eq!(sel.labels, vec![b"A".to_vec(), b"C".to_vec()]);
    assert_eq!(sel.blocks.len(), 2);
}

#[test]
fn sink_requires_all_blocks() {
    let nl = vec![(b"a".to_vec(), b"A".to_vec()), (b"b".to_vec(), b"B".to_vec())];
    let blocks = vec![Some(block(1, vec![true])), None];
    let r = prepare_post_blocks(nl, blocks, true, false);
    assert!(matches!(r, Err(SinkError::NotEnoughBlocks { got: 1, total: 2 })));
}

#[test]
fn sink_requires_same_parent() {
    let nl = vec![(b"a".to_vec(), b"A".to_vec()), (b"b".to_vec(), b"B".to_vec())];
    let blocks = vec![Some(block(1, vec![true])), Some(block(2, vec![true]))];
    let r = prepare_post_blocks(nl, blocks, false, true);
    assert!(matches!(r, Err(SinkError::DifferentParents)));
    let nl2 = vec![(b"a".to_vec(), b"A".to_vec()), (b"b".to_vec(), b"B".to_vec())];
    let blocks2 = vec![Some(block(1, vec![true])), Some(block(1, vec![false]))];
    assert!(prepare_post_blocks(nl2, blocks2, false, true).is_ok());
}

#[test]
fn rewards_track_the_maximum() {
    let names = vec![b"a".to_vec(), b"b".to_vec(), b"c".to_vec(), b"d".to_vec()];
    let rewards = vec![5, 9, 9, 2];
    let (m, winners) = max_reward_nodes(names, &rewards);
    assert_eq!(m, 9);
    assert_eq!(winners, vec![b"b".to_vec(), b"c".to_vec()]);
}

#[test]
fn rewards_of_nothing_are_zero() {
    let (m, winners) = max_reward_nodes(vec![], &vec![]);
    assert_eq!(m, 0);
    assert!(winners.is_empty());
    // all-zero rewards: everyone ties at zero
    let (m2, winners2) = max_reward_nodes(vec![b"a".to_vec(), b"b".to_vec()], &vec![0, 0]);
    assert_eq!(m2, 0);
    assert_eq!(winners2.len(), 2);
}

#[test]
fn response_count_must_match() {
    assert!(check_response_count(3, 3).is_ok());
    assert!(matches!(
        check_response_count(2, 3),
        Err(SinkError::BadResponseCount { got: 2, expected: 3 })
    ));
}

#[test]
fn config_network_source_rules() {
    let ok = base_config();
    assert!(matches!(ok.network_source(), Ok(NetworkSource::Named(_))));

    let mut dir = base_config();
    dir.network = None;
    dir.network_dir = Some(String::from("/tmp/net"));
    assert!(matches!(dir.network_source(), Ok(NetworkSource::Directory(_))));

    let mut both = base_config();
    both.network_dir = Some(String::from("/tmp/net"));
    assert!(matches!(both.network_source(), Err(ConfigError::ConflictingNetworkSources)));

    let mut neither = base_config();
    neither.network = None;
    assert!(matches!(neither.network_source(), Err(ConfigError::MissingNetworkSource)));
}

#[test]
fn config_enabled_labels() {
    let mut c = base_config();
    c.nodes = vec![
        node_config("n1", "X", true),
        node_config("n2", "Y", false),
        node_config("n3", "X", true),
    ];
    let pairs = c.enabled_labels();
    assert_eq!(
        pairs,
        vec![(b"n1".to_vec(), b"X".to_vec()), (b"n3".to_vec(), b"X".to_vec())]
    );
}

#[test]
fn config_defaults() {
    assert!(default_true());
    assert_eq!(default_genesis_state_timeout(), 180);
    let cli = CliConfig { config: String::from("config.toml"), genesis_state_timeout: 180 };
    assert_eq!(cli.genesis_state_timeout, 180);
}

#[test]
fn wire_selection() {
    assert_eq!(select_block_request(true, true), BlockRequestKind::V3Ssz);
    assert_eq!(select_block_request(true, false), BlockRequestKind::V3Json);
    assert_eq!(select_block_request(false, true), BlockRequestKind::V2Ssz);
    assert_eq!(select_block_request(false, false), BlockRequestKind::V2Json);
}

#[test]
fn staleness_and_storage_rules() {
    assert!(!slot_is_stale(7, 7));
    assert!(slot_is_stale(7, 8));
    assert!(should_store_slot(3, 3));
    assert!(!should_store_slot(2, 3));
}

#[test]
fn canonical_comparison_and_classification() {
    let canonical = block(1, vec![true, true, false, false]);
    let entries = vec![
        NodeEntry {
            name: b"n1".to_vec(),
            label: b"X".to_vec(),
            block: block(1, vec![true, true, false, false]),
        },
        NodeEntry {
            name: b"n2".to_vec(),
            label: b"X".to_vec(),
            block: block(1, vec![true, false, false, false]),
        },
        NodeEntry {
            name: b"n3".to_vec(),
            label: b"Y".to_vec(),
            block: block(1, vec![false, false, true, true]),
        },
    ];
    let dists = compare_with_canonical(&entries, &canonical);
    assert_eq!(dists.len(), 3);
    assert_eq!(dists[0].distance, 0);
    assert_eq!(dists[1].distance, 1);
    assert_eq!(dists[2].distance, 4);
    match classify_canonical(&entries, &canonical) {
        Ok(Classification::LikelyLabel { label, distance }) => {
            assert_eq!(label, b"X".to_vec());
            assert_eq!(distance, 0);
        },
        _ => panic!("expected the two closest to share a label"),
    }
}

#[test]
fn classify_canonical_needs_blocks() {
    let canonical = block(1, vec![true]);
    assert!(classify_canonical(&vec![], &canonical).is_err());
}

#[test]
fn post_endpoint_config_shape() {
    let pe = PostEndpointConfig {
        name: b"gauge".to_vec(),
        url: String::from("http://localhost:8000"),
        results_dir: None,
        extra_data: true,
        compare_rewards: false,
        require_all: false,
        require_same_parent: false,
    };
    assert!(pe.extra_data);
    assert!(pe.results_dir.is_none());
}

#[test]
fn bitfield_wire_decoding() {
    // 0b0000_1101: data bits 1,0,1 below the length marker at position 3
    let bf = Bitfield::from_ssz_bytes(&vec![0b0000_1101]).unwrap();
    assert_eq!(bf.bits, vec![true, false, true]);
    // only the marker: an empty bitfield
    let empty = Bitfield::from_ssz_bytes(&vec![0b0000_0001]).unwrap();
    assert!(empty.bits.is_empty());
    // a full first byte, the marker opening the second
    let full = Bitfield::from_ssz_bytes(&vec![0xFF, 0x01]).unwrap();
    assert_eq!(full.bits, vec![true; 8]);
    // no set bit anywhere: not a valid bitfield
    assert!(Bitfield::from_ssz_bytes(&vec![0]).is_none());
    assert!(Bitfield::from_ssz_bytes(&vec![]).is_none());
}
