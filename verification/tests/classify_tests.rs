use blockdreamer::classify::{
    bytes_eq, bytes_lt, classify, Classification, ClassifyError, NodeDistance,
};

fn nd(name: &str, label: &str, distance: u64) -> NodeDistance {
    NodeDistance {
        name: name.as_bytes().to_vec(),
        label: label.as_bytes().to_vec(),
        distance,
    }
}

#[test]
fn two_closest_share_a_label() {
    // the two closest nodes carry the same label, so that label is called
    // regardless of the ratio
    let nodes = vec![nd("n1", "X", 10), nd("n2", "X", 25), nd("n3", "Y", 40)];
    match classify(nodes) {
        Ok(Classification::LikelyLabel { label, distance }) => {
            assert_eq!(label, b"X".to_vec());
            assert_eq!(distance, 10);
        },
        _ => panic!("expected a confident label call"),
    }
}

#[test]
fn significantly_closer_wins() {
    // the runner-up is at least twice as far: confident despite the label
    // mismatch
    let nodes = vec![nd("n1", "X", 10), nd("n2", "Y", 25)];
    match classify(nodes) {
        Ok(Classification::SignificantlyCloser { label, distance, second_label, second_distance }) => {
            assert_eq!(label, b"X".to_vec());
            assert_eq!(distance, 10);
            assert_eq!(second_label, b"Y".to_vec());
            assert_eq!(second_distance, 25);
        },
        _ => panic!("expected a significant-gap call"),
    }
}

#[test]
fn too_close_to_call() {
    let nodes = vec![nd("n1", "X", 10), nd("n2", "Y", 15)];
    match classify(nodes) {
        Ok(Classification::TooClose { name, distance, second_name, second_distance }) => {
            assert_eq!(name, b"n1".to_vec());
            assert_eq!(distance, 10);
            assert_eq!(second_name, b"n2".to_vec());
            assert_eq!(second_distance, 15);
        },
        _ => panic!("expected no call"),
    }
}

#[test]
fn boundary_ratio_is_significant() {
    // exactly double counts as significant
    let nodes = vec![nd("n1", "X", 10), nd("n2", "Y", 20)];
    match classify(nodes) {
        Ok(Classification::SignificantlyCloser { second_distance, .. }) => {
            assert_eq!(second_distance, 20);
        },
        _ => panic!("expected a significant-gap call"),
    }
}

#[test]
fn ties_break_by_name() {
    // equal distances: the lexicographically first name wins
    let nodes = vec![nd("zeta", "Z", 7), nd("alpha", "A", 7), nd("mid", "M", 9)];
    match classify(nodes) {
        Ok(Classification::TooClose { name, second_name, .. }) => {
            assert_eq!(name, b"alpha".to_vec());
            assert_eq!(second_name, b"zeta".to_vec());
        },
        _ => panic!("expected no call"),
    }
}

#[test]
fn single_node_is_its_own_runner_up() {
    // one candidate: the runner-up is the candidate itself, so the labels
    // match and that label is called
    let nodes = vec![nd("solo", "S", 42)];
    match classify(nodes) {
        Ok(Classification::LikelyLabel { label, distance }) => {
            assert_eq!(label, b"S".to_vec());
            assert_eq!(distance, 42);
        },
        _ => panic!("expected a confident label call"),
    }
}

#[test]
fn no_nodes_is_insufficient_data() {
    assert!(matches!(classify(vec![]), Err(ClassifyError::InsufficientData)));
}

#[test]
fn byte_string_order() {
    assert!(bytes_lt(&b"abc".to_vec(), &b"abd".to_vec()));
    assert!(!bytes_lt(&b"abd".to_vec(), &b"abc".to_vec()));
    assert!(bytes_lt(&b"ab".to_vec(), &b"abc".to_vec()));
    assert!(!bytes_lt(&b"abc".to_vec(), &b"abc".to_vec()));
    assert!(bytes_lt(&b"".to_vec(), &b"a".to_vec()));
    assert!(!bytes_lt(&b"".to_vec(), &b"".to_vec()));
}

#[test]
fn byte_string_equality() {
    assert!(bytes_eq(&b"node".to_vec(), &b"node".to_vec()));
    assert!(!bytes_eq(&b"node".to_vec(), &b"node2".to_vec()));
    assert!(!bytes_eq(&b"nodeA".to_vec(), &b"nodeB".to_vec()));
    assert!(bytes_eq(&b"".to_vec(), &b"".to_vec()));
}
