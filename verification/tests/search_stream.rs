use quickwit::cluster::{assign_splits, pick_node};
use quickwit::search::{merge_partial_hits, sum_num_hits, PartialHit};
use quickwit::stream::{assemble_stream, csv_body, dec_digits};

fn hit(sort_value: u64, split_id: &str, segment_ord: u32, doc_id: u32) -> PartialHit {
    PartialHit { sort_value, split_id: split_id.to_string(), segment_ord, doc_id }
}

fn keys(hits: &[PartialHit]) -> Vec<(u64, String, u32, u32)> {
    hits.iter()
        .map(|h| (h.sort_value, h.split_id.clone(), h.segment_ord, h.doc_id))
        .collect()
}

#[test]
fn merge_orders_by_descending_score_then_ids() {
    let leaf_one = vec![hit(10, "split-b", 0, 4), hit(30, "split-a", 0, 1)];
    let leaf_two = vec![hit(20, "split-a", 0, 2), hit(30, "split-b", 0, 3)];
    let merged = merge_partial_hits(&vec![leaf_one, leaf_two], 0, 10);
    assert_eq!(
        keys(&merged),
        vec![
            (30, "split-a".to_string(), 0, 1),
            (30, "split-b".to_string(), 0, 3),
            (20, "split-a".to_string(), 0, 2),
            (10, "split-b".to_string(), 0, 4),
        ]
    );
}

#[test]
fn merge_breaks_full_ties_by_segment_and_doc() {
    let hits = vec![vec![
        hit(5, "s", 1, 0),
        hit(5, "s", 0, 9),
        hit(5, "s", 0, 2),
    ]];
    let merged = merge_partial_hits(&hits, 0, 10);
    assert_eq!(
        keys(&merged),
        vec![
            (5, "s".to_string(), 0, 2),
            (5, "s".to_string(), 0, 9),
            (5, "s".to_string(), 1, 0),
        ]
    );
}

#[test]
fn merge_is_deterministic_across_calls() {
    let responses = vec![
        vec![hit(7, "a", 0, 0), hit(9, "z", 0, 0)],
        vec![hit(9, "a", 0, 0), hit(1, "m", 0, 0)],
    ];
    let first = merge_partial_hits(&responses, 0, 10);
    let second = merge_partial_hits(&responses, 0, 10);
    assert_eq!(keys(&first), keys(&second));
}

#[test]
fn merge_applies_offset_and_truncation() {
    let responses = vec![vec![
        hit(4, "s", 0, 0),
        hit(3, "s", 0, 1),
        hit(2, "s", 0, 2),
        hit(1, "s", 0, 3),
    ]];
    // start_offset 1, max_hits 2: hits ranked second and third.
    let window = merge_partial_hits(&responses, 1, 2);
    assert_eq!(
        keys(&window),
        vec![(3, "s".to_string(), 0, 1), (2, "s".to_string(), 0, 2)]
    );
    // An offset past the end yields nothing.
    assert_eq!(merge_partial_hits(&responses, 9, 2).len(), 0);
    // A zero budget yields nothing.
    assert_eq!(merge_partial_hits(&responses, 0, 0).len(), 0);
}

#[test]
fn merge_of_no_responses_is_empty() {
    let merged = merge_partial_hits(&Vec::new(), 0, 10);
    assert_eq!(merged.len(), 0);
}

#[test]
fn num_hits_are_summed() {
    assert_eq!(sum_num_hits(&vec![2, 0, 5]), 7);
    assert_eq!(sum_num_hits(&Vec::new()), 0);
}

#[test]
fn csv_stream_of_two_matching_docs() {
    // Two matching documents with fast-field values 2 and 13: the
    // streamed body is exactly their CSV rows.
    let body = csv_body(&vec![2, 13]);
    assert_eq!(body, b"2\n13\n".to_vec());
}

#[test]
fn decimal_rendering_handles_boundaries() {
    assert_eq!(dec_digits(0), b"0".to_vec());
    assert_eq!(dec_digits(10), b"10".to_vec());
    assert_eq!(dec_digits(18446744073709551615), b"18446744073709551615".to_vec());
    assert_eq!(csv_body(&Vec::new()), Vec::<u8>::new());
}

#[test]
fn stream_chunks_are_forwarded_in_arrival_order() {
    let chunks = vec![b"2\n".to_vec(), b"13\n".to_vec(), Vec::new(), b"7\n".to_vec()];
    assert_eq!(assemble_stream(&chunks), b"2\n13\n7\n".to_vec());
}

#[test]
fn pick_node_is_deterministic_and_within_pool() {
    let nodes = vec![
        "10.0.0.1:7281".to_string(),
        "10.0.0.2:7281".to_string(),
        "10.0.0.3:7281".to_string(),
    ];
    let key = "split-one".to_string();
    let first = pick_node(&nodes, &key).unwrap();
    let second = pick_node(&nodes, &key).unwrap();
    assert_eq!(first, second);
    assert!(first < nodes.len());
    // An empty pool has no responsible node.
    assert_eq!(pick_node(&Vec::new(), &key), None);
}

#[test]
fn assignment_follows_the_picker() {
    let nodes = vec!["n1".to_string(), "n2".to_string()];
    let splits = vec!["a".to_string(), "b".to_string(), "c".to_string()];
    let assignment = assign_splits(&nodes, &splits);
    assert_eq!(assignment.len(), 3);
    for (k, node) in assignment.iter().enumerate() {
        assert_eq!(Some(*node), pick_node(&nodes, &splits[k]));
    }
}
