use unit_bpe::decode;
use unit_bpe::decode_py;
use unit_bpe::encode;
use unit_bpe::encode_py;
use unit_bpe::fit;
use unit_bpe::fit_py;
use unit_bpe::FitError;
use unit_bpe::MergeTable;

fn trained_table() -> MergeTable {
    let units = vec![0, 1, 0, 1, 2, 0, 1, 2, 3, 0, 1, 2, 3, 4, 0, 1, 2, 3, 4, 5];
    let (_encoded_units, merges) = fit(units, 10).unwrap();
    merges
}

#[test]
fn test_fit_encode_decode() {
    let units = vec![0, 1, 0, 1, 2, 0, 1, 2, 3, 0, 1, 2, 3, 4, 0, 1, 2, 3, 4, 5];
    let (_encoded_units, merges) = fit(units, 10).unwrap();
    let units_to_encode = vec![0, 1, 0, 1, 2, 3, 4, 5];
    let units_to_encode_copy = units_to_encode.clone();
    let encoded = encode(units_to_encode, &merges);
    let decoded = decode(encoded, &merges);
    assert_eq!(units_to_encode_copy, decoded);
}

#[test]
fn test_fit() {
    let units = vec![0, 1, 0, 1, 2, 0, 1, 2, 3, 0, 1, 2, 3, 4, 0, 1, 2, 3, 4, 5];
    let (encoded_units, merges) = fit(units, 10).unwrap();

    let expected_encoded_units = vec![6, 7, 8, 9, 9, 5];
    assert_eq!(expected_encoded_units, encoded_units);

    let expected_merges = vec![((0, 1), 6), ((6, 2), 7), ((7, 3), 8), ((8, 4), 9)];
    assert_eq!(merges.entries.len(), 4);
    for record in expected_merges.iter() {
        assert!(merges.entries.contains(record));
    }
}

#[test]
fn test_core() {
    let units = vec![0, 1, 0, 1, 2, 0, 1, 2, 3, 0, 1, 2, 3, 4, 0, 1, 2, 3, 4, 5];
    let (_encoded_units, merges) = fit(units, 10).unwrap();
    let units_to_encode = vec![0, 1, 0, 1, 2, 3, 4, 5];
    let units_to_encode_copy = units_to_encode.clone();
    let encoded = encode(units_to_encode, &merges);
    let decoded = decode(encoded, &merges);
    assert_eq!(units_to_encode_copy, decoded);
}

#[test]
fn merges_are_learned_in_priority_order() {
    let merges = trained_table();
    assert_eq!(
        merges.entries,
        vec![((0, 1), 6), ((6, 2), 7), ((7, 3), 8), ((8, 4), 9)]
    );
}

#[test]
fn encode_replays_merges_by_learning_order() {
    let merges = trained_table();
    let encoded = encode(vec![0, 1, 0, 1, 2, 3, 4, 5], &merges);
    assert_eq!(encoded, vec![6, 9, 5]);
    let decoded = decode(encoded, &merges);
    assert_eq!(decoded, vec![0, 1, 0, 1, 2, 3, 4, 5]);
}

#[test]
fn fit_rejects_small_target() {
    let units = vec![0, 1, 2];
    assert_eq!(fit(units, 3), Err(FitError::InvalidTarget));
    assert_eq!(fit(vec![5], 1), Err(FitError::InvalidTarget));
    assert_eq!(fit(vec![], 0), Err(FitError::InvalidTarget));
}

#[test]
fn fit_stops_when_pairs_run_out() {
    let (encoded, merges) = fit(vec![0, 1], 10).unwrap();
    assert_eq!(encoded, vec![2]);
    assert_eq!(merges.entries, vec![((0, 1), 2)]);
    assert!(merges.entries.len() <= 8);
}

#[test]
fn boundary_short_sequences_pass_through() {
    let merges = trained_table();
    let empty: Vec<i32> = Vec::new();
    assert_eq!(encode(empty.clone(), &merges), empty);
    assert_eq!(decode(empty.clone(), &merges), empty);
    assert_eq!(encode(vec![42], &merges), vec![42]);
    assert_eq!(decode(vec![42], &merges), vec![42]);
}

#[test]
fn decode_expands_single_merged_id() {
    let merges = trained_table();
    assert_eq!(decode(vec![9], &merges), vec![0, 1, 2, 3, 4]);
}

#[test]
fn decode_passes_unknown_ids_through() {
    let merges = trained_table();
    assert_eq!(decode(vec![100, 6, -3], &merges), vec![100, 0, 1, -3]);
}

#[test]
fn decode_is_idempotent() {
    let merges = trained_table();
    let once = decode(vec![6, 9, 5], &merges);
    let twice = decode(once.clone(), &merges);
    assert_eq!(once, twice);
}

#[test]
fn record_list_interface_round_trips() {
    let units = vec![0, 1, 0, 1, 2, 0, 1, 2, 3, 0, 1, 2, 3, 4, 0, 1, 2, 3, 4, 5];
    let (_encoded, records) = fit_py(units, 10).unwrap();
    assert_eq!(records, vec![((0, 1), 6), ((6, 2), 7), ((7, 3), 8), ((8, 4), 9)]);
    let encoded = encode_py(vec![0, 1, 2, 3], records.clone());
    assert_eq!(encoded, vec![8]);
    let decoded = decode_py(encoded, records);
    assert_eq!(decoded, vec![0, 1, 2, 3]);
}

#[test]
fn fit_py_rejects_small_target() {
    assert_eq!(fit_py(vec![0, 1, 2], 2), Err(FitError::InvalidTarget));
}

#[test]
fn negative_units_are_ordinary_symbols() {
    let (encoded, merges) = fit(vec![-5, -4, -5, -4, -5, -4], 3).unwrap();
    assert_eq!(merges.entries, vec![((-5, -4), -3)]);
    assert_eq!(encoded, vec![-3, -3, -3]);
    let decoded = decode(encoded, &merges);
    assert_eq!(decoded, vec![-5, -4, -5, -4, -5, -4]);
}
