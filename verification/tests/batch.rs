use unit_bpe::decode_concurrent;
use unit_bpe::decode_concurrent_py;
use unit_bpe::encode_concurrent;
use unit_bpe::encode_concurrent_py;
use unit_bpe::fit;
use unit_bpe::fit_concurrent;
use unit_bpe::fit_concurrent_py;
use unit_bpe::FitError;

#[test]
fn lib_test_concurrent() {
    let units_list = vec![
        vec![0, 1, 0, 1, 2, 0, 1, 2, 3],
        vec![0, 1, 2, 3, 4, 0, 1, 2, 3, 4, 5],
    ];
    let (_encoded_units, merges) = fit_concurrent(units_list, 10).unwrap();

    let units_list_to_encode = vec![vec![0, 1, 0, 1, 2, 3, 4, 5], vec![0, 1, 2, 0, 1, 2, 3]];
    let units_list_to_encode_copy = units_list_to_encode.clone();
    let encoded = encode_concurrent(units_list_to_encode, &merges);
    let decoded = decode_concurrent(encoded, &merges);

    assert_eq!(units_list_to_encode_copy, decoded)
}

#[test]
fn test_fit_concurrent() {
    let units_list = vec![
        vec![0, 1, 0, 1, 2, 0, 1, 2, 3],
        vec![0, 1, 2, 3, 4, 0, 1, 2, 3, 4, 5],
    ];
    let (encoded_units, merges) = fit_concurrent(units_list, 10).unwrap();

    let expected_encoded_units = vec![vec![6, 7, 8], vec![9, 9, 5]];
    assert_eq!(expected_encoded_units, encoded_units);

    let expected_merges = vec![((0, 1), 6), ((8, 4), 9), ((7, 3), 8), ((6, 2), 7)];
    assert_eq!(merges.entries.len(), 4);
    for record in expected_merges.iter() {
        assert!(merges.entries.contains(record));
    }
}

#[test]
fn test_test_concurrent() {
    let units_list = vec![
        vec![0, 1, 0, 1, 2, 0, 1, 2, 3],
        vec![0, 1, 2, 3, 4, 0, 1, 2, 3, 4, 5],
    ];
    let (_encoded_units, merges) = fit_concurrent(units_list, 10).unwrap();

    let units_list_to_encode = vec![vec![0, 1, 0, 1, 2, 3, 4, 5], vec![0, 1, 2, 0, 1, 2, 3]];
    let units_list_to_encode_copy = units_list_to_encode.clone();
    let encoded = encode_concurrent(units_list_to_encode, &merges);
    let decoded = decode_concurrent(encoded, &merges);

    assert_eq!(units_list_to_encode_copy, decoded)
}

#[test]
fn batch_matches_single_on_one_sequence() {
    let s = vec![0, 1, 0, 1, 2, 0, 1, 2, 3, 0, 1, 2, 3, 4, 0, 1, 2, 3, 4, 5];
    let (single_out, single_merges) = fit(s.clone(), 10).unwrap();
    let (batch_out, batch_merges) = fit_concurrent(vec![s], 10).unwrap();
    assert_eq!(batch_merges.entries, single_merges.entries);
    assert_eq!(batch_out, vec![single_out]);
}

#[test]
fn fit_concurrent_rejects_small_target() {
    let units_list = vec![vec![0, 1], vec![2, 3]];
    assert_eq!(fit_concurrent(units_list, 4), Err(FitError::InvalidTarget));
    let empty: Vec<Vec<i32>> = Vec::new();
    assert_eq!(fit_concurrent(empty, 0), Err(FitError::InvalidTarget));
}

#[test]
fn fit_concurrent_handles_empty_sequences() {
    let units_list = vec![vec![], vec![4], vec![]];
    let (out, merges) = fit_concurrent(units_list, 5).unwrap();
    assert_eq!(out, vec![vec![], vec![4], vec![]]);
    assert!(merges.entries.is_empty());
}

#[test]
fn batch_record_list_interface_round_trips() {
    let units_list = vec![
        vec![0, 1, 0, 1, 2, 0, 1, 2, 3],
        vec![0, 1, 2, 3, 4, 0, 1, 2, 3, 4, 5],
    ];
    let (_out, records) = fit_concurrent_py(units_list, 10).unwrap();
    assert_eq!(records, vec![((0, 1), 6), ((6, 2), 7), ((7, 3), 8), ((8, 4), 9)]);

    let to_code = vec![vec![0, 1], vec![0, 1, 2]];
    let encoded = encode_concurrent_py(to_code.clone(), records.clone());
    assert_eq!(encoded, vec![vec![6], vec![7]]);
    let decoded = decode_concurrent_py(encoded, records);
    assert_eq!(decoded, to_code);
}
