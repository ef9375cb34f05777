//! The shape of the network.

use chesszero::nn::{check_config, prefix_mask, read_config, readouts, ConfigError, ModelConfig};
use chesszero::vocab::{PREFIX_LEN, SEQ_LEN};

#[test]
fn mask_is_bidirectional_over_the_board_and_causal_over_the_trace() {
    let mask = prefix_mask(SEQ_LEN, PREFIX_LEN);
    let at = |i: usize, j: usize| mask[i * SEQ_LEN + j];
    assert!(at(0, PREFIX_LEN - 1) && at(PREFIX_LEN - 1, 0), "board is bidirectional");
    assert!(at(5, 60) && at(60, 5));
    assert!(!at(PREFIX_LEN, PREFIX_LEN + 1), "trace is causal");
    assert!(at(PREFIX_LEN + 1, PREFIX_LEN));
    assert!(at(SEQ_LEN - 1, 5), "trace still sees the board");
}

#[test]
fn a_small_mask_is_exact() {
    let t = true;
    let f = false;
    assert_eq!(prefix_mask(3, 2), vec![t, t, f, t, t, f, t, t, t]);
    assert!(prefix_mask(0, 5).is_empty());
}

fn file(pairs: &[(&str, &str)]) -> Vec<u8> {
    let body: Vec<String> = pairs.iter().map(|(k, v)| format!("\"{k}\":\"{v}\"")).collect();
    header(&format!("{{\"__metadata__\":{{{}}}}}", body.join(",")))
}

fn header(json: &str) -> Vec<u8> {
    let mut bytes = (json.len() as u64).to_le_bytes().to_vec();
    bytes.extend(json.bytes());
    bytes
}

const GOOD: [(&str, &str); 8] = [
    ("d_model", "64"),
    ("n_layer", "2"),
    ("n_head", "4"),
    ("d_ff", "96"),
    ("vocab_size", "196"),
    ("seq_len", "102"),
    ("prefix_len", "70"),
    ("n_moves", "4672"),
];

fn with(key: &str, value: &str) -> Vec<u8> {
    let pairs: Vec<(&str, &str)> = GOOD.iter().map(|(k, v)| (*k, if *k == key { value } else { *v })).collect();
    file(&pairs)
}

#[test]
fn config_round_trips_through_metadata() {
    let cfg = read_config(&file(&GOOD)).unwrap();
    assert_eq!(cfg.d_model, 64);
    assert_eq!(cfg.n_layer, 2);
    assert_eq!(cfg.n_head, 4);
    assert_eq!(cfg.d_ff, 96);
    assert_eq!(cfg.vocab_size, 196);
    assert_eq!(cfg.seq_len, SEQ_LEN);
    assert_eq!(cfg.prefix_len, PREFIX_LEN);
    assert_eq!(cfg.n_moves, 4672);
    assert!(check_config(&ModelConfig::default()).is_ok());
}

#[test]
fn files_that_do_not_fit_are_refused() {
    assert!(matches!(read_config(&vec![1, 2, 3]), Err(ConfigError::Header(_))));
    assert!(matches!(read_config(&header("{}")), Err(ConfigError::NoMetadata)));
    match read_config(&file(&GOOD[..2])) {
        Err(ConfigError::Missing(key)) => assert_eq!(key, "n_head"),
        other => panic!("{other:?}"),
    }
    match read_config(&with("d_ff", "many")) {
        Err(ConfigError::NotANumber { key, value }) => assert_eq!((key.as_str(), value.as_str()), ("d_ff", "many")),
        other => panic!("{other:?}"),
    }
    assert!(matches!(
        read_config(&with("seq_len", "100")),
        Err(ConfigError::Lengths { prefix_len: 70, seq_len: 100 })
    ));
    assert!(matches!(read_config(&with("vocab_size", "195")), Err(ConfigError::Vocabulary(195))));
    assert!(matches!(read_config(&with("n_head", "5")), Err(ConfigError::Heads { d_model: 64, n_head: 5 })));
    assert!(matches!(read_config(&with("n_head", "0")), Err(ConfigError::NoHeads)));
}

fn tensor(name: &str, size: u64, end: u64) -> Vec<u8> {
    header(&format!("{{\"{name}\":{{\"dtype\":\"U8\",\"shape\":[{size}],\"data_offsets\":[0,{end}]}}}}"))
}

#[test]
fn headers_that_reach_too_far_are_refused() {
    // the end of the tensor, eight and the header's length exceed the largest number
    assert!(matches!(read_config(&tensor("w", u64::MAX, u64::MAX)), Err(ConfigError::Offsets)));
    let slack = 8 + tensor("w", u64::MAX, u64::MAX).len() as u64 - 8;
    let last = u64::MAX - slack;
    assert!(matches!(read_config(&tensor("w", last + 1, last + 1)), Err(ConfigError::Offsets)));
    assert!(matches!(read_config(&tensor("w", last, last)), Err(ConfigError::Header(_))));
    // so is one written as a list
    let list = header(&format!("{{\"w\":[\"U8\",[{0}],[0,{0}]]}}", u64::MAX));
    assert!(matches!(read_config(&list), Err(ConfigError::Offsets)));
}

/// A file with good metadata and one more entry in its header.
fn with_entry(entry: &str) -> Vec<u8> {
    let body: Vec<String> = GOOD.iter().map(|(k, v)| format!("\"{k}\":\"{v}\"")).collect();
    header(&format!("{{\"__metadata__\":{{{}}},{entry}}}", body.join(",")))
}

#[test]
fn only_the_ends_of_tensors_can_reach_too_far() {
    for entry in [
        // an empty tensor with a long side
        "\"w\":{\"dtype\":\"F32\",\"shape\":[0,18446744073709551615],\"data_offsets\":[0,0]}",
        // long numbers in fields that nobody reads
        "\"w\":{\"dtype\":\"U8\",\"shape\":[0],\"data_offsets\":[0,0],\"note\":123456789012345678901234567890}",
        "\"w\":{\"dtype\":\"U8\",\"shape\":[0],\"data_offsets\":[0,0],\"note\":0.3333333333333333333333333333}",
        "\"w\":{\"dtype\":\"U8\",\"shape\":[0],\"data_offsets\":[0,0],\"note\":{\"data_offsets\":[0,18446744073709551615]}}",
        // digits in a name
        "\"18446744073709551615\":{\"dtype\":\"U8\",\"shape\":[0],\"data_offsets\":[0,0]}",
    ] {
        let cfg = read_config(&with_entry(entry)).unwrap();
        assert_eq!((cfg.d_model, cfg.n_layer, cfg.n_head, cfg.d_ff), (64, 2, 4, 96), "{entry}");
        assert_eq!((cfg.vocab_size, cfg.seq_len, cfg.prefix_len, cfg.n_moves), (196, 102, 70, 4672), "{entry}");
    }
    let far = "\"w\":{\"dtype\":\"U8\",\"shape\":[18446744073709551615],\"data\\u005foffsets\":[0,18446744073709551615]}";
    assert!(matches!(read_config(&with_entry(far)), Err(ConfigError::Offsets)));
}

#[test]
fn heads_read_the_ends() {
    assert_eq!(readouts(PREFIX_LEN, SEQ_LEN), (69, 101));
    assert_eq!(readouts(PREFIX_LEN, 10), (9, 9));
}
