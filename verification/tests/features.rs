use fastdata_tfrecord::sharding::apply_sharding_filter;
use fastdata_tfrecord::tensorflow::{BytesList, Example, Feature, Features, Int64List, Kind};

fn sample_example() -> Example {
    Example {
        features: Some(Features {
            feature: vec![
                (
                    "image".to_string(),
                    Feature {
                        kind: Some(Kind::BytesList(BytesList {
                            value: vec![b"png-bytes".to_vec(), b"more".to_vec()],
                        })),
                    },
                ),
                (
                    "label".to_string(),
                    Feature { kind: Some(Kind::Int64List(Int64List { value: vec![3, 1, 4] })) },
                ),
                ("hollow".to_string(), Feature { kind: None }),
            ],
        }),
    }
}

#[test]
fn get_bytes_list_finds_named_feature() {
    let example = sample_example();
    let bytes = example.get_bytes_list("image").unwrap();
    assert_eq!(bytes, vec![b"png-bytes".to_vec(), b"more".to_vec()]);
    assert!(example.get_bytes_list("label").is_none());
    assert!(example.get_bytes_list("hollow").is_none());
    assert!(example.get_bytes_list("missing").is_none());
}

#[test]
fn get_int64_list_finds_named_feature() {
    let example = sample_example();
    assert_eq!(example.get_int64_list("label").unwrap(), vec![3, 1, 4]);
    assert!(example.get_int64_list("image").is_none());
    assert!(example.get_int64_list("missing").is_none());
}

#[test]
fn take_bytes_list_removes_the_entry() {
    let mut example = sample_example();
    let taken = example.take_bytes_list("image").unwrap();
    assert_eq!(taken, vec![b"png-bytes".to_vec(), b"more".to_vec()]);
    // The entry is gone now.
    assert!(example.get_bytes_list("image").is_none());
    // Other entries stay.
    assert_eq!(example.get_int64_list("label").unwrap(), vec![3, 1, 4]);
    // Taking a non-bytes feature removes it and yields nothing.
    assert!(example.take_bytes_list("label").is_none());
    assert!(example.get_int64_list("label").is_none());
}

#[test]
fn example_without_features_yields_nothing() {
    let mut example = Example { features: None };
    assert!(example.get_bytes_list("x").is_none());
    assert!(example.get_int64_list("x").is_none());
    assert!(example.take_bytes_list("x").is_none());
}

#[test]
fn sharding_keeps_leading_matches_only() {
    // Rank 0 of world size 2: position 0 matches, position 1 does not,
    // and the run stops there.
    let items = vec![10, 11, 12, 13];
    assert_eq!(apply_sharding_filter(items, 2, 0), vec![10]);
    // Rank 1 never matches position 0, so nothing is kept.
    let items = vec![10, 11, 12, 13];
    assert_eq!(apply_sharding_filter(items, 2, 1), Vec::<i32>::new());
    // World size 1, rank 0 keeps everything.
    let items = vec![10, 11, 12, 13];
    assert_eq!(apply_sharding_filter(items, 1, 0), vec![10, 11, 12, 13]);
}
