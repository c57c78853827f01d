use iroh_bytes::filename::FileName;

fn h(b: u8) -> iroh_bytes::hash::Hash {
    iroh_bytes::hash::Hash::from([b; 32])
}

#[test]
fn filename_parse_error() {
    assert!(FileName::from_str("foo").is_err());
    assert!(FileName::from_str("1234.data").is_err());
    assert!(FileName::from_str("1234ABDC.outboard").is_err());
    assert!(FileName::from_str("1234-1234.data").is_err());
    assert!(FileName::from_str("1234ABDC-1234.outboard").is_err());
}

#[test]
fn filename_round_trip_each_kind() {
    let names = vec![
        FileName::Data(h(1)),
        FileName::Outboard(h(2)),
        FileName::Paths(h(3)),
        FileName::PartialData(h(4), [9; 16]),
        FileName::PartialOutboard(h(5), [0xfe; 16]),
        FileName::Meta(vec![]),
        FileName::Meta(b"tags".to_vec()),
    ];
    for name in names {
        let s = name.to_string();
        assert_eq!(FileName::from_str(&s), Ok(name));
    }
}

#[test]
fn filename_text_shapes() {
    let data = FileName::Data(h(0xab)).to_string();
    assert_eq!(data, format!("{}.data", "ab".repeat(32)));
    let partial = FileName::PartialOutboard(h(0x01), [0x10; 16]).to_string();
    assert_eq!(partial, format!("{}-{}.obao4", "01".repeat(32), "10".repeat(16)));
    assert_eq!(FileName::Meta(vec![0xde, 0xad]).to_string(), "dead.meta");
}

#[test]
fn filename_accepts_upper_case_and_leading_dot() {
    let upper = format!("{}.data", "AB".repeat(32));
    assert_eq!(FileName::from_str(&upper), Ok(FileName::Data(h(0xab))));
    let dotted = format!(".{}.paths", "ab".repeat(32));
    assert_eq!(FileName::from_str(&dotted), Ok(FileName::Paths(h(0xab))));
    let unknown = format!("{}.temp", "ab".repeat(32));
    assert!(FileName::from_str(&unknown).is_err());
}

#[test]
fn filename_temporary() {
    assert!(FileName::PartialData(h(1), [0; 16]).temporary());
    assert!(FileName::PartialOutboard(h(1), [0; 16]).temporary());
    assert!(!FileName::Data(h(1)).temporary());
    assert!(!FileName::Meta(vec![]).temporary());
}

#[test]
fn filename_from_path_takes_last_component() {
    let path = format!("/store/complete/{}.obao4", "ab".repeat(32));
    assert_eq!(FileName::from_path(&path), Ok(FileName::Outboard(h(0xab))));
    assert!(FileName::from_path("/").is_err());
}
