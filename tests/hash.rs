use iroh_bytes::hash::{BlobFormat, Cid, CidError, HashAndFormat};

fn ab_hash() -> iroh_bytes::hash::Hash {
    iroh_bytes::hash::Hash::from([0xab; 32])
}

fn cid_hex(bytes: &[u8]) -> String {
    hex::encode(bytes)
}

#[test]
fn test_hash() {
    let data = b"hello world";
    let hash = iroh_bytes::hash::Hash::new(data);

    let encoded = hash.to_string();
    assert_eq!(encoded.parse::<iroh_bytes::hash::Hash>().unwrap(), hash);
}

#[test]
fn hash_wire_format() {
    let hash = ab_hash();
    let serialized = postcard::to_stdvec(hash.as_bytes()).unwrap();
    let expected = vec![0xabu8; 32];
    assert_eq!(serialized, expected);
}

#[test]
fn hash_multiformat() {
    let hash = ab_hash();
    let serialized = hash.as_cid_bytes();
    let mut expected = vec![0x01u8, 0x55, 0x1e, 0x20];
    expected.extend_from_slice(&[0xab; 32]);
    assert_eq!(serialized.to_vec(), expected);
}

#[test]
fn cid_multiformat() {
    let hash = ab_hash();
    let cid = Cid(hash, BlobFormat::raw());
    let serialized = cid.to_cid_bytes();
    let mut expected = vec![0x01u8, 0x55, 0x1e, 0x20];
    expected.extend_from_slice(&[0xab; 32]);
    assert_eq!(cid_hex(&serialized), cid_hex(&expected));
    assert_eq!(cid.to_string(), hash.to_string());

    let cid = Cid(hash, BlobFormat(0x71)); // dag-cbor
    let serialized = cid.to_cid_bytes();
    let mut expected = vec![0x01u8, 0x71, 0x1e, 0x20];
    expected.extend_from_slice(&[0xab; 32]);
    assert_eq!(cid_hex(&serialized), cid_hex(&expected));
    assert_eq!(
        cid.to_string(),
        "bafyr4iflvov2xk5lvov2xk5lvov2xk5lvov2xk5lvov2xk5lvov2xk5lvm"
    );

    let cid = Cid(hash, BlobFormat(0x90)); // eth-block
    let serialized = cid.to_cid_bytes();
    let mut expected = vec![0x01u8, 0x90, 0x01, 0x1e, 0x20];
    expected.extend_from_slice(&[0xab; 32]);
    assert_eq!(cid_hex(&serialized), cid_hex(&expected));
    assert_eq!(
        cid.to_string(),
        "bagiachravov2xk5lvov2xk5lvov2xk5lvov2xk5lvov2xk5lvov2xk5lvovq"
    );
}

#[test]
fn test_hash_postcard() {
    let hash = iroh_bytes::hash::Hash::new(b"hello");
    let ser = postcard::to_stdvec(hash.as_bytes()).unwrap();
    let de: [u8; 32] = postcard::from_bytes(&ser).unwrap();
    assert_eq!(hash, iroh_bytes::hash::Hash::from(de));

    assert_eq!(ser.len(), 32);
}

#[test]
fn hash_new_is_blake3_of_the_input() {
    let empty = iroh_bytes::hash::Hash::new(b"");
    assert_eq!(
        empty.to_hex(),
        "af1349b9f5f9a1a6a0404dea36dcc9499bcb25c9adc112b7cc9a93cae41f3262"
    );
    let zeros = iroh_bytes::hash::Hash::new(&[0u8; 32]);
    assert_ne!(zeros.as_bytes(), &[0u8; 32]);
}

#[test]
fn hash_to_hex_is_lower_case_pairs() {
    let mut bytes = [0u8; 32];
    bytes[0] = 0x0f;
    bytes[31] = 0xa0;
    let h = iroh_bytes::hash::Hash::from(bytes);
    let hex = h.to_hex();
    assert_eq!(hex.len(), 64);
    assert!(hex.starts_with("0f00"));
    assert!(hex.ends_with("00a0"));
}

#[test]
fn hash_text_round_trip_and_case() {
    let hash = ab_hash();
    let text = hash.to_string();
    assert_eq!(text.len(), 59);
    assert!(text.starts_with('b'));
    assert_eq!(text, text.to_ascii_lowercase());
    assert_eq!(iroh_bytes::hash::Hash::parse(&text), Ok(hash));
    // upper-case base32 digits after the lower-case prefix are accepted too
    let mixed = format!("b{}", text[1..].to_ascii_uppercase());
    assert_eq!(iroh_bytes::hash::Hash::parse(&mixed), Ok(hash));
}

#[test]
fn hash_parse_through_multibase() {
    let hash = ab_hash();
    let text = hash.to_string();
    // 'B' is the multibase prefix of upper-case base32
    let upper = text.to_ascii_uppercase();
    assert_eq!(iroh_bytes::hash::Hash::parse(&upper), Ok(hash));
    assert_eq!(
        iroh_bytes::hash::Hash::parse("not a hash"),
        Err(CidError::InvalidMultibase)
    );
}

#[test]
fn hash_parse_errors() {
    // a 59-character string that starts with b but is not base32
    let bad = format!("b{}", "1".repeat(58));
    assert_eq!(iroh_bytes::hash::Hash::parse(&bad), Err(CidError::InvalidBase32));
    // a CID of another codec is not a raw hash
    let cid = Cid(ab_hash(), BlobFormat(0x71)).to_string();
    assert_eq!(iroh_bytes::hash::Hash::parse(&cid), Err(CidError::InvalidPrefix));
}

#[test]
fn hash_from_cid_bytes_checks() {
    let hash = ab_hash();
    let bytes = hash.as_cid_bytes();
    assert_eq!(iroh_bytes::hash::Hash::from_cid_bytes(&bytes), Ok(hash));
    assert_eq!(
        iroh_bytes::hash::Hash::from_cid_bytes(&bytes[..35]),
        Err(CidError::InvalidLength)
    );
    let mut wrong = bytes;
    wrong[1] = 0x71;
    assert_eq!(
        iroh_bytes::hash::Hash::from_cid_bytes(&wrong),
        Err(CidError::InvalidPrefix)
    );
}

#[test]
fn cid_bytes_round_trip_and_errors() {
    let cid = Cid(ab_hash(), BlobFormat(0x90));
    let bytes = cid.to_cid_bytes();
    assert_eq!(Cid::from_cid_bytes(&bytes), Ok(cid));
    assert_eq!(Cid::from_cid_bytes(&bytes[..20]), Err(CidError::Truncated));
    let mut v2 = bytes.clone();
    v2[0] = 2;
    assert_eq!(Cid::from_cid_bytes(&v2), Err(CidError::InvalidVersion));
    let mut sha = Cid(ab_hash(), BlobFormat::raw()).to_cid_bytes();
    sha[2] = 0x12;
    assert_eq!(Cid::from_cid_bytes(&sha), Err(CidError::InvalidHashCode));
    let mut size = Cid(ab_hash(), BlobFormat::raw()).to_cid_bytes();
    size[3] = 0x21;
    assert_eq!(Cid::from_cid_bytes(&size), Err(CidError::InvalidHashSize));
}

#[test]
fn blob_formats() {
    assert!(BlobFormat::raw().is_raw());
    assert!(!BlobFormat::raw().is_collection());
    assert!(BlobFormat::collection().is_collection());
    assert_eq!(BlobFormat::raw().code(), 0x55);
    assert_eq!(BlobFormat::collection().code(), 0x73);
    let a = HashAndFormat { hash: ab_hash(), format: BlobFormat::raw() };
    let b = HashAndFormat { hash: ab_hash(), format: BlobFormat::collection() };
    assert_ne!(a, b);
}
