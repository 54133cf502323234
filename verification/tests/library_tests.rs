use mysticeti_twin::identity::preimage_bytes;
use mysticeti_twin::model::{deterministic_block_id, AuthorityId, Block};
use mysticeti_twin::parsing::parse_jobs;
use mysticeti_twin::render::{decimal, hex_lower};

#[test]
fn decimal_and_hex_rendering() {
    assert_eq!(decimal(0), "0");
    assert_eq!(decimal(1234567890), "1234567890");
    assert_eq!(decimal(u64::MAX), "18446744073709551615");
    assert_eq!(hex_lower(&[0x00, 0x0f, 0xa0, 0xff]), "000fa0ff");
    assert_eq!(hex_lower(&[]), "");
}

#[test]
fn block_ids_are_sha256_of_the_framed_preimage() {
    let a = AuthorityId("a".into());
    let proposal = deterministic_block_id(&a, 0, 0, 0, &[]);
    assert_eq!(proposal, "911c1aae4e4e5919750c444f57926a15c8aa8ad39a1a775b524782a584c7609d");
    let support = Block::new(a.clone(), 1, 0, 0, vec![proposal.clone()]);
    assert_eq!(support.id, "9f04c5fcbb82d77c42626232f69baaeff0833e70ea163e05bae72494ef1cc78d");
}

#[test]
fn block_preimage_frames_every_field() {
    let bytes = preimage_bytes("ab", 1, 2, 3, &["p".to_string()]);
    let mut expected: Vec<u8> = Vec::new();
    expected.extend_from_slice(b"mysticeti-twin:block:v1\0");
    expected.extend_from_slice(&2u64.to_be_bytes());
    expected.extend_from_slice(b"ab");
    expected.extend_from_slice(&1u32.to_be_bytes());
    expected.extend_from_slice(&2u32.to_be_bytes());
    expected.extend_from_slice(&3u32.to_be_bytes());
    expected.extend_from_slice(&1u64.to_be_bytes());
    expected.extend_from_slice(b"p");
    assert_eq!(bytes, expected);
}

#[test]
fn jobs_must_be_a_positive_integer() {
    assert_eq!(parse_jobs("8"), Ok(8));
    assert_eq!(parse_jobs("0"), Err("jobs must be nonzero".to_string()));
    assert!(parse_jobs("abc").is_err());
    assert!(parse_jobs("-1").is_err());
}
