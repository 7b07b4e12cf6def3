use nettle::Tag;
use sha3::Digest;

fn bytes_0_to_31() -> Vec<u8> {
    let mut v = Vec::new();
    for i in 0..32u8 {
        v.push(i);
    }
    v
}

#[test]
fn hex_round_trip() {
    let tag = Tag::from_bytes(bytes_0_to_31());
    let hex = tag.to_hex();
    assert_eq!(hex.len(), 64);
    assert_eq!(
        hex,
        "000102030405060708090a0b0c0d0e0f101112131415161718191a1b1c1d1e1f"
    );
    let back = Tag::try_from_hex(&hex).unwrap();
    assert_eq!(back.as_bytes(), tag.as_bytes());
}

#[test]
fn hex_accepts_uppercase() {
    let lower = Tag::try_from_hex(
        "00ff102030405060708090a0b0c0d0e0f101112131415161718191a1b1c1d1ee",
    )
    .unwrap();
    let upper = Tag::try_from_hex(
        "00FF102030405060708090A0B0C0D0E0F101112131415161718191A1B1C1D1EE",
    )
    .unwrap();
    assert_eq!(lower.as_bytes(), upper.as_bytes());
}

#[test]
fn hex_rejects_malformed() {
    assert!(matches!(Tag::try_from_hex(""), Err("malformed tag")));
    assert!(matches!(Tag::try_from_hex("0123"), Err("malformed tag")));
    assert!(matches!(
        Tag::try_from_hex("zz0102030405060708090a0b0c0d0e0f101112131415161718191a1b1c1d1e1f"),
        Err("malformed tag")
    ));
    assert!(matches!(
        Tag::try_from_hex("000102030405060708090a0b0c0d0e0f101112131415161718191a1b1c1d1e1f0"),
        Err("malformed tag")
    ));
}

#[test]
fn digest_matches_known_value() {
    let tag = Tag::digest(b"hello");
    assert_eq!(
        tag.to_hex(),
        "3338be694f50c5f338814986cdf0686453a888b84f424d792af4b9202398f392"
    );
}

#[test]
fn digest_matches_direct_sha3() {
    let direct: Vec<u8> = sha3::Sha3_256::digest(b"some test bytes").to_vec();
    let tag = Tag::digest(b"some test bytes");
    assert_eq!(tag.as_bytes(), &direct);
}

#[test]
fn digest_many_is_digest_of_concatenation() {
    let parts = vec![b"he".to_vec(), b"llo".to_vec(), Vec::new()];
    let combined = Tag::digest_many(&parts);
    let plain = Tag::digest(b"hello");
    assert_eq!(combined.as_bytes(), plain.as_bytes());
}

#[test]
fn distance_to_self_is_zero() {
    let tag = Tag::digest(b"anything");
    let dist = tag.dist_to(&tag);
    assert_eq!(dist.as_bytes(), &vec![0u8; 32]);
    assert_eq!(dist.level(), 0);
}

#[test]
fn distance_is_bytewise_xor_and_symmetric() {
    let a = Tag::digest(b"first");
    let b = Tag::digest(b"second");
    let ab = a.dist_to(&b);
    let ba = b.dist_to(&a);
    assert_eq!(ab.as_bytes(), ba.as_bytes());
    for i in 0..32 {
        assert_eq!(ab.as_bytes()[i], a.as_bytes()[i] ^ b.as_bytes()[i]);
    }
    assert_eq!(ab.level(), ba.level());
}

#[test]
fn distance_is_associative() {
    let a = Tag::digest(b"x");
    let b = Tag::digest(b"y");
    let c = Tag::digest(b"z");
    let left = a.dist_to(&b).dist_to(&c);
    let right = a.dist_to(&b.dist_to(&c));
    assert_eq!(left.as_bytes(), right.as_bytes());
}

#[test]
fn level_of_known_patterns() {
    let mut zero = vec![0u8; 32];
    assert_eq!(Tag::from_bytes(zero.clone()).level(), 0);

    zero[0] = 0x80;
    assert_eq!(Tag::from_bytes(zero.clone()).level(), 248);
    zero[0] = 0x01;
    assert_eq!(Tag::from_bytes(zero.clone()).level(), 255);
    zero[0] = 0x00;

    zero[31] = 0x01;
    assert_eq!(Tag::from_bytes(zero.clone()).level(), 7);
    zero[31] = 0x80;
    assert_eq!(Tag::from_bytes(zero.clone()).level(), 0);
}

#[test]
fn lexicographic_order_on_tags() {
    let mut lo = vec![0u8; 32];
    let mut hi = vec![0u8; 32];
    lo[31] = 0xff;
    hi[30] = 0x01;
    let lo = Tag::from_bytes(lo);
    let hi = Tag::from_bytes(hi);
    assert!(lo.lt(&hi));
    assert!(!hi.lt(&lo));
    assert!(!lo.lt(&lo));
}

#[test]
fn generated_tags_are_well_formed() {
    let tag = Tag::generate();
    assert_eq!(tag.as_bytes().len(), 32);
    let hex = tag.to_hex();
    let back = Tag::try_from_hex(&hex).unwrap();
    assert_eq!(back.as_bytes(), tag.as_bytes());
}
