use nettle::identity::PrivateId;

#[test]
fn from_seed_is_deterministic() {
    let a = PrivateId::from_seed(b"a fixed seed");
    let b = PrivateId::from_seed(b"a fixed seed");
    assert_eq!(a.pub_id.tag.as_bytes(), b.pub_id.tag.as_bytes());
    assert_eq!(a.pub_id.key.modulus_le, b.pub_id.key.modulus_le);
    assert_eq!(a.pub_id.key.exponent_le, b.pub_id.key.exponent_le);
    // A 2048-bit modulus.
    assert_eq!(a.pub_id.key.modulus_le.len(), 256);
}
