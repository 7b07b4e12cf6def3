use nettle::identity::{PublicId, PublicKey};
use nettle::Tag;
use sha3::Digest;

fn sample_key() -> PublicKey {
    PublicKey {
        modulus_le: vec![0xaa, 0xbb, 0xcc, 0xdd],
        exponent_le: vec![0x01, 0x00, 0x01],
    }
}

#[test]
fn fingerprint_digests_modulus_then_exponent() {
    let key = sample_key();
    let mut concat = key.modulus_le.clone();
    concat.extend_from_slice(&key.exponent_le);
    let direct: Vec<u8> = sha3::Sha3_256::digest(&concat).to_vec();
    let fp = Tag::fingerprint(&key);
    assert_eq!(fp.as_bytes(), &direct);
}

#[test]
fn from_key_sets_tag_to_fingerprint() {
    let key = sample_key();
    let expected = Tag::fingerprint(&key);
    let id = PublicId::from_key(sample_key());
    assert_eq!(id.tag.as_bytes(), expected.as_bytes());
    assert_eq!(id.key.modulus_le, key.modulus_le);
    assert_eq!(id.key.exponent_le, key.exponent_le);
}

#[test]
fn serialized_form_round_trips_the_tag() {
    // The serialized form of an identity is its key alone; rebuilding from
    // the key yields the same tag.
    let id = PublicId::from_key(sample_key());
    let rebuilt = PublicId::from_key(id.key.duplicate());
    assert_eq!(rebuilt.tag.as_bytes(), id.tag.as_bytes());
    assert!(rebuilt.same_key(&id));
}

#[test]
fn same_key_compares_keys_not_tags() {
    let a = PublicId::from_key(sample_key());
    let b = PublicId::from_key(PublicKey {
        modulus_le: vec![0x01],
        exponent_le: vec![0x02],
    });
    assert!(a.same_key(&a));
    assert!(!a.same_key(&b));
}

#[test]
fn human_readable_name_joins_words() {
    let mut bytes = vec![0u8; 32];
    bytes[0] = 0x00;
    bytes[1] = 0x12;
    let id = PublicId {
        tag: Tag::from_bytes(bytes),
        key: sample_key(),
    };
    assert_eq!(id.human_readable_name(0), "");
    assert_eq!(id.human_readable_name(1), "baba");
    assert_eq!(id.human_readable_name(2), "baba_defi");
}

#[test]
fn human_readable_name_caps_at_tag_length() {
    let id = PublicId {
        tag: Tag::from_bytes(vec![0u8; 32]),
        key: sample_key(),
    };
    let full = id.human_readable_name(32);
    let over = id.human_readable_name(100);
    assert_eq!(full, over);
    // 32 words of 4 letters plus 31 underscores.
    assert_eq!(full.len(), 32 * 4 + 31);
}
