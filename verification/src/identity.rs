//! Node identities.
//!
//! A [`PublicId`] binds an RSA public key to its fingerprint tag. The key is
//! held as plain values: the little-endian bytes of the modulus and of the
//! public exponent, which is exactly what the fingerprint digests. A
//! [`PrivateId`] derives its key pair deterministically from a secret seed
//! tag.

use vstd::prelude::*;

use crate::tag::{digest_of, Tag, TAG_LEN};

verus! {

/// The public half of an RSA key pair, as plain values: the canonical
/// little-endian serialization of the modulus, then of the public exponent.
pub struct PublicKey {
    pub modulus_le: Vec<u8>,
    pub exponent_le: Vec<u8>,
}

impl View for PublicKey {
    type V = (Seq<u8>, Seq<u8>);

    open spec fn view(&self) -> (Seq<u8>, Seq<u8>) {
        (self.modulus_le@, self.exponent_le@)
    }
}

/// The fingerprint of a public key: the digest of the modulus bytes followed
/// by the exponent bytes.
pub open spec fn fingerprint_of(key: (Seq<u8>, Seq<u8>)) -> Seq<u8> {
    digest_of(key.0 + key.1)
}

impl PublicKey {
    /// A copy of the key with the same bytes.
    pub fn duplicate(&self) -> (r: PublicKey)
        ensures
            r@ == self@,
    {
        PublicKey {
            modulus_le: copy_bytes(&self.modulus_le),
            exponent_le: copy_bytes(&self.exponent_le),
        }
    }
}

/// Copy a byte vector.
pub fn copy_bytes(v: &Vec<u8>) -> (r: Vec<u8>)
    ensures
        r@ == v@,
{
    let mut r: Vec<u8> = Vec::new();
    let mut i: usize = 0;
    while i < v.len()
        invariant
            i <= v@.len(),
            r@ == v@.subrange(0, i as int),
        decreases v@.len() - i,
    {
        r.push(v[i]);
        i = i + 1;
    }
    proof {
        assert(r@ =~= v@);
    }
    r
}

impl Tag {
    /// The fingerprint of an RSA public key: the digest of the little-endian
    /// modulus bytes followed by the little-endian exponent bytes.
    pub fn fingerprint(key: &PublicKey) -> (r: Tag)
        ensures
            r@ == fingerprint_of(key@),
            r.wf(),
    {
        let mut all = copy_bytes(&key.modulus_le);
        let mut i: usize = 0;
        while i < key.exponent_le.len()
            invariant
                i <= key.exponent_le@.len(),
                all@ == key.modulus_le@ + key.exponent_le@.subrange(0, i as int),
            decreases key.exponent_le@.len() - i,
        {
            all.push(key.exponent_le[i]);
            proof {
                assert(all@ =~= key.modulus_le@ + key.exponent_le@.subrange(0, i + 1));
            }
            i = i + 1;
        }
        proof {
            assert(all@ =~= key.modulus_le@ + key.exponent_le@);
        }
        Tag::digest(all.as_slice())
    }
}

/// A public identity: a key and its fingerprint tag. The tag is always
/// recomputed from the key; a tag supplied alongside a key is never trusted.
pub struct PublicId {
    pub tag: Tag,
    pub key: PublicKey,
}

impl PublicId {
    /// A public identity is well formed when its tag is the fingerprint of
    /// its key.
    pub open spec fn wf(&self) -> bool {
        self.tag.wf() && self.tag@ == fingerprint_of(self.key@)
    }

    /// Build an identity from a key, computing the fingerprint.
    pub fn from_key(key: PublicKey) -> (r: PublicId)
        ensures
            r.key@ == key@,
            r.tag@ == fingerprint_of(key@),
            r.wf(),
    {
        let tag = Tag::fingerprint(&key);
        PublicId { tag, key }
    }

    /// A copy of the identity with the same key and tag.
    pub fn duplicate(&self) -> (r: PublicId)
        ensures
            r.tag@ == self.tag@,
            r.key@ == self.key@,
            self.wf() ==> r.wf(),
    {
        PublicId { tag: self.tag.duplicate(), key: self.key.duplicate() }
    }

    /// Whether two identities hold the same key. Identity equality goes by
    /// the key; the tag is derived from it.
    pub fn same_key(&self, other: &PublicId) -> (r: bool)
        ensures
            r == (self.key@ == other.key@),
    {
        let r = self.key.modulus_le == other.key.modulus_le && self.key.exponent_le
            == other.key.exponent_le;
        proof {
            if self.key.modulus_le@.len() == other.key.modulus_le@.len() && (forall|i: int|
                0 <= i < self.key.modulus_le@.len() ==> self.key.modulus_le@[i]
                    == other.key.modulus_le@[i]) {
                assert(self.key.modulus_le@ =~= other.key.modulus_le@);
            }
            if self.key.exponent_le@.len() == other.key.exponent_le@.len() && (forall|i: int|
                0 <= i < self.key.exponent_le@.len() ==> self.key.exponent_le@[i]
                    == other.key.exponent_le@[i]) {
                assert(self.key.exponent_le@ =~= other.key.exponent_le@);
            }
        }
        r
    }
}

/// Law: an identity rebuilt from the serialized form of a well-formed
/// identity (its key alone) carries the same tag.
pub proof fn lemma_public_id_round_trip(id: PublicId, rebuilt: PublicId)
    requires
        id.wf(),
        rebuilt.wf(),
        rebuilt.key@ == id.key@,
    ensures
        rebuilt.tag@ == id.tag@,
{
}


/// The two-character syllable at index `n` of the syllable alphabet.
pub open spec fn syllable_of(n: int) -> Seq<char> {
    if n == 0 {
        seq!['b', 'a']
    } else if n == 1 {
        seq!['d', 'e']
    } else if n == 2 {
        seq!['f', 'i']
    } else if n == 3 {
        seq!['g', 'o']
    } else if n == 4 {
        seq!['h', 'u']
    } else if n == 5 {
        seq!['k', 'a']
    } else if n == 6 {
        seq!['l', 'e']
    } else if n == 7 {
        seq!['m', 'i']
    } else if n == 8 {
        seq!['n', 'o']
    } else if n == 9 {
        seq!['p', 'u']
    } else if n == 10 {
        seq!['r', 'a']
    } else if n == 11 {
        seq!['s', 'o']
    } else if n == 12 {
        seq!['t', 'u']
    } else if n == 13 {
        seq!['v', 'e']
    } else if n == 14 {
        seq!['w', 'i']
    } else {
        seq!['z', 'u']
    }
}

/// The word for one byte in the fixed 256-word list: the syllables of its
/// high and low nibbles.
pub open spec fn word_of(b: u8) -> Seq<char> {
    syllable_of((b >> 4u8) as int) + syllable_of((b & 0x0fu8) as int)
}

/// The nickname for a byte string: the words of its bytes joined by
/// underscores.
pub open spec fn name_of(s: Seq<u8>) -> Seq<char>
    decreases s.len(),
{
    if s.len() == 0 {
        Seq::empty()
    } else if s.len() == 1 {
        word_of(s[0])
    } else {
        name_of(s.drop_last()) + seq!['_'] + word_of(s.last())
    }
}

/// The syllable at index `n` of the syllable alphabet, as a string.
fn syllable_str(n: u8) -> (r: &'static str)
    requires
        n < 16,
    ensures
        r@ =~= syllable_of(n as int),
{
    proof {
        reveal_strlit("ba");
        reveal_strlit("de");
        reveal_strlit("fi");
        reveal_strlit("go");
        reveal_strlit("hu");
        reveal_strlit("ka");
        reveal_strlit("le");
        reveal_strlit("mi");
        reveal_strlit("no");
        reveal_strlit("pu");
        reveal_strlit("ra");
        reveal_strlit("so");
        reveal_strlit("tu");
        reveal_strlit("ve");
        reveal_strlit("wi");
        reveal_strlit("zu");
    }
    match n {
        0 => "ba",
        1 => "de",
        2 => "fi",
        3 => "go",
        4 => "hu",
        5 => "ka",
        6 => "le",
        7 => "mi",
        8 => "no",
        9 => "pu",
        10 => "ra",
        11 => "so",
        12 => "tu",
        13 => "ve",
        14 => "wi",
        _ => "zu",
    }
}

impl PublicId {
    /// Render a short human-readable nickname: each of the first `entropy`
    /// bytes of the tag indexes a fixed list of 256 two-syllable words, and
    /// the words are joined with underscores.
    pub fn human_readable_name(&self, entropy: usize) -> (r: String)
        requires
            self.tag.wf(),
        ensures
            r@ == name_of(
                self.tag@.take(
                    if entropy <= TAG_LEN {
                        entropy as int
                    } else {
                        TAG_LEN as int
                    },
                ),
            ),
    {
        let n = if entropy < TAG_LEN {
            entropy
        } else {
            TAG_LEN
        };
        let mut r = String::new();
        let mut i: usize = 0;
        proof {
            assert(self.tag@.take(0) =~= Seq::<u8>::empty());
        }
        while i < n
            invariant
                self.tag.wf(),
                i <= n,
                n <= TAG_LEN,
                r@ == name_of(self.tag@.take(i as int)),
            decreases n - i,
        {
            if i > 0 {
                proof {
                    reveal_strlit("_");
                }
                r.append("_");
            }
            let b = self.tag.as_bytes()[i];
            proof {
                assert(b >> 4u8 < 16 && b & 0x0fu8 < 16) by (bit_vector);
            }
            r.append(syllable_str(b >> 4u8));
            r.append(syllable_str(b & 0x0fu8));
            proof {
                let pre = self.tag@.take(i as int);
                let now = self.tag@.take(i + 1);
                assert(now.drop_last() =~= pre);
                assert(now.last() == self.tag@[i as int]);
                if i == 0 {
                    assert(r@ =~= word_of(self.tag@[0]));
                    assert(now.len() == 1 && now[0] == self.tag@[0]);
                } else {
                    assert(r@ =~= name_of(pre) + seq!['_'] + word_of(self.tag@[i as int]));
                }
            }
            i = i + 1;
        }
        r
    }
}

/// The key pair deterministically generated from a 32-byte seed: the
/// little-endian bytes of the public modulus and of the public exponent.
/// Generation is outside this library; only its determinism is relied upon.
pub uninterp spec fn rsa_keypair_of(seed: Seq<u8>) -> (Seq<u8>, Seq<u8>);

/// Relies on rsa::RsaPrivateKey::new driven by a
/// rand_chacha::ChaCha20Rng::from_seed stream: the 2048-bit key pair drawn
/// from a seeded deterministic stream is a pure function of the seed. The
/// modulus and exponent come from rsa::traits::PublicKeyParts::n / ::e as
/// little-endian bytes.
#[verifier::external_body]
fn rsa_keypair_from_seed(seed: &Tag) -> (r: (Vec<u8>, Vec<u8>))
    requires
        seed.wf(),
    ensures
        (r.0@, r.1@) == rsa_keypair_of(seed@),
{
    let seed_bytes: [u8; 32] = seed.as_bytes().as_slice().try_into().unwrap();
    let mut rng = <rand_chacha::ChaCha20Rng as rand::SeedableRng>::from_seed(seed_bytes);
    let key = loop {
        if let Ok(key) = rsa::RsaPrivateKey::new(&mut rng, 2048) {
            break key;
        }
    };
    let public = key.to_public_key();
    let n = rsa::traits::PublicKeyParts::n(&public).to_bytes_le();
    let e = rsa::traits::PublicKeyParts::e(&public).to_bytes_le();
    (n, e)
}

/// A private identity: the public identity, plus the secret seed tag from
/// which the key pair is derived.
pub struct PrivateId {
    pub pub_id: PublicId,
    pub priv_tag: Tag,
}

impl PrivateId {
    /// A private identity is well formed when its public identity is and
    /// its secret tag has the right length. How the key pair was derived
    /// from the secret tag is stated by [`PrivateId::from_seed`].
    pub open spec fn wf(&self) -> bool {
        self.pub_id.wf() && self.priv_tag.wf()
    }

    /// Derive a private identity from seed bytes: the secret tag is the
    /// digest of the seed, and the key pair is generated deterministically
    /// from that tag.
    pub fn from_seed(bytes: &[u8]) -> (r: PrivateId)
        ensures
            r.wf(),
            r.priv_tag@ == digest_of(bytes@),
            r.pub_id.key@ == rsa_keypair_of(digest_of(bytes@)),
    {
        let priv_tag = Tag::digest(bytes);
        let (modulus_le, exponent_le) = rsa_keypair_from_seed(&priv_tag);
        let pub_id = PublicId::from_key(PublicKey { modulus_le, exponent_le });
        PrivateId { pub_id, priv_tag }
    }

    /// Draw a fresh random seed and derive an identity from it.
    pub fn generate() -> (r: PrivateId)
        ensures
            r.wf(),
    {
        let seed = Tag::generate();
        Self::from_seed(seed.as_bytes().as_slice())
    }
}

} // verus!
