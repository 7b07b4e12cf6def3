//! 256-bit identifiers with an XOR metric, a hex codec, a content digest and
//! a public-key fingerprint.
//!
//! A [`Tag`] is a fixed 32-byte value. Tags address stored data (the tag of a
//! datum is the SHA3-256 digest of its bytes) and identify nodes (the tag of a
//! node is the fingerprint of its public key). Distances between tags are
//! byte-wise XOR, compared as 256-bit big-endian unsigned integers.

use vstd::prelude::*;

verus! {

/// Number of bytes in a tag.
pub const TAG_LEN: usize = 32;

/// A fixed 32-byte identifier.
#[derive(Debug)]
pub struct Tag {
    bytes: Vec<u8>,
}

impl View for Tag {
    type V = Seq<u8>;

    closed spec fn view(&self) -> Seq<u8> {
        self.bytes@
    }
}

impl Tag {
    /// A tag is well formed when it holds exactly 32 bytes.
    pub open spec fn wf(&self) -> bool {
        self@.len() == TAG_LEN
    }
}

/// The byte-wise XOR of two equally long byte strings.
pub open spec fn xor_bytes(a: Seq<u8>, b: Seq<u8>) -> Seq<u8> {
    Seq::new(a.len(), |i: int| a[i] ^ b[i])
}

/// The all-zero byte string of length `n`.
pub open spec fn zero_bytes(n: nat) -> Seq<u8> {
    Seq::new(n, |i: int| 0u8)
}

/// Index of the most significant set bit of a nonzero byte.
pub open spec fn msb_index(b: u8) -> int {
    if b >= 0x80 {
        7
    } else if b >= 0x40 {
        6
    } else if b >= 0x20 {
        5
    } else if b >= 0x10 {
        4
    } else if b >= 0x08 {
        3
    } else if b >= 0x04 {
        2
    } else if b >= 0x02 {
        1
    } else {
        0
    }
}

/// The bucket level of `s` scanned from byte `i` on: `255 - 8*i - msb_index`
/// at the first nonzero byte, and 0 when every remaining byte is zero.
pub open spec fn level_from(s: Seq<u8>, i: int) -> int
    decreases s.len() - i,
{
    if i < 0 || i >= s.len() {
        0
    } else if s[i] != 0 {
        255 - 8 * i - msb_index(s[i])
    } else {
        level_from(s, i + 1)
    }
}

/// The bucket level of a distance: `255 - 8*i - msb_index(s[i])` for the
/// first nonzero byte `i`, and 0 for the all-zero distance.
pub open spec fn level_of(s: Seq<u8>) -> int {
    level_from(s, 0)
}

/// Strict lexicographic order on byte strings; on equal lengths this is the
/// order of the big-endian integers they denote.
pub open spec fn lex_lt(a: Seq<u8>, b: Seq<u8>) -> bool
    decreases a.len(),
{
    if a.len() == 0 || b.len() == 0 {
        false
    } else if a[0] < b[0] {
        true
    } else if a[0] > b[0] {
        false
    } else {
        lex_lt(a.drop_first(), b.drop_first())
    }
}

/// 256^n.
pub open spec fn pow256(n: nat) -> nat
    decreases n,
{
    if n == 0 {
        1
    } else {
        256 * pow256((n - 1) as nat)
    }
}

/// The big-endian unsigned integer denoted by a byte string.
pub open spec fn be_nat(s: Seq<u8>) -> nat
    decreases s.len(),
{
    if s.len() == 0 {
        0
    } else {
        (s[0] as nat) * pow256((s.len() - 1) as nat) + be_nat(s.drop_first())
    }
}

/// The lowercase hex digit for a value below 16.
pub open spec fn hex_digit_of(n: int) -> char {
    if n == 0 {
        '0'
    } else if n == 1 {
        '1'
    } else if n == 2 {
        '2'
    } else if n == 3 {
        '3'
    } else if n == 4 {
        '4'
    } else if n == 5 {
        '5'
    } else if n == 6 {
        '6'
    } else if n == 7 {
        '7'
    } else if n == 8 {
        '8'
    } else if n == 9 {
        '9'
    } else if n == 10 {
        'a'
    } else if n == 11 {
        'b'
    } else if n == 12 {
        'c'
    } else if n == 13 {
        'd'
    } else if n == 14 {
        'e'
    } else {
        'f'
    }
}

/// Whether a character is a hex digit (either case).
pub open spec fn is_hex_digit(c: char) -> bool {
    ('0' <= c && c <= '9') || ('a' <= c && c <= 'f') || ('A' <= c && c <= 'F')
}

/// The value of a hex digit.
pub open spec fn hex_val_of(c: char) -> int {
    if '0' <= c && c <= '9' {
        c as int - '0' as int
    } else if 'a' <= c && c <= 'f' {
        c as int - 'a' as int + 10
    } else {
        c as int - 'A' as int + 10
    }
}

/// The lowercase hex rendering of a byte string: two digits per byte, high
/// nibble first.
pub open spec fn hex_of(s: Seq<u8>) -> Seq<char> {
    Seq::new(
        2 * s.len(),
        |i: int|
            if i % 2 == 0 {
                hex_digit_of((s[i / 2] >> 4u8) as int)
            } else {
                hex_digit_of((s[i / 2] & 0x0fu8) as int)
            },
    )
}

/// Whether a character string is a valid hex rendering of a 32-byte value.
pub open spec fn valid_hex(s: Seq<char>) -> bool {
    s.len() == 64 && forall|i: int| 0 <= i < s.len() ==> is_hex_digit(#[trigger] s[i])
}

/// The bytes denoted by a valid hex string.
pub open spec fn hex_decoded(s: Seq<char>) -> Seq<u8> {
    Seq::new(s.len() / 2, |i: int| (hex_val_of(s[2 * i]) * 16 + hex_val_of(s[2 * i + 1])) as u8)
}

/// The SHA3-256 digest of a byte string. The digest itself is outside this
/// library; only its length and its determinism are relied upon.
pub uninterp spec fn digest_of(bytes: Seq<u8>) -> Seq<u8>;

/// Relies on sha3::Sha3_256 (through the sha3::Digest trait): the digest is a
/// pure function of the input bytes and is exactly 32 bytes long.
#[verifier::external_body]
fn sha3_256(bytes: &[u8]) -> (r: Vec<u8>)
    ensures
        r@ == digest_of(bytes@),
        r@.len() == 32,
{
    <sha3::Sha3_256 as sha3::Digest>::digest(bytes).to_vec()
}

/// Relies on rand::thread_rng and rand::Rng::gen: 32 bytes are drawn; nothing
/// is promised of their values.
#[verifier::external_body]
fn random_bytes_32() -> (r: Vec<u8>)
    ensures
        r@.len() == 32,
{
    rand::Rng::gen::<[u8; 32]>(&mut rand::thread_rng()).to_vec()
}

impl Tag {
    /// Wrap 32 bytes as a tag.
    pub fn from_bytes(bytes: Vec<u8>) -> (r: Tag)
        requires
            bytes@.len() == TAG_LEN,
        ensures
            r@ == bytes@,
            r.wf(),
    {
        Tag { bytes }
    }

    /// The bytes of the tag.
    pub fn as_bytes(&self) -> (r: &Vec<u8>)
        ensures
            r@ == self@,
    {
        &self.bytes
    }

    /// A copy of the tag with the same bytes.
    pub fn duplicate(&self) -> (r: Tag)
        ensures
            r@ == self@,
    {
        let mut bytes: Vec<u8> = Vec::new();
        let mut i: usize = 0;
        while i < self.bytes.len()
            invariant
                i <= self.bytes@.len(),
                bytes@ == self.bytes@.subrange(0, i as int),
            decreases self.bytes@.len() - i,
        {
            bytes.push(self.bytes[i]);
            i = i + 1;
        }
        proof {
            assert(bytes@ =~= self@);
        }
        Tag { bytes }
    }

    /// The XOR distance between this tag and another.
    pub fn dist_to(&self, other: &Tag) -> (r: Tag)
        requires
            self.wf(),
            other.wf(),
        ensures
            r@ == xor_bytes(self@, other@),
            r.wf(),
    {
        let mut bytes: Vec<u8> = Vec::new();
        let mut i: usize = 0;
        while i < TAG_LEN
            invariant
                self.wf(),
                other.wf(),
                i <= TAG_LEN,
                bytes@.len() == i,
                forall|j: int| 0 <= j < i ==> bytes@[j] == (self@[j] ^ other@[j]),
            decreases TAG_LEN - i,
        {
            bytes.push(self.bytes[i] ^ other.bytes[i]);
            i = i + 1;
        }
        proof {
            assert(bytes@ =~= xor_bytes(self@, other@));
        }
        Tag { bytes }
    }

    /// The bucket level of this tag seen as a distance: `255 - 8*i -
    /// msb_index(byte_i)` at the first nonzero byte `i`, and 0 when all bytes
    /// are zero.
    pub fn level(&self) -> (r: u16)
        requires
            self.wf(),
        ensures
            r as int == level_of(self@),
            r < 256,
    {
        let mut i: usize = 0;
        while i < TAG_LEN
            invariant
                self.wf(),
                i <= TAG_LEN,
                level_of(self@) == level_from(self@, i as int),
            decreases TAG_LEN - i,
        {
            let b = self.bytes[i];
            if b != 0 {
                let msb: u16 = if b >= 0x80 {
                    7
                } else if b >= 0x40 {
                    6
                } else if b >= 0x20 {
                    5
                } else if b >= 0x10 {
                    4
                } else if b >= 0x08 {
                    3
                } else if b >= 0x04 {
                    2
                } else if b >= 0x02 {
                    1
                } else {
                    0
                };
                return 255 - (i as u16) * 8 - msb;
            }
            i = i + 1;
        }
        0
    }

    /// Whether this tag, read as a big-endian integer, is strictly below the
    /// other. Used to compare XOR distances.
    pub fn lt(&self, other: &Tag) -> (r: bool)
        requires
            self.wf(),
            other.wf(),
        ensures
            r == lex_lt(self@, other@),
    {
        let mut i: usize = 0;
        proof {
            assert(self@.skip(0) =~= self@);
            assert(other@.skip(0) =~= other@);
        }
        while i < TAG_LEN
            invariant
                self.wf(),
                other.wf(),
                i <= TAG_LEN,
                lex_lt(self@, other@) == lex_lt(self@.skip(i as int), other@.skip(i as int)),
            decreases TAG_LEN - i,
        {
            let a = self.bytes[i];
            let b = other.bytes[i];
            proof {
                lemma_lex_lt_skip_step(self@, other@, i as int);
            }
            if a < b {
                return true;
            }
            if a > b {
                return false;
            }
            i = i + 1;
        }
        false
    }

    /// The SHA3-256 digest of a byte string, as a tag.
    pub fn digest(bytes: &[u8]) -> (r: Tag)
        ensures
            r@ == digest_of(bytes@),
            r.wf(),
    {
        Tag { bytes: sha3_256(bytes) }
    }

    /// The digest of several byte strings hashed in sequence, equal to the
    /// digest of their concatenation.
    pub fn digest_many(parts: &Vec<Vec<u8>>) -> (r: Tag)
        ensures
            r@ == digest_of(flatten_bytes(parts.deep_view())),
            r.wf(),
    {
        let mut all: Vec<u8> = Vec::new();
        let mut i: usize = 0;
        while i < parts.len()
            invariant
                i <= parts@.len(),
                all@ == flatten_bytes(parts.deep_view().take(i as int)),
            decreases parts@.len() - i,
        {
            let part = &parts[i];
            let mut j: usize = 0;
            while j < part.len()
                invariant
                    i < parts@.len(),
                    j <= part@.len(),
                    part == &parts[i as int],
                    all@ == flatten_bytes(parts.deep_view().take(i as int)) + part@.subrange(
                        0,
                        j as int,
                    ),
                decreases part@.len() - j,
            {
                all.push(part[j]);
                proof {
                    assert(all@ =~= flatten_bytes(parts.deep_view().take(i as int))
                        + part@.subrange(0, j + 1));
                }
                j = j + 1;
            }
            proof {
                lemma_flatten_bytes_take_step(parts.deep_view(), i as int);
                assert(part@.subrange(0, part@.len() as int) =~= parts.deep_view()[i as int]);
            }
            i = i + 1;
        }
        proof {
            assert(parts.deep_view().take(parts@.len() as int) =~= parts.deep_view());
        }
        Tag::digest(all.as_slice())
    }

    /// A tag of 32 random bytes.
    pub fn generate() -> (r: Tag)
        ensures
            r.wf(),
    {
        Tag { bytes: random_bytes_32() }
    }

    /// The lowercase hex rendering of the tag: 64 characters, two per byte.
    pub fn to_hex(&self) -> (r: String)
        requires
            self.wf(),
        ensures
            r@ == hex_of(self@),
    {
        let mut r = String::new();
        let mut i: usize = 0;
        while i < TAG_LEN
            invariant
                self.wf(),
                i <= TAG_LEN,
                r@ == hex_of(self@).take(2 * i as int),
            decreases TAG_LEN - i,
        {
            let b = self.bytes[i];
            let hi = b >> 4u8;
            let lo = b & 0x0fu8;
            proof {
                assert(b >> 4u8 < 16 && b & 0x0fu8 < 16) by (bit_vector);
            }
            r.append(hex_digit_str(hi));
            r.append(hex_digit_str(lo));
            proof {
                assert(r@ =~= hex_of(self@).take(2 * (i + 1) as int));
            }
            i = i + 1;
        }
        proof {
            assert(hex_of(self@).take(2 * TAG_LEN as int) =~= hex_of(self@));
        }
        r
    }

    /// Parse a 64-character hex string into a tag. Both digit cases are
    /// accepted; anything else is rejected as a malformed tag.
    pub fn try_from_hex(hex: &str) -> (r: Result<Tag, &'static str>)
        ensures
            match r {
                Ok(t) => valid_hex(hex@) && t@ == hex_decoded(hex@) && t.wf(),
                Err(e) => !valid_hex(hex@) && e@ == "malformed tag"@,
            },
    {
        proof {
            reveal_strlit("malformed tag");
        }
        if hex.unicode_len() != 64 {
            return Err("malformed tag");
        }
        let mut bytes: Vec<u8> = Vec::new();
        let mut i: usize = 0;
        while i < TAG_LEN
            invariant
                hex@.len() == 64,
                i <= TAG_LEN,
                bytes@.len() == i,
                forall|j: int| 0 <= j < 2 * i ==> is_hex_digit(#[trigger] hex@[j]),
                forall|j: int| 0 <= j < i ==> bytes@[j] == hex_decoded(hex@)[j],
            decreases TAG_LEN - i,
        {
            proof {
                reveal_strlit("malformed tag");
            }
            let c0 = hex.get_char(2 * i);
            let c1 = hex.get_char(2 * i + 1);
            let v0 = hex_val_exec(c0);
            let v1 = hex_val_exec(c1);
            match (v0, v1) {
                (Some(h), Some(l)) => {
                    bytes.push(h * 16 + l);
                },
                _ => {
                    return Err("malformed tag");
                },
            }
            i = i + 1;
        }
        proof {
            assert(bytes@ =~= hex_decoded(hex@));
        }
        Ok(Tag { bytes })
    }
}

impl PartialEq for Tag {
    fn eq(&self, other: &Tag) -> (r: bool) {
        let r = self.bytes == other.bytes;
        proof {
            if self.bytes@.len() == other.bytes@.len() && (forall|i: int|
                0 <= i < self.bytes@.len() ==> self.bytes@[i] == other.bytes@[i]) {
                assert(self@ =~= other@);
            }
        }
        r
    }
}

impl vstd::std_specs::cmp::PartialEqSpecImpl for Tag {
    open spec fn obeys_eq_spec() -> bool {
        true
    }

    open spec fn eq_spec(&self, other: &Tag) -> bool {
        self@ == other@
    }
}

/// One lowercase hex digit as a one-character string.
fn hex_digit_str(n: u8) -> (r: &'static str)
    requires
        n < 16,
    ensures
        r@ =~= seq![hex_digit_of(n as int)],
{
    proof {
        reveal_strlit("0");
        reveal_strlit("1");
        reveal_strlit("2");
        reveal_strlit("3");
        reveal_strlit("4");
        reveal_strlit("5");
        reveal_strlit("6");
        reveal_strlit("7");
        reveal_strlit("8");
        reveal_strlit("9");
        reveal_strlit("a");
        reveal_strlit("b");
        reveal_strlit("c");
        reveal_strlit("d");
        reveal_strlit("e");
        reveal_strlit("f");
    }
    match n {
        0 => "0",
        1 => "1",
        2 => "2",
        3 => "3",
        4 => "4",
        5 => "5",
        6 => "6",
        7 => "7",
        8 => "8",
        9 => "9",
        10 => "a",
        11 => "b",
        12 => "c",
        13 => "d",
        14 => "e",
        _ => "f",
    }
}

/// The value of one hex digit, or `None` when the character is not one.
fn hex_val_exec(c: char) -> (r: Option<u8>)
    ensures
        r == if is_hex_digit(c) {
            Some(hex_val_of(c) as u8)
        } else {
            None::<u8>
        },
{
    if '0' <= c && c <= '9' {
        Some((c as u8) - ('0' as u8))
    } else if 'a' <= c && c <= 'f' {
        Some((c as u8) - ('a' as u8) + 10)
    } else if 'A' <= c && c <= 'F' {
        Some((c as u8) - ('A' as u8) + 10)
    } else {
        None
    }
}

/// The concatenation of a sequence of byte strings.
pub open spec fn flatten_bytes(parts: Seq<Seq<u8>>) -> Seq<u8>
    decreases parts.len(),
{
    if parts.len() == 0 {
        Seq::empty()
    } else {
        flatten_bytes(parts.drop_last()) + parts.last()
    }
}

proof fn lemma_flatten_bytes_take_step(parts: Seq<Seq<u8>>, i: int)
    requires
        0 <= i < parts.len(),
    ensures
        flatten_bytes(parts.take(i + 1)) == flatten_bytes(parts.take(i)) + parts[i],
{
    assert(parts.take(i + 1).drop_last() =~= parts.take(i));
    assert(flatten_bytes(parts.take(i + 1)) == flatten_bytes(parts.take(i + 1).drop_last())
        + parts.take(i + 1).last());
}

proof fn lemma_u8_xor_facts()
    by (bit_vector)
    ensures
        forall|x: u8| #[trigger] (x ^ x) == 0,
        forall|x: u8, y: u8| #[trigger] (x ^ y) == (y ^ x),
        forall|x: u8, y: u8, z: u8| #[trigger] ((x ^ y) ^ z) == (x ^ (y ^ z)),
{
}

/// Law: the XOR distance from a tag to itself is all zeros.
pub proof fn lemma_xor_self(a: Seq<u8>)
    ensures
        xor_bytes(a, a) == zero_bytes(a.len()),
{
    lemma_u8_xor_facts();
    assert(xor_bytes(a, a) =~= zero_bytes(a.len()));
}

/// Law: the XOR distance is symmetric.
pub proof fn lemma_xor_symmetric(a: Seq<u8>, b: Seq<u8>)
    requires
        a.len() == b.len(),
    ensures
        xor_bytes(a, b) == xor_bytes(b, a),
{
    lemma_u8_xor_facts();
    assert(xor_bytes(a, b) =~= xor_bytes(b, a));
}

/// Law: the bucket level of a distance does not depend on the order of its
/// endpoints.
pub proof fn lemma_level_symmetric(a: Seq<u8>, b: Seq<u8>)
    requires
        a.len() == b.len(),
    ensures
        level_of(xor_bytes(a, b)) == level_of(xor_bytes(b, a)),
{
    lemma_xor_symmetric(a, b);
}

/// Law: the XOR distance is associative.
pub proof fn lemma_xor_associative(a: Seq<u8>, b: Seq<u8>, c: Seq<u8>)
    requires
        a.len() == b.len(),
        b.len() == c.len(),
    ensures
        xor_bytes(xor_bytes(a, b), c) == xor_bytes(a, xor_bytes(b, c)),
{
    lemma_u8_xor_facts();
    assert(xor_bytes(xor_bytes(a, b), c) =~= xor_bytes(a, xor_bytes(b, c)));
}

/// Law: each byte of the XOR distance depends on that byte of the endpoints
/// alone.
pub proof fn lemma_xor_bytewise(a: Seq<u8>, b: Seq<u8>, i: int)
    requires
        a.len() == b.len(),
        0 <= i < a.len(),
    ensures
        xor_bytes(a, b)[i] == (a[i] ^ b[i]),
{
}

/// Law: rendering any 32-byte value as hex and parsing it back yields the
/// same value, and the rendering is always a valid hex string.
pub proof fn lemma_hex_round_trip(s: Seq<u8>)
    ensures
        hex_decoded(hex_of(s)) == s,
        s.len() == 32 ==> valid_hex(hex_of(s)),
{
    assert forall|b: u8| (b >> 4u8) < 16 && (b & 0x0fu8) < 16 && (b >> 4u8) * 16 + (b & 0x0fu8)
        == b by {
        assert((b >> 4u8) < 16 && (b & 0x0fu8) < 16 && (b >> 4u8) * 16 + (b & 0x0fu8) == b)
            by (bit_vector);
    }
    assert forall|i: int| 0 <= i < hex_of(s).len() implies is_hex_digit(#[trigger] hex_of(s)[i]) by {
        if i % 2 == 0 {
            assert(hex_of(s)[i] == hex_digit_of((s[i / 2] >> 4u8) as int));
        } else {
            assert(hex_of(s)[i] == hex_digit_of((s[i / 2] & 0x0fu8) as int));
        }
    }
    assert forall|i: int| 0 <= i < s.len() implies hex_decoded(hex_of(s))[i] == s[i] by {
        assert(hex_of(s)[2 * i] == hex_digit_of((s[i] >> 4u8) as int));
        assert(hex_of(s)[2 * i + 1] == hex_digit_of((s[i] & 0x0fu8) as int));
    }
    assert(hex_decoded(hex_of(s)) =~= s);
}

proof fn lemma_level_from_bounds(s: Seq<u8>, i: int)
    requires
        s.len() == TAG_LEN,
        0 <= i <= s.len(),
    ensures
        0 <= level_from(s, i) <= 255,
    decreases s.len() - i,
{
    if i < s.len() && s[i] == 0 {
        lemma_level_from_bounds(s, i + 1);
    }
}

/// The bucket level of a 32-byte distance always fits in a byte range.
pub proof fn lemma_level_bounds(s: Seq<u8>)
    requires
        s.len() == TAG_LEN,
    ensures
        0 <= level_of(s) <= 255,
{
    lemma_level_from_bounds(s, 0);
}

proof fn lemma_pow256_pos(n: nat)
    ensures
        pow256(n) >= 1,
    decreases n,
{
    if n > 0 {
        lemma_pow256_pos((n - 1) as nat);
    }
}

proof fn lemma_be_nat_bound(s: Seq<u8>)
    ensures
        be_nat(s) < pow256(s.len()),
    decreases s.len(),
{
    if s.len() == 0 {
    } else {
        let p = pow256((s.len() - 1) as nat);
        lemma_be_nat_bound(s.drop_first());
        lemma_pow256_pos((s.len() - 1) as nat);
        assert((s[0] as nat) * p <= 255 * p) by (nonlinear_arith)
            requires
                s[0] <= 255,
                p >= 1,
        ;
        assert(255 * p + p == 256 * p);
    }
}

/// Law: on equal-length byte strings, the lexicographic order is exactly the
/// order of the big-endian integers they denote. Each hop of an iterative
/// lookup strictly lowers this integer, so a lookup can only descend.
pub proof fn lemma_lex_lt_be_nat(a: Seq<u8>, b: Seq<u8>)
    requires
        a.len() == b.len(),
        lex_lt(a, b),
    ensures
        be_nat(a) < be_nat(b),
    decreases a.len(),
{
    let p = pow256((a.len() - 1) as nat);
    if a[0] < b[0] {
        lemma_be_nat_bound(a.drop_first());
        lemma_pow256_pos((a.len() - 1) as nat);
        assert((a[0] as nat) * p + p == ((a[0] as nat) + 1) * p) by (nonlinear_arith);
        assert(((a[0] as nat) + 1) * p <= (b[0] as nat) * p) by (nonlinear_arith)
            requires
                (a[0] as nat) + 1 <= (b[0] as nat),
                p >= 0,
        ;
        assert(be_nat(a) < ((a[0] as nat) + 1) * p);
        assert(be_nat(b) >= (b[0] as nat) * p);
    } else {
        lemma_lex_lt_be_nat(a.drop_first(), b.drop_first());
    }
}

/// On equal lengths, two byte strings are lexicographically ordered one way
/// or the other, or equal.
pub proof fn lemma_lex_trichotomy(a: Seq<u8>, b: Seq<u8>)
    requires
        a.len() == b.len(),
    ensures
        lex_lt(a, b) || lex_lt(b, a) || a == b,
    decreases a.len(),
{
    if a.len() == 0 {
        assert(a =~= b);
    } else if a[0] == b[0] {
        lemma_lex_trichotomy(a.drop_first(), b.drop_first());
        if !lex_lt(a, b) && !lex_lt(b, a) {
            assert(a.drop_first() =~= b.drop_first());
            assert forall|i: int| 0 <= i < a.len() implies a[i] == b[i] by {
                if i > 0 {
                    assert(a.drop_first()[i - 1] == b.drop_first()[i - 1]);
                }
            }
            assert(a =~= b);
        }
    }
}

/// The converse embedding: a strictly smaller big-endian integer means a
/// lexicographically smaller byte string.
pub proof fn lemma_be_nat_lex_lt(a: Seq<u8>, b: Seq<u8>)
    requires
        a.len() == b.len(),
        be_nat(a) < be_nat(b),
    ensures
        lex_lt(a, b),
{
    lemma_lex_trichotomy(a, b);
    if lex_lt(b, a) {
        lemma_lex_lt_be_nat(b, a);
    }
}

proof fn lemma_lex_lt_skip_step(a: Seq<u8>, b: Seq<u8>, i: int)
    requires
        a.len() == b.len(),
        0 <= i < a.len(),
    ensures
        a[i] < b[i] ==> lex_lt(a.skip(i), b.skip(i)),
        a[i] > b[i] ==> !lex_lt(a.skip(i), b.skip(i)),
        a[i] == b[i] ==> lex_lt(a.skip(i), b.skip(i)) == lex_lt(a.skip(i + 1), b.skip(i + 1)),
{
    assert(a.skip(i).len() == a.len() - i);
    assert(a.skip(i)[0] == a[i]);
    assert(b.skip(i)[0] == b[i]);
    if a[i] == b[i] {
        assert(a.skip(i).drop_first() =~= a.skip(i + 1));
        assert(b.skip(i).drop_first() =~= b.skip(i + 1));
    }
}

} // verus!
