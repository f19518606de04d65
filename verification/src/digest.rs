//! SHA-256 digests and the byte framing the state hash feeds them.

use vstd::prelude::*;
use sha2::Digest;

verus! {

/// The bytes a [`Sha256State`] has been fed, in order.
pub uninterp spec fn sha256_fed(h: Sha256State) -> Seq<u8>;

/// The SHA-256 digest of a byte sequence.
pub uninterp spec fn sha256_digest(bytes: Seq<u8>) -> Seq<u8>;

/// A running SHA-256 computation.
#[verifier::external_body]
pub struct Sha256State {
    inner: sha2::Sha256,
}

impl Sha256State {
    /// `sha2::Sha256::new`: a hasher that has been fed nothing.
    #[verifier::external_body]
    pub fn new() -> (h: Self)
        ensures
            sha256_fed(h) == Seq::<u8>::empty(),
    {
        Sha256State { inner: sha2::Sha256::new() }
    }

    /// `sha2::Digest::update`: feed `bytes` after everything fed so far.
    #[verifier::external_body]
    pub fn update(&mut self, bytes: &[u8])
        ensures
            sha256_fed(*final(self)) == sha256_fed(*old(self)) + bytes@,
    {
        self.inner.update(bytes);
    }

    /// `sha2::Digest::finalize`: the digest of everything fed, 32 bytes.
    #[verifier::external_body]
    pub fn finalize(self) -> (d: [u8; 32])
        ensures
            d@ == sha256_digest(sha256_fed(self)),
    {
        self.inner.finalize().into()
    }
}

/// The lowercase hexadecimal digit of `n` (`0..16`).
pub open spec fn hex_digit(n: nat) -> char {
    if n < 10 {
        crate::text::digit_char(n)
    } else if n == 10 {
        'a'
    } else if n == 11 {
        'b'
    } else if n == 12 {
        'c'
    } else if n == 13 {
        'd'
    } else if n == 14 {
        'e'
    } else {
        'f'
    }
}

/// Lowercase hexadecimal: two digits per byte, high nibble first.
pub open spec fn hex_lower(bytes: Seq<u8>) -> Seq<char>
    decreases bytes.len(),
{
    if bytes.len() == 0 {
        Seq::empty()
    } else {
        hex_lower(bytes.drop_last()) + seq![
            hex_digit((bytes.last() / 16) as nat),
            hex_digit((bytes.last() % 16) as nat),
        ]
    }
}

/// `hex::encode`: lowercase hexadecimal, two digits per byte, high nibble
/// first.
#[verifier::external_body]
fn hex_encode(bytes: &[u8]) -> (r: String)
    ensures
        r@ == hex_lower(bytes@),
{
    hex::encode(bytes)
}

/// The lowercase hex SHA-256 of `bytes`.
pub fn sha256_hex(bytes: &[u8]) -> (r: String)
    ensures
        r@ == hex_lower(sha256_digest(bytes@)),
{
    let mut h = Sha256State::new();
    h.update(bytes);
    proof {
        assert(Seq::<u8>::empty() + bytes@ =~= bytes@);
    }
    let d = h.finalize();
    hex_encode(&d)
}

/// Little-endian bytes of a `u32`.
pub open spec fn le32(v: u32) -> Seq<u8> {
    seq![(v % 256) as u8, ((v / 256) % 256) as u8, ((v / 65536) % 256) as u8, (v / 16777216) as u8]
}

/// Little-endian bytes of a `u64`.
pub open spec fn le64(v: u64) -> Seq<u8> {
    le32((v % 0x1_0000_0000) as u32) + le32((v / 0x1_0000_0000) as u32)
}

/// `v.to_le_bytes()`.
pub fn u32_le(v: u32) -> (r: [u8; 4])
    ensures
        r@ == le32(v),
{
    let r = [(v % 256) as u8, ((v / 256) % 256) as u8, ((v / 65536) % 256) as u8, (v / 16777216) as u8];
    assert(r@ =~= le32(v));
    r
}

/// `v.to_le_bytes()`.
pub fn u64_le(v: u64) -> (r: [u8; 8])
    ensures
        r@ == le64(v),
{
    let lo = u32_le((v % 0x1_0000_0000) as u32);
    let hi = u32_le((v / 0x1_0000_0000) as u32);
    let r = [lo[0], lo[1], lo[2], lo[3], hi[0], hi[1], hi[2], hi[3]];
    assert(r@ =~= le64(v));
    r
}

proof fn lemma_bytes_determine_u32(a: u32, b: u32)
    by (bit_vector)
    requires
        a % 256 == b % 256,
        (a / 256) % 256 == (b / 256) % 256,
        (a / 65536) % 256 == (b / 65536) % 256,
        a / 16777216 == b / 16777216,
    ensures
        a == b,
{
}

/// Distinct `u32`s have distinct little-endian bytes.
pub proof fn lemma_le32_injective(a: u32, b: u32)
    requires
        le32(a) == le32(b),
    ensures
        a == b,
{
    assert(le32(a)[0] == le32(b)[0] && le32(a)[1] == le32(b)[1] && le32(a)[2] == le32(b)[2] && le32(a)[3] == le32(b)[3]);
    assert(a / 16777216 < 256 && b / 16777216 < 256);
    lemma_bytes_determine_u32(a, b);
}

} // verus!
