//! SHA-256 digests of media and their hexadecimal text.

use sha2::Digest;
use vstd::prelude::*;

verus! {

/// A running SHA-256 computation.
#[verifier::external_body]
pub struct Hasher {
    inner: sha2::Sha256,
}

/// The bytes that a running computation has taken in.
pub uninterp spec fn absorbed(h: Hasher) -> Seq<u8>;

/// The SHA-256 digest of some bytes.
pub uninterp spec fn sha256(data: Seq<u8>) -> Seq<u8>;

impl Hasher {
    /// Calls `sha2::Sha256::new`. Claimed: nothing has been taken in.
    #[verifier::external_body]
    pub(crate) fn new() -> (r: Hasher)
        ensures
            absorbed(r) == Seq::<u8>::empty(),
    {
        Hasher { inner: sha2::Sha256::new() }
    }

    /// Calls `update` of `sha2::Sha256`. Claimed: the bytes are taken in after
    /// the earlier ones.
    #[verifier::external_body]
    pub(crate) fn update(&mut self, data: &[u8])
        ensures
            absorbed(*final(self)) == absorbed(*old(self)) + data@,
    {
        self.inner.update(data)
    }

    /// Calls `finalize` of `sha2::Sha256`. Claimed: the digest depends on the
    /// bytes taken in alone, however they were divided, and has 32 bytes.
    #[verifier::external_body]
    pub(crate) fn finish(self) -> (r: Vec<u8>)
        ensures
            r@ == sha256(absorbed(self)),
            r@.len() == 32,
    {
        self.inner.finalize().to_vec()
    }
}

pub open spec fn hex_char(n: int) -> char {
    if n < 10 {
        (48 + n) as char
    } else {
        (87 + n) as char
    }
}

/// Two lowercase hexadecimal digits for each byte.
pub open spec fn hex_text(data: Seq<u8>) -> Seq<char> {
    Seq::new(
        data.len() * 2,
        |i: int|
            if i % 2 == 0 {
                hex_char(data[i / 2] as int / 16)
            } else {
                hex_char(data[i / 2] as int % 16)
            },
    )
}

fn hex_digit(n: u8) -> (r: char)
    requires
        n < 16,
    ensures
        r == hex_char(n as int),
{
    if n < 10 {
        (48 + n) as char
    } else {
        (87 + n) as char
    }
}

pub fn hex(data: &Vec<u8>) -> (r: String)
    ensures
        r@ == hex_text(data@),
{
    let mut out = String::new();
    let mut i: usize = 0;
    while i < data.len()
        invariant
            i <= data@.len(),
            out@ == hex_text(data@.take(i as int)),
        decreases data@.len() - i,
    {
        let b: u8 = data[i];
        out.push(hex_digit(b / 16));
        out.push(hex_digit(b % 16));
        i += 1;
        assert(out@ =~= hex_text(data@.take(i as int)));
    }
    assert(data@.take(i as int) == data@);
    out
}

/// The hexadecimal digest of some bytes.
pub fn sha256_hex(data: &[u8]) -> (r: String)
    ensures
        r@ == hex_text(sha256(data@)),
        r@.len() == 64,
{
    let mut h = Hasher::new();
    h.update(data);
    assert(absorbed(h) =~= data@);
    let digest = h.finish();
    hex(&digest)
}

/// Hexadecimal text spells every byte as two digits, the high one first.
pub proof fn bytes_are_spelled_in_two_digits(data: Seq<u8>, i: int)
    requires
        0 <= i < data.len(),
    ensures
        hex_text(data).len() == 2 * data.len(),
        hex_text(data)[2 * i] == "0123456789abcdef"@[data[i] as int / 16],
        hex_text(data)[2 * i + 1] == "0123456789abcdef"@[data[i] as int % 16],
{
    reveal_strlit("0123456789abcdef");
    let b = data[i] as int;
    assert((2 * i) / 2 == i && (2 * i) % 2 == 0);
    assert((2 * i + 1) / 2 == i && (2 * i + 1) % 2 == 1);
    assert(0 <= b / 16 < 16 && 0 <= b % 16 < 16);
}

} // verus!
