//! Plain data carried through the store: 256-bit identifiers (content
//! digests and version UUIDs), the content digest function, hexadecimal
//! rendering, fresh randomness and the wall clock.

use vstd::prelude::*;
use sha2::Digest;
use std::time::SystemTime;
use std::time::UNIX_EPOCH;

verus! {

/// Payloads shorter than this many bytes are stored inline in the object's
/// metadata row instead of going through the block layer.
pub const INLINE_THRESHOLD: usize = 3072;

/// A 256-bit content digest: the address of a block, and the key a block is
/// placed under on the ring.
#[derive(Clone, Copy, Debug)]
pub struct Hash {
    pub bytes: [u8; 32],
}

/// A 256-bit unique identifier for one version of an object.
#[derive(Clone, Copy, Debug)]
pub struct UUID {
    pub bytes: [u8; 32],
}

impl View for Hash {
    type V = Seq<u8>;

    open spec fn view(&self) -> Seq<u8> {
        self.bytes@
    }
}

impl View for UUID {
    type V = Seq<u8>;

    open spec fn view(&self) -> Seq<u8> {
        self.bytes@
    }
}

/// The digest of a byte string, as the digest function computes it; a block
/// stored under hash `h` holds bytes whose digest is `h`.
pub uninterp spec fn digest_of(data: Seq<u8>) -> Seq<u8>;

/// Relies on sha2::Sha256: a 32-byte digest that is a function of the input
/// bytes alone.
#[verifier::external_body]
pub fn hash(data: &[u8]) -> (r: Hash)
    ensures
        r@ == digest_of(data@),
{
    let d: [u8; 32] = sha2::Sha256::digest(data).into();
    Hash { bytes: d }
}

impl Hash {
    pub fn equals(&self, other: &Hash) -> (r: bool)
        ensures
            r == (self@ == other@),
    {
        let mut i: usize = 0;
        while i < 32
            invariant
                i <= 32,
                forall|j: int| 0 <= j < i ==> self.bytes@[j] == other.bytes@[j],
            decreases 32 - i,
        {
            if self.bytes[i] != other.bytes[i] {
                assert(self@ != other@);
                return false;
            }
            i = i + 1;
        }
        assert(self@ =~= other@);
        true
    }
}

/// Relies on rand::random to draw fresh bytes; nothing is assumed of the
/// values drawn.
#[verifier::external_body]
fn random_bytes_12() -> [u8; 12] {
    rand::random::<[u8; 12]>()
}

/// Relies on rand::random to draw fresh bytes; nothing is assumed of the
/// values drawn.
#[verifier::external_body]
fn random_bytes_32() -> [u8; 32] {
    rand::random::<[u8; 32]>()
}

/// A fresh identifier for a new object version.
pub fn gen_uuid() -> UUID {
    UUID { bytes: random_bytes_32() }
}

/// Relies on std::time::SystemTime::now: milliseconds since the Unix epoch.
/// Nothing is assumed of the value; clocks can stall or go backward.
#[verifier::external_body]
pub fn now_msec() -> u64 {
    match SystemTime::now().duration_since(UNIX_EPOCH) {
        Ok(d) => d.as_millis() as u64,
        Err(_) => 0,
    }
}

/// The lowercase hexadecimal digit for a value below sixteen.
pub open spec fn hex_digit(n: int) -> char {
    if n == 0 { '0' } else if n == 1 { '1' } else if n == 2 { '2' } else if n == 3 { '3' }
    else if n == 4 { '4' } else if n == 5 { '5' } else if n == 6 { '6' } else if n == 7 { '7' }
    else if n == 8 { '8' } else if n == 9 { '9' } else if n == 10 { 'a' } else if n == 11 { 'b' }
    else if n == 12 { 'c' } else if n == 13 { 'd' } else if n == 14 { 'e' } else { 'f' }
}

/// Lowercase hexadecimal rendering of a byte string, two digits per byte,
/// most significant digit first.
pub open spec fn hex_of(b: Seq<u8>) -> Seq<char>
    decreases b.len(),
{
    if b.len() == 0 {
        Seq::empty()
    } else {
        seq![hex_digit(b[0] as int / 16), hex_digit(b[0] as int % 16)] + hex_of(b.drop_first())
    }
}

pub proof fn lemma_hex_of_len(b: Seq<u8>)
    ensures
        hex_of(b).len() == 2 * b.len(),
    decreases b.len(),
{
    if b.len() > 0 {
        lemma_hex_of_len(b.drop_first());
    }
}

/// Relies on hex::encode: lowercase hexadecimal, two digits per byte, most
/// significant digit first.
#[verifier::external_body]
pub(crate) fn hex_encode(b: &[u8]) -> (r: String)
    ensures
        r@ == hex_of(b@),
{
    hex::encode(b)
}

/// A fresh API key identifier: the `GK` prefix followed by 96 random bits in
/// hexadecimal.
pub fn gen_key_id() -> (r: String)
    ensures
        r@.len() == 26,
        r@[0] == 'G',
        r@[1] == 'K',
        exists|b: Seq<u8>| b.len() == 12 && r@ == seq!['G', 'K'] + hex_of(b),
{
    let raw = random_bytes_12();
    let tail = hex_encode(&raw);
    proof {
        lemma_hex_of_len(raw@);
    }
    let mut s = String::from_str("GK");
    proof {
        reveal_strlit("GK");
    }
    s.append(tail.as_str());
    s
}

/// A fresh API secret key: 256 random bits in hexadecimal.
pub fn gen_secret_key() -> (r: String)
    ensures
        r@.len() == 64,
        exists|b: Seq<u8>| b.len() == 32 && r@ == hex_of(b),
{
    let raw = random_bytes_32();
    let r = hex_encode(&raw);
    proof {
        lemma_hex_of_len(raw@);
    }
    r
}

} // verus!
