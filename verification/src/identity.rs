//! Content identity: every byte read while processing a beatmap is hashed,
//! and the final digest, hex-encoded uppercase behind a fixed tag, becomes
//! the beatmap's identifier. Byte-identical file sets therefore always get
//! the identical identifier, which is how score history is linked to
//! locally installed content.

use vstd::prelude::*;

verus! {

/// The 20-byte digest that the hashing scheme assigns to a byte stream.
/// The digest is a function of the bytes alone.
pub uninterp spec fn sha1_of(bytes: Seq<u8>) -> Seq<u8>;

/// One uppercase hexadecimal digit for a value below sixteen.
pub open spec fn hex_digit_upper(n: u8) -> char {
    if n == 0 {
        '0'
    } else if n == 1 {
        '1'
    } else if n == 2 {
        '2'
    } else if n == 3 {
        '3'
    } else if n == 4 {
        '4'
    } else if n == 5 {
        '5'
    } else if n == 6 {
        '6'
    } else if n == 7 {
        '7'
    } else if n == 8 {
        '8'
    } else if n == 9 {
        '9'
    } else if n == 10 {
        'A'
    } else if n == 11 {
        'B'
    } else if n == 12 {
        'C'
    } else if n == 13 {
        'D'
    } else if n == 14 {
        'E'
    } else {
        'F'
    }
}

/// The two uppercase hexadecimal digits of one byte, high nibble first.
pub open spec fn hex_byte_upper(b: u8) -> Seq<char> {
    seq![hex_digit_upper(b / 16), hex_digit_upper(b % 16)]
}

/// The uppercase hexadecimal encoding of a byte sequence.
pub open spec fn hex_upper_of(bytes: Seq<u8>) -> Seq<char>
    decreases bytes.len(),
{
    if bytes.len() == 0 {
        Seq::empty()
    } else {
        hex_byte_upper(bytes.first()) + hex_upper_of(bytes.drop_first())
    }
}

/// The identifier assigned to a beatmap whose files hold these bytes.
pub open spec fn id_of(bytes: Seq<u8>) -> Seq<char> {
    "custom_level_"@ + hex_upper_of(sha1_of(bytes))
}

/// The hexadecimal encoding has two digits per byte.
proof fn lemma_hex_upper_len(bytes: Seq<u8>)
    ensures
        hex_upper_of(bytes).len() == 2 * bytes.len(),
    decreases bytes.len(),
{
    if bytes.len() > 0 {
        lemma_hex_upper_len(bytes.drop_first());
    }
}

/// Relies on `sha1::Sha1` through the `Digest` trait: hashing a byte slice
/// returns its 20-byte digest, a function of the bytes alone.
#[verifier::external_body]
fn sha1_digest(bytes: &[u8]) -> (r: Vec<u8>)
    ensures
        r@ == sha1_of(bytes@),
        r@.len() == 20,
{
    let digest = <sha1::Sha1 as sha1::Digest>::digest(bytes);
    digest.to_vec()
}

/// Relies on `hex::encode_upper`: two uppercase hexadecimal digits per
/// byte of input, high nibble first.
#[verifier::external_body]
fn hex_encode_upper(bytes: &[u8]) -> (r: String)
    ensures
        r@ == hex_upper_of(bytes@),
{
    hex::encode_upper(bytes)
}

/// Accumulates the bytes of every file read for one beatmap, in the order
/// the files are opened, and derives the beatmap's identifier from them.
pub struct ContentHasher {
    bytes: Vec<u8>,
}

impl ContentHasher {
    /// The byte stream consumed so far.
    pub closed spec fn view(&self) -> Seq<u8> {
        self.bytes@
    }

    /// A hasher that has consumed nothing.
    pub fn new() -> (r: ContentHasher)
        ensures
            r@ == Seq::<u8>::empty(),
    {
        ContentHasher { bytes: Vec::new() }
    }

    /// Consumes one file's raw bytes.
    pub fn update(&mut self, data: &Vec<u8>)
        ensures
            final(self)@ == old(self)@ + data@,
    {
        let mut k: usize = 0;
        while k < data.len()
            invariant
                k <= data@.len(),
                self.bytes@ == old(self).bytes@ + data@.subrange(0, k as int),
            decreases data@.len() - k,
        {
            self.bytes.push(data[k]);
            proof {
                assert(data@.subrange(0, k as int + 1) =~= data@.subrange(0, k as int).push(
                    data@[k as int],
                ));
            }
            k += 1;
        }
        proof {
            assert(data@.subrange(0, data@.len() as int) =~= data@);
        }
    }

    /// The identifier of the consumed byte stream: the fixed tag followed
    /// by the forty uppercase hexadecimal digits of the 20-byte digest.
    pub fn finalize(&self) -> (r: String)
        ensures
            r@ == id_of(self@),
            r@.len() == 53,
    {
        let digest = sha1_digest(self.bytes.as_slice());
        let encoded = hex_encode_upper(digest.as_slice());
        let mut id = String::from_str("custom_level_");
        id.append(encoded.as_str());
        proof {
            reveal_strlit("custom_level_");
            lemma_hex_upper_len(sha1_of(self@));
        }
        id
    }
}

/// Content identity is deterministic: consuming the same bytes, in the
/// same order, always yields the identical identifier.
pub proof fn lemma_identity_deterministic(b1: Seq<u8>, b2: Seq<u8>)
    requires
        b1 == b2,
    ensures
        id_of(b1) == id_of(b2),
{
}

} // verus!
