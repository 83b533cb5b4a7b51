//! Content hashes (Blake3, 32 bytes) and their lowercase hexadecimal form.

use vstd::prelude::*;
use vstd::utf8::encode_utf8;

verus! {

/// The 32-byte Blake3 digest of `data`.
pub uninterp spec fn blake3_digest(data: Seq<u8>) -> Seq<u8>;

/// `blake3::hash`, returning the digest bytes.
#[verifier::external_body]
fn blake3_hash_bytes(data: &[u8]) -> (r: [u8; 32])
    ensures
        r@ == blake3_digest(data@),
{
    *blake3::hash(data).as_bytes()
}

/// The lowercase hexadecimal digit for `d < 16`.
pub open spec fn hex_digit(d: u8) -> char {
    if d < 10 {
        ((d + 48) as u8) as char
    } else {
        ((d - 10 + 97) as u8) as char
    }
}

/// Lowercase hexadecimal text of `bytes`: two digits per byte, high nibble first.
pub open spec fn hex_text(bytes: Seq<u8>) -> Seq<char> {
    Seq::new(
        2 * bytes.len(),
        |i: int|
            if i % 2 == 0 {
                hex_digit(bytes[i / 2] / 16)
            } else {
                hex_digit(bytes[i / 2] % 16)
            },
    )
}

/// The value of one hexadecimal digit byte (either case), if it is one.
pub open spec fn hex_value(b: u8) -> Option<u8> {
    if 48 <= b <= 57 {
        Some((b - 48) as u8)
    } else if 97 <= b <= 102 {
        Some((b - 97 + 10) as u8)
    } else if 65 <= b <= 70 {
        Some((b - 65 + 10) as u8)
    } else {
        None
    }
}

/// Index of the first byte that is no hexadecimal digit, if any.
pub open spec fn first_non_hex(data: Seq<u8>) -> Option<int> {
    if exists|i: int| 0 <= i < data.len() && #[trigger] hex_value(data[i]) is None {
        Some(
            choose|i: int|
                0 <= i < data.len() && #[trigger] hex_value(data[i]) is None && forall|j: int|
                    0 <= j < i ==> hex_value(data[j]) is Some,
        )
    } else {
        None
    }
}

/// Why a text is not the hexadecimal form of a hash.
#[derive(Debug, Clone, Copy, PartialEq, Eq)]
pub enum HashParseError {
    /// A byte that is no hexadecimal digit, as a character, and its byte index.
    InvalidHexCharacter { c: char, index: usize },
    /// An odd number of digits.
    OddLength,
    /// The digits decode to something other than 32 bytes.
    InvalidStringLength,
}

/// The outcome `hex::decode` gives for `data`.
pub open spec fn hex_decode_result(data: Seq<u8>) -> Result<Seq<u8>, HashParseError> {
    if data.len() % 2 != 0 {
        Err(HashParseError::OddLength)
    } else {
        match first_non_hex(data) {
            Some(i) => Err(
                HashParseError::InvalidHexCharacter { c: (data[i] as u32) as char, index: i as usize },
            ),
            None => Ok(
                Seq::new(
                    data.len() / 2,
                    |k: int| (hex_value(data[2 * k])->0 * 16 + hex_value(data[2 * k + 1])->0) as u8,
                ),
            ),
        }
    }
}

/// `hex::encode`: lowercase digits, two per byte.
#[verifier::external_body]
fn hex_encode(bytes: &[u8]) -> (s: String)
    ensures
        s@ == hex_text(bytes@),
{
    hex::encode(bytes)
}

/// `hex::decode`, with its error mapped one for one.
#[verifier::external_body]
fn hex_decode(text: &str) -> (r: Result<Vec<u8>, HashParseError>)
    ensures
        match r {
            Ok(v) => hex_decode_result(encode_utf8(text@)) == Ok::<Seq<u8>, HashParseError>(v@),
            Err(e) => hex_decode_result(encode_utf8(text@)) == Err::<Seq<u8>, HashParseError>(e),
        },
{
    match hex::decode(text) {
        Ok(v) => Ok(v),
        Err(hex::FromHexError::InvalidHexCharacter { c, index }) => Err(
            HashParseError::InvalidHexCharacter { c, index },
        ),
        Err(hex::FromHexError::OddLength) => Err(HashParseError::OddLength),
        Err(hex::FromHexError::InvalidStringLength) => Err(HashParseError::InvalidStringLength),
    }
}

/// Blake3 hash (32 bytes).
#[derive(Debug, Clone, Copy, PartialEq, Eq, Hash)]
pub struct Blake3Hash {
    bytes: [u8; 32],
}

impl View for Blake3Hash {
    type V = Seq<u8>;

    closed spec fn view(&self) -> Seq<u8> {
        self.bytes@
    }
}

/// What parsing `text` as a hash gives: the decoded bytes when they are
/// exactly 32, else the error.
pub open spec fn parse_hash_result(text: Seq<char>) -> Result<Seq<u8>, HashParseError> {
    match hex_decode_result(encode_utf8(text)) {
        Ok(b) => if b.len() == 32 {
            Ok(b)
        } else {
            Err(HashParseError::InvalidStringLength)
        },
        Err(e) => Err(e),
    }
}

impl Blake3Hash {
    /// Every hash has 32 bytes.
    pub proof fn lemma_len(self)
        ensures
            self@.len() == 32,
    {
    }

    /// Computes the Blake3 hash of `bytes`.
    pub fn compute(bytes: &[u8]) -> (h: Blake3Hash)
        ensures
            h@ == blake3_digest(bytes@),
    {
        Blake3Hash { bytes: blake3_hash_bytes(bytes) }
    }

    /// The hash whose bytes are all zero.
    pub fn zero() -> (h: Blake3Hash)
        ensures
            h@ == Seq::new(32, |i: int| 0u8),
    {
        let h = Blake3Hash { bytes: [0u8; 32] };
        assert(h@ =~= Seq::new(32, |i: int| 0u8));
        h
    }

    /// The hash's bytes.
    pub fn as_bytes(&self) -> (b: &[u8; 32])
        ensures
            b@ == self@,
    {
        &self.bytes
    }

    /// Byte-wise equality of two hashes.
    pub fn same(&self, other: &Blake3Hash) -> (r: bool)
        ensures
            r == (self@ == other@),
    {
        let mut i: usize = 0;
        while i < 32
            invariant
                0 <= i <= 32,
                self.bytes@.len() == 32,
                other.bytes@.len() == 32,
                forall|j: int| 0 <= j < i ==> self.bytes@[j] == other.bytes@[j],
            decreases 32 - i,
        {
            if self.bytes[i] != other.bytes[i] {
                return false;
            }
            i = i + 1;
        }
        assert(self.bytes@ =~= other.bytes@);
        true
    }

    /// Lowercase hexadecimal text of the hash (64 digits).
    pub fn to_hex(&self) -> (s: String)
        ensures
            s@ == hex_text(self@),
            s@.len() == 64,
    {
        hex_encode(&self.bytes)
    }

    /// Parses 64 hexadecimal digits (either case) into a hash.
    pub fn from_hex(text: &str) -> (r: Result<Blake3Hash, HashParseError>)
        ensures
            match r {
                Ok(h) => parse_hash_result(text@) == Ok::<Seq<u8>, HashParseError>(h@),
                Err(e) => parse_hash_result(text@) == Err::<Seq<u8>, HashParseError>(e),
            },
    {
        match hex_decode(text) {
            Ok(v) => {
                if v.len() != 32 {
                    return Err(HashParseError::InvalidStringLength);
                }
                let mut bytes = [0u8; 32];
                let mut i: usize = 0;
                while i < 32
                    invariant
                        0 <= i <= 32,
                        v@.len() == 32,
                        bytes@.len() == 32,
                        forall|j: int| 0 <= j < i ==> bytes@[j] == v@[j],
                    decreases 32 - i,
                {
                    bytes[i] = v[i];
                    i = i + 1;
                }
                let h = Blake3Hash { bytes };
                assert(h@ =~= v@);
                Ok(h)
            },
            Err(e) => Err(e),
        }
    }
}

// ─────────────────────────────────────────────────────────────────────────────
//  Round trip of the hexadecimal form
// ─────────────────────────────────────────────────────────────────────────────

/// The byte of a lowercase digit is that digit's value again.
proof fn lemma_hex_digit_value(d: u8)
    requires
        d < 16,
    ensures
        '\0' <= hex_digit(d) <= '\u{7f}',
        hex_value(hex_digit(d) as u8) == Some(d),
{
    if d < 10 {
        assert(((d + 48) as u8) as char as u8 == (d + 48) as u8);
    } else {
        assert(((d - 10 + 97) as u8) as char as u8 == (d - 10 + 97) as u8);
    }
}

/// A byte is its high nibble times 16 plus its low nibble.
proof fn lemma_nibbles(b: u8)
    ensures
        b / 16 < 16,
        b % 16 < 16,
        (b / 16) * 16 + b % 16 == b,
{
    assert((b / 16) * 16 + b % 16 == b) by (nonlinear_arith);
}

/// Parsing the hexadecimal text of 32 bytes gives the bytes back.
pub proof fn lemma_hex_round_trip(bytes: Seq<u8>)
    requires
        bytes.len() == 32,
    ensures
        parse_hash_result(hex_text(bytes)) == Ok::<Seq<u8>, HashParseError>(bytes),
{
    let text = hex_text(bytes);
    assert forall|i: int| 0 <= i < text.len() implies '\0' <= #[trigger] text[i] <= '\u{7f}' by {
        lemma_nibbles(bytes[i / 2]);
        if i % 2 == 0 {
            lemma_hex_digit_value(bytes[i / 2] / 16);
        } else {
            lemma_hex_digit_value(bytes[i / 2] % 16);
        }
    }
    vstd::utf8::is_ascii_chars_encode_utf8(text);
    let data = encode_utf8(text);
    assert(data.len() == 64);
    assert forall|i: int| 0 <= i < data.len() implies #[trigger] hex_value(data[i]) is Some by {
        assert(data[i] == text[i] as u8);
        lemma_nibbles(bytes[i / 2]);
        if i % 2 == 0 {
            lemma_hex_digit_value(bytes[i / 2] / 16);
        } else {
            lemma_hex_digit_value(bytes[i / 2] % 16);
        }
    }
    assert(first_non_hex(data) is None);
    let decoded = Seq::new(
        data.len() / 2,
        |k: int| (hex_value(data[2 * k])->0 * 16 + hex_value(data[2 * k + 1])->0) as u8,
    );
    assert forall|k: int| 0 <= k < 32 implies decoded[k] == bytes[k] by {
        lemma_nibbles(bytes[k]);
        assert(data[2 * k] == text[2 * k] as u8);
        assert(data[2 * k + 1] == text[2 * k + 1] as u8);
        assert((2 * k) / 2 == k);
        assert((2 * k + 1) / 2 == k);
        assert((2 * k) % 2 == 0);
        assert((2 * k + 1) % 2 == 1);
        lemma_hex_digit_value(bytes[k] / 16);
        lemma_hex_digit_value(bytes[k] % 16);
    }
    assert(decoded =~= bytes);
}

impl Blake3Hash {
    /// Hashes with the same bytes are the same hash.
    pub proof fn lemma_view_injective(self, other: Blake3Hash)
        ensures
            (self@ == other@) == (self == other),
    {
        if self@ == other@ {
            assert(self.bytes =~= other.bytes);
        }
    }
}

impl core::str::FromStr for Blake3Hash {
    type Err = HashParseError;

    /// Parses 64 hexadecimal digits, as `from_hex` does.
    fn from_str(s: &str) -> (r: Result<Blake3Hash, HashParseError>)
        ensures
            match r {
                Ok(h) => parse_hash_result(s@) == Ok::<Seq<u8>, HashParseError>(h@),
                Err(e) => parse_hash_result(s@) == Err::<Seq<u8>, HashParseError>(e),
            },
    {
        Blake3Hash::from_hex(s)
    }
}

} // verus!
