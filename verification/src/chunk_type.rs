//! The four-byte chunk type code and its property bits. The case of each byte
//! (ASCII uppercase vs lowercase) encodes one property: critical, public,
//! reserved-bit validity, and safe-to-copy.

use vstd::prelude::*;

use crate::codec::spec_latin1_chars;

verus! {

/// Why a textual chunk type code was rejected.
#[derive(Debug, PartialEq, Eq)]
pub enum ParseChunkTypeError {
    /// The text does not hold exactly four characters; `found` is how many it holds.
    InvalidLength { found: usize },
    /// The first character that is not an ASCII letter.
    InvalidByte(char),
}

/// A four-byte chunk type code. Any four raw bytes form a code; only the
/// textual constructor demands ASCII letters.
#[derive(Debug, Clone, Copy)]
pub struct ChunkType {
    code: [u8; 4],
}

impl View for ChunkType {
    type V = Seq<u8>;

    closed spec fn view(&self) -> Seq<u8> {
        self.code@
    }
}

/// Every chunk type code is exactly four bytes.
pub broadcast proof fn lemma_chunk_type_len(t: ChunkType)
    ensures
        (#[trigger] t@).len() == 4,
{
}

impl PartialEq for ChunkType {
    fn eq(&self, other: &Self) -> (r: bool) {
        let r = self.code[0] == other.code[0] && self.code[1] == other.code[1] && self.code[2]
            == other.code[2] && self.code[3] == other.code[3];
        proof {
            if r {
                assert(self.code@ =~= other.code@);
            }
        }
        r
    }
}

impl vstd::std_specs::cmp::PartialEqSpecImpl for ChunkType {
    open spec fn obeys_eq_spec() -> bool {
        true
    }

    open spec fn eq_spec(&self, other: &Self) -> bool {
        self@ == other@
    }
}

/// An ASCII uppercase letter.
pub open spec fn spec_is_uppercase(b: u8) -> bool {
    65 <= b <= 90
}

/// An ASCII lowercase letter.
pub open spec fn spec_is_lowercase(b: u8) -> bool {
    97 <= b <= 122
}

/// An ASCII letter, as a character.
pub open spec fn spec_is_ascii_alphabetic(c: char) -> bool {
    spec_is_uppercase(c as u8) && c as u32 <= 127 || spec_is_lowercase(c as u8) && c as u32 <= 127
}

/// The four bytes named by a four-character text, one byte per character.
pub open spec fn spec_text_bytes(s: Seq<char>) -> Seq<u8> {
    Seq::new(s.len(), |i: int| s[i] as u8)
}

impl ChunkType {
    /// Accepts any four raw bytes as a chunk type code; no check is made.
    pub fn from_bytes(code: [u8; 4]) -> (r: ChunkType)
        ensures
            r@ == code@,
    {
        ChunkType { code }
    }

    /// Builds a code from text. The text must hold only ASCII letters, and
    /// exactly four of them: the first other character is reported as
    /// `InvalidByte`; a wrong count of letters as `InvalidLength`.
    pub fn from_text(s: &str) -> (r: Result<ChunkType, ParseChunkTypeError>)
        ensures
            match r {
                Ok(t) => s@.len() == 4 && (forall|j: int|
                    0 <= j < s@.len() ==> spec_is_ascii_alphabetic(#[trigger] s@[j])) && t@
                    == spec_text_bytes(s@),
                Err(ParseChunkTypeError::InvalidByte(c)) => exists|i: int|
                    0 <= i < s@.len() && !spec_is_ascii_alphabetic(#[trigger] s@[i]) && c == s@[i]
                        && (forall|j: int| 0 <= j < i ==> spec_is_ascii_alphabetic(#[trigger] s@[j])),
                Err(ParseChunkTypeError::InvalidLength { found }) => found == s@.len() && s@.len()
                    != 4 && (forall|j: int|
                    0 <= j < s@.len() ==> spec_is_ascii_alphabetic(#[trigger] s@[j])),
            },
            (r matches Ok(_)) <==> (s@.len() == 4 && forall|j: int|
                0 <= j < s@.len() ==> spec_is_ascii_alphabetic(#[trigger] s@[j])),
    {
        let n = s.unicode_len();
        let mut i: usize = 0;
        while i < n
            invariant
                i <= n,
                n == s@.len(),
                forall|j: int| 0 <= j < i ==> spec_is_ascii_alphabetic(#[trigger] s@[j]),
            decreases n - i,
        {
            let c = s.get_char(i);
            let u = c as u32;
            if !((65 <= u && u <= 90) || (97 <= u && u <= 122)) {
                return Err(ParseChunkTypeError::InvalidByte(c));
            }
            i = i + 1;
        }
        if n != 4 {
            return Err(ParseChunkTypeError::InvalidLength { found: n });
        }
        let code = [
            s.get_char(0) as u8,
            s.get_char(1) as u8,
            s.get_char(2) as u8,
            s.get_char(3) as u8,
        ];
        proof {
            assert(code@ =~= spec_text_bytes(s@));
        }
        Ok(ChunkType { code })
    }

    /// The stored code, unchanged.
    pub fn bytes(&self) -> (r: [u8; 4])
        ensures
            r@ == self@,
    {
        self.code
    }

    /// A chunk is critical when the first byte of its code is uppercase.
    pub fn is_critical(&self) -> (r: bool)
        ensures
            r == spec_is_uppercase(self@[0]),
    {
        65 <= self.code[0] && self.code[0] <= 90
    }

    /// A chunk is public when the second byte of its code is uppercase.
    pub fn is_public(&self) -> (r: bool)
        ensures
            r == spec_is_uppercase(self@[1]),
    {
        65 <= self.code[1] && self.code[1] <= 90
    }

    /// The reserved bit is valid when the third byte of the code is uppercase.
    pub fn is_reserved_bit_valid(&self) -> (r: bool)
        ensures
            r == spec_is_uppercase(self@[2]),
    {
        65 <= self.code[2] && self.code[2] <= 90
    }

    /// A chunk is safe to copy when the fourth byte of its code is lowercase.
    pub fn is_safe_to_copy(&self) -> (r: bool)
        ensures
            r == spec_is_lowercase(self@[3]),
    {
        97 <= self.code[3] && self.code[3] <= 122
    }

    /// Validity is the reserved bit alone; the other properties are
    /// informational.
    pub fn is_valid(&self) -> (r: bool)
        ensures
            r == spec_is_uppercase(self@[2]),
    {
        self.is_reserved_bit_valid()
    }

    /// The code read as four characters of text.
    pub fn to_text(&self) -> (r: String)
        ensures
            r@ == spec_latin1_chars(self@),
    {
        let mut v: Vec<u8> = Vec::new();
        v.push(self.code[0]);
        v.push(self.code[1]);
        v.push(self.code[2]);
        v.push(self.code[3]);
        proof {
            assert(v@ =~= self@);
        }
        crate::codec::latin1_text(&v)
    }
}

} // verus!
