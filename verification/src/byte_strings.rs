//! 20-byte identifiers carried as text: each byte travels as one
//! character whose code point is the byte's value. This is how info-hashes
//! arrive in the textual protocol variants.

use vstd::prelude::*;
use vstd::string::StrSliceExecFns;

use crate::common::InfoHash;

verus! {

/// Why a string does not denote 20 bytes.
#[derive(Clone, Copy, Debug, PartialEq, Eq, Structural)]
pub enum ByteStringError {
    /// A character among the first twenty is above code point 255.
    CharOutOfRange,
    /// The string has fewer than twenty characters.
    NotTwentyBytes,
}

/// The bytes a character sequence denotes: accepted exactly when at least
/// twenty characters arrive and the first twenty are single-byte.
pub open spec fn spec_twenty_bytes(s: Seq<char>) -> Result<Seq<u8>, ByteStringError> {
    let checked = if s.len() < 20 {
        s.len() as int
    } else {
        20
    };
    if exists|i: int| 0 <= i < checked && (#[trigger] s[i]) as u32 > 255 {
        Err(ByteStringError::CharOutOfRange)
    } else if s.len() < 20 {
        Err(ByteStringError::NotTwentyBytes)
    } else {
        Ok(Seq::new(20, |i: int| (s[i] as u32) as u8))
    }
}

/// Reads the first twenty characters of a string as bytes. Characters
/// beyond the twentieth are ignored.
pub struct TwentyByteVisitor;

impl TwentyByteVisitor {
    /// Exec mirror of `spec_twenty_bytes`.
    pub fn visit_str(value: &str) -> (r: Result<[u8; 20], ByteStringError>)
        ensures
            match r {
                Ok(arr) => spec_twenty_bytes(value@) == Ok::<Seq<u8>, ByteStringError>(arr@),
                Err(e) => spec_twenty_bytes(value@) == Err::<Seq<u8>, ByteStringError>(e),
            },
    {
        let len = value.unicode_len();
        let ghost checked: int = if len < 20 {
            len as int
        } else {
            20
        };
        let mut arr: [u8; 20] = [0u8; 20];
        let mut i: usize = 0;
        while i < 20 && i < len
            invariant
                len == value@.len(),
                checked == (if len < 20 {
                    len as int
                } else {
                    20int
                }),
                i <= 20,
                i <= len,
                i < checked + 1,
                arr@.len() == 20,
                forall|k: int| 0 <= k < i ==> (#[trigger] value@[k]) as u32 <= 255,
                forall|k: int| 0 <= k < i ==> arr@[k] == (value@[k] as u32) as u8,
            decreases 20 - i,
        {
            let c = value.get_char(i);
            if c as u32 > 255 {
                proof {
                    assert(0 <= i < checked && (value@[i as int]) as u32 > 255);
                }
                return Err(ByteStringError::CharOutOfRange);
            }
            arr[i] = (c as u32) as u8;
            i = i + 1;
        }
        if i < 20 {
            proof {
                assert(len < 20);
                assert(forall|k: int| 0 <= k < checked ==> (#[trigger] value@[k]) as u32 <= 255);
            }
            return Err(ByteStringError::NotTwentyBytes);
        }
        proof {
            assert(forall|k: int| 0 <= k < checked ==> (#[trigger] value@[k]) as u32 <= 255);
            assert(arr@ =~= Seq::new(20, |k: int| (value@[k] as u32) as u8));
        }
        Ok(arr)
    }
}

/// The character each byte travels as.
pub open spec fn spec_byte_chars(b: Seq<u8>) -> Seq<char> {
    Seq::new(b.len(), |i: int| b[i] as char)
}

/// Renders 20 bytes as the characters they travel as; the inverse of
/// `TwentyByteVisitor::visit_str` on its accepted strings.
pub fn twenty_bytes_to_chars(data: &[u8; 20]) -> (r: Vec<char>)
    ensures
        r@ == spec_byte_chars(data@),
{
    let mut out: Vec<char> = Vec::new();
    for i in 0..20usize
        invariant
            out@ =~= spec_byte_chars(data@).take(i as int),
    {
        out.push(data[i] as char);
        proof {
            assert(out@ =~= spec_byte_chars(data@).take(i + 1));
        }
    }
    proof {
        assert(spec_byte_chars(data@).take(20) =~= spec_byte_chars(data@));
    }
    out
}

/// Law: rendering bytes as characters and reading them back yields the
/// same bytes.
pub proof fn lemma_byte_string_roundtrip(b: Seq<u8>)
    requires
        b.len() == 20,
    ensures
        spec_twenty_bytes(spec_byte_chars(b)) == Ok::<Seq<u8>, ByteStringError>(b),
{
    let s = spec_byte_chars(b);
    assert(forall|i: int| 0 <= i < 20 ==> (#[trigger] s[i]) as u32 == b[i]);
    let r = spec_twenty_bytes(s);
    assert(r is Ok);
    assert(r.unwrap() =~= b);
}

/// Reads one info-hash, or a list of them, out of the textual forms the
/// protocol allows.
pub struct InfoHashVecVisitor;

impl InfoHashVecVisitor {
    /// A single string denotes a list of one info-hash.
    pub fn visit_str(value: &str) -> (r: Result<Vec<InfoHash>, ByteStringError>)
        ensures
            match r {
                Ok(v) => v@.len() == 1 && spec_twenty_bytes(value@) == Ok::<
                    Seq<u8>,
                    ByteStringError,
                >(v@[0]@),
                Err(e) => spec_twenty_bytes(value@) == Err::<Seq<u8>, ByteStringError>(e),
            },
    {
        match TwentyByteVisitor::visit_str(value) {
            Ok(arr) => {
                let mut v: Vec<InfoHash> = Vec::new();
                v.push(InfoHash(arr));
                Ok(v)
            },
            Err(e) => Err(e),
        }
    }

    /// A list of strings denotes one info-hash each; the first invalid
    /// entry refuses the whole list with its own error.
    pub fn visit_seq(values: &Vec<String>) -> (r: Result<Vec<InfoHash>, ByteStringError>)
        ensures
            match r {
                Ok(v) => v@.len() == values@.len() && forall|k: int|
                    0 <= k < values@.len() ==> spec_twenty_bytes(values@[k]@) == Ok::<
                        Seq<u8>,
                        ByteStringError,
                    >((#[trigger] v@[k])@),
                Err(e) => exists|k: int|
                    0 <= k < values@.len() && spec_twenty_bytes((#[trigger] values@[k])@) == Err::<
                        Seq<u8>,
                        ByteStringError,
                    >(e) && (forall|j: int|
                        0 <= j < k ==> spec_twenty_bytes((#[trigger] values@[j])@) is Ok),
            },
    {
        let n = values.len();
        let mut out: Vec<InfoHash> = Vec::new();
        for k in 0..n
            invariant
                n == values@.len(),
                out@.len() == k,
                forall|j: int|
                    0 <= j < k ==> spec_twenty_bytes(values@[j]@) == Ok::<Seq<u8>, ByteStringError>(
                        (#[trigger] out@[j])@,
                    ),
        {
            match TwentyByteVisitor::visit_str(values[k].as_str()) {
                Ok(arr) => {
                    out.push(InfoHash(arr));
                },
                Err(e) => {
                    proof {
                        assert forall|j: int| 0 <= j < k implies spec_twenty_bytes(
                            (#[trigger] values@[j])@,
                        ) is Ok by {
                            assert(spec_twenty_bytes(values@[j]@) == Ok::<
                                Seq<u8>,
                                ByteStringError,
                            >(out@[j]@));
                        }
                    }
                    return Err(e);
                },
            }
        }
        Ok(out)
    }

    /// No value denotes the empty list.
    pub fn visit_none() -> (r: Vec<InfoHash>)
        ensures
            r@.len() == 0,
    {
        Vec::new()
    }
}

} // verus!
