//! Identifiers written as hexadecimal strings: controllers, programs and
//! historical roots.

use vstd::prelude::*;
use vstd::string::StringSliceAdditionalSpecFns;

use crate::hash::Hash32;
use crate::merkle::smt::{zero, zero_hash};

verus! {

/// The value of a hexadecimal digit, in either case.
pub open spec fn hex_val(c: u8) -> Option<u8> {
    if 65 <= c <= 70 {
        Some((c - 55) as u8)
    } else if 97 <= c <= 102 {
        Some((c - 87) as u8)
    } else if 48 <= c <= 57 {
        Some((c - 48) as u8)
    } else {
        None
    }
}

/// Every byte is a hexadecimal digit and they come in pairs.
pub open spec fn is_hex(s: Seq<u8>) -> bool {
    &&& s.len() % 2 == 0
    &&& forall|i: int| 0 <= i < s.len() ==> (#[trigger] hex_val(s[i])) is Some
}

/// The bytes that pairs of hexadecimal digits stand for.
pub open spec fn hex_decoded(s: Seq<u8>) -> Seq<u8> {
    Seq::new(
        s.len() / 2,
        |i: int| (hex_val(s[2 * i])->0 * 16 + hex_val(s[2 * i + 1])->0) as u8,
    )
}

/// The error type of `hex::decode`.
#[verifier::external_type_specification]
#[verifier::external_body]
pub struct ExFromHexError(hex::FromHexError);

/// Calls `hex::decode`, which reads pairs of hexadecimal digits of either
/// case and fails on an odd length or on any other character.
#[verifier::external_body]
fn hex_decode(s: &str) -> (r: Result<Vec<u8>, hex::FromHexError>)
    ensures
        r is Ok <==> is_hex(s.spec_bytes()),
        r matches Ok(v) ==> v@ == hex_decoded(s.spec_bytes()),
{
    hex::decode(s)
}

/// Why a string is not a hash.
#[derive(Debug)]
pub enum HashParseError {
    /// The string is not hexadecimal.
    InvalidHex(hex::FromHexError),
    /// The string does not hold 32 bytes.
    InvalidLength,
}

/// Reads a hash written as 64 hexadecimal digits.
pub fn try_str_to_hash(hash: &str) -> (r: Result<Hash32, HashParseError>)
    ensures
        !is_hex(hash.spec_bytes()) ==> r matches Err(HashParseError::InvalidHex(_)),
        is_hex(hash.spec_bytes()) && hash.spec_bytes().len() != 64 ==> r matches Err(
            HashParseError::InvalidLength,
        ),
        is_hex(hash.spec_bytes()) && hash.spec_bytes().len() == 64 ==> (r matches Ok(h) && h@
            == hex_decoded(hash.spec_bytes())),
{
    let bytes = match hex_decode(hash) {
        Ok(b) => b,
        Err(e) => return Err(HashParseError::InvalidHex(e)),
    };
    if bytes.len() != 32 {
        return Err(HashParseError::InvalidLength);
    }
    let mut h: Hash32 = [0u8; 32];
    let mut i: usize = 0;
    while i < 32
        invariant
            i <= 32,
            bytes@.len() == 32,
            forall|j: int| 0 <= j < i ==> h@[j] == bytes@[j],
        decreases 32 - i,
    {
        h[i] = bytes[i];
        i = i + 1;
    }
    assert(h@ =~= bytes@);
    Ok(h)
}

/// The error that reading `s` as a hash gives: invalid hexadecimal first,
/// else a wrong length.
pub open spec fn hash_text_error<T>(s: Seq<u8>, r: Result<T, HashParseError>) -> bool {
    if !is_hex(s) {
        r matches Err(HashParseError::InvalidHex(_))
    } else {
        r matches Err(HashParseError::InvalidLength)
    }
}

/// The controller and the historical root that a request names in its
/// headers: a missing controller is the zero hash, a missing root none.
/// The controller is read first.
pub fn request_ids(controller: Option<&str>, root: Option<&str>) -> (r: Result<
    (Hash32, Option<Hash32>),
    HashParseError,
>)
    ensures
        controller matches Some(c) ==> (!(is_hex(c.spec_bytes()) && c.spec_bytes().len() == 64)
            ==> hash_text_error(c.spec_bytes(), r)),
        controller is None || (controller matches Some(c) && is_hex(c.spec_bytes())
            && c.spec_bytes().len() == 64) ==> match root {
            Some(t) => if is_hex(t.spec_bytes()) && t.spec_bytes().len() == 64 {
                r matches Ok((c, Some(x))) && x@ == hex_decoded(t.spec_bytes())
            } else {
                hash_text_error(t.spec_bytes(), r)
            },
            None => r matches Ok((_, None)),
        },
        r matches Ok((c, _)) ==> match controller {
            Some(s) => c@ == hex_decoded(s.spec_bytes()),
            None => c@ == zero_hash(),
        },
{
    let c = match controller {
        Some(s) => match try_str_to_hash(s) {
            Ok(h) => h,
            Err(e) => return Err(e),
        },
        None => zero(),
    };
    let t = match root {
        Some(s) => match try_str_to_hash(s) {
            Ok(h) => Some(h),
            Err(e) => return Err(e),
        },
        None => None,
    };
    Ok((c, t))
}

} // verus!
