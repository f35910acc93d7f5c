//! What the service makes of the headers of a request before it reaches its
//! endpoint: the controller, the historical root and the signature that the
//! request's owner is recovered from.

use vstd::prelude::*;
use vstd::string::{StrSliceExecFns, StringExecFns, StringSliceAdditionalSpecFns};
use vstd::utf8::encode_utf8;

use crate::hash::Hash32;
use crate::http::{json_text, json_to_string};
use crate::http_commands::{decimal, decimal_string};
use crate::ids::{hex_decoded, hex_val, is_hex, request_ids};
use crate::merkle::smt::zero_hash;

verus! {

/// The errors of `const_hex`, as the library reads them.
#[derive(Debug, Clone, Copy, PartialEq, Eq)]
pub enum HexError {
    /// A character that is not a hexadecimal digit, at a position.
    InvalidHexCharacter { c: char, index: usize },
    /// An odd number of digits.
    OddLength,
    /// A text of the wrong length for a fixed container.
    InvalidStringLength,
}

/// The text without a leading `0x` or `0X`.
pub open spec fn strip_hex_prefix(s: Seq<u8>) -> Seq<u8> {
    if s.len() >= 2 && s[0] == 48u8 && (s[1] == 120u8 || s[1] == 88u8) {
        s.subrange(2, s.len() as int)
    } else {
        s
    }
}

/// The position of the first byte from `i` on that is not a hexadecimal
/// digit.
pub open spec fn first_non_hex(s: Seq<u8>, i: int) -> Option<int>
    decreases s.len() - i,
{
    if i < 0 || i >= s.len() {
        None
    } else if hex_val(s[i]) is None {
        Some(i)
    } else {
        first_non_hex(s, i + 1)
    }
}

/// The error that `const_hex::decode` gives for a text it refuses: an odd
/// length first, else the first character of the text without its prefix
/// that is not a hexadecimal digit.
pub open spec fn hex_decode_error(s: Seq<u8>) -> HexError {
    if s.len() % 2 == 1 {
        HexError::OddLength
    } else {
        let t = strip_hex_prefix(s);
        let i = first_non_hex(t, 0)->0;
        HexError::InvalidHexCharacter { c: t[i] as char, index: i as usize }
    }
}

/// Calls `const_hex::decode`: it refuses an odd length, drops a leading `0x`
/// or `0X`, then reads pairs of hexadecimal digits of either case and
/// refuses the first character that is not one. The error is read variant
/// by variant.
#[verifier::external_body]
fn const_hex_decode(s: &str) -> (r: Result<Vec<u8>, HexError>)
    ensures
        r is Ok <==> is_hex(strip_hex_prefix(s.spec_bytes())),
        r matches Ok(v) ==> v@ == hex_decoded(strip_hex_prefix(s.spec_bytes())),
        r matches Err(e) ==> e == hex_decode_error(s.spec_bytes()),
{
    const_hex::decode(s).map_err(|e| match e {
        const_hex::FromHexError::InvalidHexCharacter { c, index } => HexError::InvalidHexCharacter { c, index },
        const_hex::FromHexError::OddLength => HexError::OddLength,
        const_hex::FromHexError::InvalidStringLength => HexError::InvalidStringLength,
    })
}

/// What the `Debug` of a character writes.
pub uninterp spec fn char_debug(c: char) -> Seq<char>;

/// Calls the `Debug` of `char`: the character between single quotes,
/// escaped where needed; a printable ASCII character other than the quote
/// and the backslash stands as it is.
#[verifier::external_body]
fn char_debug_text(c: char) -> (r: String)
    ensures
        r@ == char_debug(c),
        (' ' <= c <= '~' && c != '\'' && c != '\\') ==> r@ == seq!['\'', c, '\''],
{
    format!("{:?}", c)
}

/// The message of a `const_hex` error, as its `Display` writes it.
pub open spec fn hex_error_message(e: HexError) -> Seq<char> {
    match e {
        HexError::InvalidHexCharacter { c, index } => "invalid character "@ + char_debug(c)
            + " at position "@ + decimal(index as nat),
        HexError::OddLength => "odd number of digits"@,
        HexError::InvalidStringLength => "invalid string length"@,
    }
}

/// The message of a `const_hex` error.
pub fn hex_error_text(e: HexError) -> (m: String)
    ensures
        m@ == hex_error_message(e),
{
    match e {
        HexError::InvalidHexCharacter { c, index } => String::from_str("invalid character ").concat(
            char_debug_text(c).as_str(),
        ).concat(" at position ").concat(decimal_string(index as u64).as_str()),
        HexError::OddLength => String::from_str("odd number of digits"),
        HexError::InvalidStringLength => String::from_str("invalid string length"),
    }
}

/// Whether a header value is a hash: 64 hexadecimal digits.
pub open spec fn hash_text(s: Seq<u8>) -> bool {
    is_hex(s) && s.len() == 64
}

/// What the service does with a request, given its headers.
#[derive(Debug)]
pub enum ContextStep {
    /// Answer `400 Bad Request`, with a message or with the status alone.
    BadRequest(Option<String>),
    /// Build the context of `controller`, at `root` when one is named, else
    /// at the latest root; the request has no owner.
    Build { controller: Hash32, root: Option<Hash32> },
    /// Recover the owner from `signature` over the request's data with the
    /// identifier `uuid`, then build the context as above. The data is the
    /// JSON body when `read_body` holds (any method but `GET`), else `null`.
    Recover {
        controller: Hash32,
        root: Option<Hash32>,
        signature: Vec<u8>,
        uuid: String,
        read_body: bool,
    },
}

/// The controller that a request names: the zero hash when it names none.
pub open spec fn named_controller(circuit: Option<&str>) -> Seq<u8> {
    match circuit {
        Some(c) => hex_decoded(c.spec_bytes()),
        None => zero_hash(),
    }
}

/// Whether `root` is what the header gives.
pub open spec fn named_root(header: Option<&str>, root: Option<Hash32>) -> bool {
    match header {
        Some(t) => root matches Some(x) && x@ == hex_decoded(t.spec_bytes()),
        None => root is None,
    }
}

/// The step for a request with the headers `circuit`, `root`, `signature`
/// and `uuid`: an invalid controller or root is refused with the status
/// alone, an invalid signature with the decoder's message; a signed request
/// has its owner recovered, over its body unless it is a `GET`.
pub fn context_step(
    is_get: bool,
    circuit: Option<&str>,
    root: Option<&str>,
    signature: Option<&str>,
    uuid: Option<&str>,
) -> (s: ContextStep)
    ensures
        (circuit matches Some(c) && !hash_text(c.spec_bytes())) ==> s == ContextStep::BadRequest(None),
        !(circuit matches Some(c) && !hash_text(c.spec_bytes())) && (root matches Some(t)
            && !hash_text(t.spec_bytes())) ==> s == ContextStep::BadRequest(None),
        !(circuit matches Some(c) && !hash_text(c.spec_bytes())) && !(root matches Some(t)
            && !hash_text(t.spec_bytes())) ==> match signature {
            None => s matches ContextStep::Build { controller: c, root: t } && c@ == named_controller(
                circuit,
            ) && named_root(root, t),
            Some(g) => if is_hex(strip_hex_prefix(g.spec_bytes())) {
                &&& s matches ContextStep::Recover { controller: c, root: t, signature: b, uuid: u, read_body }
                &&& c@ == named_controller(circuit)
                &&& named_root(root, t)
                &&& b@ == hex_decoded(strip_hex_prefix(g.spec_bytes()))
                &&& u@ == match uuid {
                    Some(x) => x@,
                    None => Seq::<char>::empty(),
                }
                &&& read_body == !is_get
            } else {
                s matches ContextStep::BadRequest(Some(m)) && m@ == hex_error_message(
                    hex_decode_error(g.spec_bytes()),
                )
            },
        },
{
    let (controller, root_hash) = match request_ids(circuit, root) {
        Ok(ids) => ids,
        Err(_) => return ContextStep::BadRequest(None),
    };
    match signature {
        None => ContextStep::Build { controller, root: root_hash },
        Some(g) => match const_hex_decode(g) {
            Ok(bytes) => {
                let uuid = match uuid {
                    Some(x) => x.to_string(),
                    None => String::new(),
                };
                ContextStep::Recover { controller, root: root_hash, signature: bytes, uuid, read_body: !is_get }
            },
            Err(e) => ContextStep::BadRequest(Some(hex_error_text(e))),
        },
    }
}

/// The bytes that the owner of a request signed: the JSON text of its data.
pub fn signed_message(data: &serde_json::Value) -> (m: Vec<u8>)
    ensures
        m@ == encode_utf8(json_text(*data)),
{
    match json_to_string(data) {
        Ok(text) => text.as_str().as_bytes_vec(),
        Err(_) => Vec::new(),
    }
}

} // verus!
