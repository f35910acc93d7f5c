//! The decisions of the host functions that a controller calls: the codes
//! they return and the bounds they check on the controller's memory.

use vstd::prelude::*;
use vstd::string::StringExecFns;

use crate::http::str_from_utf8;

verus! {

/// The codes that host functions return to a controller.
#[derive(Debug, Clone, Copy, PartialEq, Eq)]
pub enum ReturnCodes {
    Success,
    MemoryExport,
    MemoryCapacity,
    MemoryWrite,
    MemoryRead,
    ReturnBytes,
    BufferTooLarge,
    ControllerRawStorage,
    StringUtf8,
    DomainProof,
    Serialization,
    JsonValue,
    StateProof,
    Http,
    LatestBlock,
    ControllerStorage,
}

/// The integer of each code: `0` for success, negative for failures.
pub open spec fn return_code(c: ReturnCodes) -> int {
    match c {
        ReturnCodes::Success => 0,
        ReturnCodes::MemoryExport => -1,
        ReturnCodes::MemoryCapacity => -2,
        ReturnCodes::MemoryWrite => -3,
        ReturnCodes::MemoryRead => -4,
        ReturnCodes::ReturnBytes => -5,
        ReturnCodes::BufferTooLarge => -6,
        ReturnCodes::ControllerRawStorage => -7,
        ReturnCodes::StringUtf8 => -8,
        ReturnCodes::DomainProof => -9,
        ReturnCodes::Serialization => -10,
        ReturnCodes::JsonValue => -11,
        ReturnCodes::StateProof => -12,
        ReturnCodes::Http => -13,
        ReturnCodes::LatestBlock => -14,
        ReturnCodes::ControllerStorage => -15,
    }
}

/// The code whose integer is `n`, if any.
pub open spec fn code_of(n: int) -> Option<ReturnCodes> {
    if n == 0 {
        Some(ReturnCodes::Success)
    } else if n == -1 {
        Some(ReturnCodes::MemoryExport)
    } else if n == -2 {
        Some(ReturnCodes::MemoryCapacity)
    } else if n == -3 {
        Some(ReturnCodes::MemoryWrite)
    } else if n == -4 {
        Some(ReturnCodes::MemoryRead)
    } else if n == -5 {
        Some(ReturnCodes::ReturnBytes)
    } else if n == -6 {
        Some(ReturnCodes::BufferTooLarge)
    } else if n == -7 {
        Some(ReturnCodes::ControllerRawStorage)
    } else if n == -8 {
        Some(ReturnCodes::StringUtf8)
    } else if n == -9 {
        Some(ReturnCodes::DomainProof)
    } else if n == -10 {
        Some(ReturnCodes::Serialization)
    } else if n == -11 {
        Some(ReturnCodes::JsonValue)
    } else if n == -12 {
        Some(ReturnCodes::StateProof)
    } else if n == -13 {
        Some(ReturnCodes::Http)
    } else if n == -14 {
        Some(ReturnCodes::LatestBlock)
    } else if n == -15 {
        Some(ReturnCodes::ControllerStorage)
    } else {
        None
    }
}

impl ReturnCodes {
    /// The integer that the host returns for this code.
    pub fn code(&self) -> (n: i32)
        ensures
            n == return_code(*self),
    {
        match self {
            ReturnCodes::Success => 0,
            ReturnCodes::MemoryExport => -1,
            ReturnCodes::MemoryCapacity => -2,
            ReturnCodes::MemoryWrite => -3,
            ReturnCodes::MemoryRead => -4,
            ReturnCodes::ReturnBytes => -5,
            ReturnCodes::BufferTooLarge => -6,
            ReturnCodes::ControllerRawStorage => -7,
            ReturnCodes::StringUtf8 => -8,
            ReturnCodes::DomainProof => -9,
            ReturnCodes::Serialization => -10,
            ReturnCodes::JsonValue => -11,
            ReturnCodes::StateProof => -12,
            ReturnCodes::Http => -13,
            ReturnCodes::LatestBlock => -14,
            ReturnCodes::ControllerStorage => -15,
        }
    }

    /// The code whose integer is `n`, if any.
    pub fn from_code(n: i32) -> (r: Option<ReturnCodes>)
        ensures
            r == code_of(n as int),
    {
        if n == 0 {
            Some(ReturnCodes::Success)
        } else if n == -1 {
            Some(ReturnCodes::MemoryExport)
        } else if n == -2 {
            Some(ReturnCodes::MemoryCapacity)
        } else if n == -3 {
            Some(ReturnCodes::MemoryWrite)
        } else if n == -4 {
            Some(ReturnCodes::MemoryRead)
        } else if n == -5 {
            Some(ReturnCodes::ReturnBytes)
        } else if n == -6 {
            Some(ReturnCodes::BufferTooLarge)
        } else if n == -7 {
            Some(ReturnCodes::ControllerRawStorage)
        } else if n == -8 {
            Some(ReturnCodes::StringUtf8)
        } else if n == -9 {
            Some(ReturnCodes::DomainProof)
        } else if n == -10 {
            Some(ReturnCodes::Serialization)
        } else if n == -11 {
            Some(ReturnCodes::JsonValue)
        } else if n == -12 {
            Some(ReturnCodes::StateProof)
        } else if n == -13 {
            Some(ReturnCodes::Http)
        } else if n == -14 {
            Some(ReturnCodes::LatestBlock)
        } else if n == -15 {
            Some(ReturnCodes::ControllerStorage)
        } else {
            None
        }
    }
}

/// Every code reads back from its integer, so no two codes share one; only
/// `Success` is not negative.
pub proof fn lemma_return_codes_round_trip(c: ReturnCodes)
    ensures
        code_of(return_code(c)) == Some(c),
        c != ReturnCodes::Success <==> return_code(c) < 0,
        return_code(c) >= -15,
{
}

/// Two codes with the same integer are the same code.
pub proof fn lemma_return_codes_distinct(a: ReturnCodes, b: ReturnCodes)
    requires
        return_code(a) == return_code(b),
    ensures
        a == b,
{
    lemma_return_codes_round_trip(a);
    lemma_return_codes_round_trip(b);
}

/// `a - b`, or `0` when `b > a`.
pub open spec fn room(size: int, ptr: int) -> int {
    if size >= ptr {
        size - ptr
    } else {
        0
    }
}

/// Checks that `len` bytes at `ptr` can be read from a memory of `data_size`
/// bytes: the read is refused with `BufferTooLarge` when it would run past
/// the end.
pub fn check_read(data_size: usize, ptr: u32, len: u32) -> (r: Result<(), ReturnCodes>)
    ensures
        r is Ok <==> len <= room(data_size as int, ptr as int),
        r matches Err(e) ==> e == ReturnCodes::BufferTooLarge,
{
    let capacity = data_size.saturating_sub(ptr as usize);
    if len as usize > capacity {
        Err(ReturnCodes::BufferTooLarge)
    } else {
        Ok(())
    }
}

/// Checks that `len` bytes can be written at `ptr` into a memory of
/// `data_size` bytes, and gives what the host returns once they are written:
/// the length, as an `i32`. The write is refused with `MemoryCapacity` when it
/// would run past the end.
pub fn check_write(data_size: usize, ptr: u32, len: usize) -> (r: Result<i32, ReturnCodes>)
    ensures
        r is Ok <==> len <= room(data_size as int, ptr as int),
        r matches Ok(n) ==> n == len as i32,
        r matches Err(e) ==> e == ReturnCodes::MemoryCapacity,
{
    let capacity = data_size.saturating_sub(ptr as usize);
    if capacity < len {
        Err(ReturnCodes::MemoryCapacity)
    } else {
        Ok(len as i32)
    }
}

/// Whether a panic message of `len` bytes fits in a memory of `pages` pages
/// of `page_size` bytes.
pub fn panic_fits(pages: u64, page_size: u64, len: u32) -> (r: bool)
    ensures
        r == (len <= pages * page_size),
{
    assert(pages * page_size <= 0xffff_ffff_ffff_ffff_ffff_ffff_ffff_ffff) by (nonlinear_arith)
        requires
            pages <= 0xffff_ffff_ffff_ffffu64,
            page_size <= 0xffff_ffff_ffff_ffffu64,
    ;
    let capacity: u128 = pages as u128 * page_size as u128;
    len as u128 <= capacity
}

/// The message of a controller's panic, from the bytes read from its memory:
/// the bytes as text when they were read and are valid UTF-8, otherwise
/// `undefined panic`.
pub fn panic_message(bytes: Option<Vec<u8>>) -> (s: String)
    ensures
        match bytes {
            Some(b) if vstd::utf8::valid_utf8(b@) => vstd::utf8::encode_utf8(s@) == b@,
            _ => s@ == "undefined panic"@,
        },
{
    match bytes {
        Some(b) => match str_from_utf8(b.as_slice()) {
            Ok(m) => m.to_owned(),
            Err(_) => String::from_str("undefined panic"),
        },
        None => String::from_str("undefined panic"),
    }
}

/// Reads a string argument: the bytes read from the controller's memory, or
/// `StringUtf8` when they are not valid UTF-8.
pub fn read_string(bytes: Vec<u8>) -> (r: Result<String, ReturnCodes>)
    ensures
        r is Ok <==> vstd::utf8::valid_utf8(bytes@),
        r matches Ok(s) ==> vstd::utf8::encode_utf8(s@) == bytes@,
        r matches Err(e) ==> e == ReturnCodes::StringUtf8,
{
    match str_from_utf8(bytes.as_slice()) {
        Ok(m) => Ok(m.to_owned()),
        Err(_) => Err(ReturnCodes::StringUtf8),
    }
}

} // verus!
