//! The state that a controller reads and writes through its runtime: its raw
//! storage, its identifier and its log; and the checks on what the host hands
//! back into the controller's buffer.

use vstd::prelude::*;
use vstd::string::StringExecFns;

use crate::backend::copy_bytes;
use crate::hash::Hash32;
use crate::host::ReturnCodes;
use crate::http::{json_from_slice, json_of, json_parses};
use crate::merkle::smt::{zero, zero_hash};

verus! {

/// The length of the buffer that the host writes its answers into.
pub const BUF_LEN: usize = 16 * 1024 * 1024;

/// An error of a runtime call, with its message.
#[derive(Debug)]
pub struct AbiError {
    pub message: String,
}

/// The JSON text `null`.
pub open spec fn null_text() -> Seq<u8> {
    seq![110u8, 117u8, 108u8, 108u8]
}

/// Calls `serde_json::Value::default`, which is `Value::Null`: the value that
/// reading the text `null` gives.
#[verifier::external_body]
fn json_null() -> (v: serde_json::Value)
    ensures
        v == json_of(null_text()),
{
    serde_json::Value::default()
}

/// Calls the `Clone` of `serde_json::Value`, which copies the value.
#[verifier::external_body]
fn json_clone(v: &serde_json::Value) -> (r: serde_json::Value)
    ensures
        r == *v,
{
    v.clone()
}

/// The runtime state of a controller executed natively.
#[derive(Debug)]
pub struct Runtime {
    /// The arguments of the execution.
    pub args: serde_json::Value,
    /// The result of the computation.
    pub ret: serde_json::Value,
    /// The controller's raw storage.
    pub raw_storage: Vec<u8>,
    /// The controller's identifier.
    pub controller: Hash32,
    /// The execution log.
    pub log: Vec<String>,
}

impl Default for Runtime {
    fn default() -> (rt: Self)
        ensures
            rt.raw_storage@.len() == 0,
            rt.controller@ == zero_hash(),
            rt.log@.len() == 0,
            rt.args == json_of(null_text()),
            rt.ret == json_of(null_text()),
    {
        Runtime { args: json_null(), ret: json_null(), raw_storage: Vec::new(), controller: zero(), log: Vec::new() }
    }
}

/// The arguments of the execution.
pub fn args(rt: &Runtime) -> (r: Result<serde_json::Value, AbiError>)
    ensures
        r matches Ok(v) && v == rt.args,
{
    Ok(json_clone(&rt.args))
}

/// Records the result of the computation.
pub fn ret(rt: &mut Runtime, value: &serde_json::Value) -> (r: Result<(), AbiError>)
    ensures
        r is Ok,
        final(rt).ret == *value,
        final(rt).args == old(rt).args,
        final(rt).raw_storage == old(rt).raw_storage,
        final(rt).controller == old(rt).controller,
        final(rt).log == old(rt).log,
{
    rt.ret = json_clone(value);
    Ok(())
}

/// Sets the controller identifier and the raw storage of the runtime.
pub fn initialize_runtime(rt: &mut Runtime, controller: Hash32, raw_storage: Vec<u8>)
    ensures
        final(rt).controller == controller,
        final(rt).raw_storage == raw_storage,
        final(rt).log == old(rt).log,
        final(rt).args == old(rt).args,
        final(rt).ret == old(rt).ret,
{
    rt.raw_storage = raw_storage;
    rt.controller = controller;
}

/// Resets the controller identifier to zero and the raw storage to empty.
pub fn initialize_default_runtime(rt: &mut Runtime)
    ensures
        final(rt).controller@ == zero_hash(),
        final(rt).raw_storage@.len() == 0,
        final(rt).log == old(rt).log,
        final(rt).args == old(rt).args,
        final(rt).ret == old(rt).ret,
{
    initialize_runtime(rt, zero(), Vec::new())
}

/// The raw storage of the controller.
pub fn get_raw_storage(rt: &Runtime) -> (r: Result<Vec<u8>, AbiError>)
    ensures
        r matches Ok(v) && v@ == rt.raw_storage@,
{
    Ok(copy_bytes(rt.raw_storage.as_slice()))
}

/// Replaces the raw storage of the controller.
pub fn set_raw_storage(rt: &mut Runtime, raw_storage: &[u8]) -> (r: Result<(), AbiError>)
    ensures
        r is Ok,
        final(rt).raw_storage@ == raw_storage@,
        final(rt).controller == old(rt).controller,
        final(rt).log == old(rt).log,
        final(rt).args == old(rt).args,
        final(rt).ret == old(rt).ret,
{
    rt.raw_storage = copy_bytes(raw_storage);
    Ok(())
}

/// The controller identifier.
pub fn get_controller(rt: &Runtime) -> (r: Result<Hash32, AbiError>)
    ensures
        r == Ok::<Hash32, AbiError>(rt.controller),
{
    Ok(rt.controller)
}

/// Appends a line to the execution log.
pub fn __value_to_context_log(rt: &mut Runtime, log: &str) -> (r: Result<(), AbiError>)
    ensures
        r is Ok,
        final(rt).log@.len() == old(rt).log@.len() + 1,
        final(rt).log@.subrange(0, old(rt).log@.len() as int) == old(rt).log@,
        final(rt).log@.last()@ == log@,
        final(rt).raw_storage == old(rt).raw_storage,
        final(rt).controller == old(rt).controller,
        final(rt).args == old(rt).args,
        final(rt).ret == old(rt).ret,
{
    rt.log.push(log.to_owned());
    assert(rt.log@.subrange(0, old(rt).log@.len() as int) =~= old(rt).log@);
    Ok(())
}

/// An error with the given message.
fn abi_error(message: &str) -> (e: AbiError)
    ensures
        e.message@ == message@,
{
    AbiError { message: message.to_owned() }
}

/// What the host wrote into the buffer: its first `len` bytes, where `len` is
/// the host's answer; a negative answer is the host's failure, a length past
/// the buffer is refused.
fn host_bytes(len: i32, buf: &[u8], failed: &str, too_large: &str) -> (r: Result<Vec<u8>, AbiError>)
    requires
        buf@.len() == BUF_LEN,
    ensures
        len < 0 ==> (r matches Err(e) && e.message@ == failed@),
        len > BUF_LEN ==> (r matches Err(e) && e.message@ == too_large@),
        0 <= len <= BUF_LEN ==> (r matches Ok(v) && v@ == buf@.subrange(0, len as int)),
{
    if len < 0 {
        return Err(abi_error(failed));
    }
    if len as usize > BUF_LEN {
        return Err(abi_error(too_large));
    }
    Ok(copy_bytes(vstd::slice::slice_subrange(buf, 0, len as usize)))
}

/// A file of the controller's storage, from the host's answer `len` and the
/// buffer it wrote the file into.
pub fn get_storage_file(len: i32, buf: &[u8]) -> (r: Result<Vec<u8>, AbiError>)
    requires
        buf@.len() == BUF_LEN,
    ensures
        len < 0 ==> (r matches Err(e) && e.message@ == "failed to fetch controller storage file"@),
        len > BUF_LEN ==> (r matches Err(e) && e.message@ == "controller storage file too large"@),
        0 <= len <= BUF_LEN ==> (r matches Ok(v) && v@ == buf@.subrange(0, len as int)),
{
    host_bytes(len, buf, "failed to fetch controller storage file", "controller storage file too large")
}

/// The view of an optional byte string.
pub open spec fn opt_bytes_view(v: Option<Vec<u8>>) -> Option<Seq<u8>> {
    match v {
        Some(b) => Some(b@),
        None => None,
    }
}

/// What MessagePack decoding of an optional byte string yields from `buf`:
/// `None` when `buf` does not start with a valid encoding.
pub uninterp spec fn msgpack_optional_bytes(buf: Seq<u8>) -> Option<Option<Seq<u8>>>;

/// Calls `msgpacker::Unpackable::unpack` for `Option<Vec<u8>>`. Its result is
/// named by `msgpack_optional_bytes`; the source shows that a buffer starting
/// with the nil marker `0xc0` decodes to `None`. The error is turned into its
/// message.
#[verifier::external_body]
fn unpack_optional_bytes(buf: &[u8]) -> (r: Result<Option<Vec<u8>>, String>)
    ensures
        r is Ok <==> msgpack_optional_bytes(buf@) is Some,
        r matches Ok(v) ==> msgpack_optional_bytes(buf@) == Some(opt_bytes_view(v)),
        buf@.len() > 0 && buf@[0] == 0xc0 ==> r matches Ok(None),
{
    <Option<Vec<u8>> as msgpacker::Unpackable>::unpack(buf).map_err(|e| e.to_string())
}

/// The historical payload from the result of decoding the host's answer: a
/// decoding error is reported with its message.
pub fn historical_payload_from(unpacked: Result<Option<Vec<u8>>, String>) -> (r: Result<
    Option<Vec<u8>>,
    AbiError,
>)
    ensures
        unpacked is Ok ==> r == Ok::<Option<Vec<u8>>, AbiError>(unpacked->Ok_0),
        unpacked matches Err(m) ==> (r matches Err(e) && e.message@
            == "error unpacking historical payload: "@ + m@),
{
    match unpacked {
        Ok(v) => Ok(v),
        Err(m) => Err(
            AbiError {
                message: String::from_str("error unpacking historical payload: ").concat(m.as_str()),
            },
        ),
    }
}

/// The payload of a domain root on the historical tree, from the host's
/// answer `len` and the buffer it wrote the encoded payload into.
pub fn get_historical_payload(len: i32, buf: &[u8]) -> (r: Result<Option<Vec<u8>>, AbiError>)
    requires
        buf@.len() == BUF_LEN,
    ensures
        len < 0 ==> (r matches Err(e) && e.message@ == "failed to read historical payload"@),
        len > BUF_LEN ==> (r matches Err(e) && e.message@ == "arguments too large"@),
        0 <= len <= BUF_LEN ==> match msgpack_optional_bytes(buf@.subrange(0, len as int)) {
            Some(v) => r matches Ok(x) && opt_bytes_view(x) == v,
            None => r matches Err(e) && e.message@.len() >= 36 && e.message@.subrange(0, 36)
                == "error unpacking historical payload: "@,
        },
{
    let bytes = match host_bytes(len, buf, "failed to read historical payload", "arguments too large") {
        Ok(b) => b,
        Err(e) => return Err(e),
    };
    let r = historical_payload_from(unpack_optional_bytes(bytes.as_slice()));
    proof {
        reveal_strlit("error unpacking historical payload: ");
        if r is Err {
            assert(r->Err_0.message@.subrange(0, 36) =~= "error unpacking historical payload: "@);
        }
    }
    r
}

/// The JSON arguments a controller hands to a host function, read from the
/// bytes it wrote: bytes that are not JSON are refused with `JsonValue`.
pub fn host_read_json(bytes: &[u8]) -> (r: Result<serde_json::Value, ReturnCodes>)
    ensures
        json_parses(bytes@) ==> r == Ok::<serde_json::Value, ReturnCodes>(json_of(bytes@)),
        !json_parses(bytes@) ==> r == Err::<serde_json::Value, ReturnCodes>(ReturnCodes::JsonValue),
{
    match json_from_slice(bytes) {
        Ok(v) => Ok(v),
        Err(_) => Err(ReturnCodes::JsonValue),
    }
}

/// The host's `ret`: records the result that a controller wrote as JSON
/// bytes, or refuses bytes that are not JSON with `ReturnBytes` and keeps the
/// runtime as it was.
pub fn host_ret(rt: &mut Runtime, bytes: &[u8]) -> (code: ReturnCodes)
    ensures
        json_parses(bytes@) ==> code == ReturnCodes::Success && final(rt).ret == json_of(bytes@),
        !json_parses(bytes@) ==> code == ReturnCodes::ReturnBytes && final(rt).ret == old(rt).ret,
        final(rt).args == old(rt).args,
        final(rt).raw_storage == old(rt).raw_storage,
        final(rt).controller == old(rt).controller,
        final(rt).log == old(rt).log,
{
    match json_from_slice(bytes) {
        Ok(v) => {
            rt.ret = v;
            ReturnCodes::Success
        },
        Err(_) => ReturnCodes::ReturnBytes,
    }
}

} // verus!
