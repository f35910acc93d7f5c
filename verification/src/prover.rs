//! The messages between the co-processor and a remote prover, and what a
//! client does with each answer of the prover.

use vstd::prelude::*;
use vstd::string::{StringExecFns, StringSliceAdditionalSpecFns};

use crate::hash::Hash32;
use crate::scheduler::Client;

verus! {

/// A service that proves with the remote prover at one address.
pub struct ProverService {
    client: Client,
}

impl ProverService {
    /// The service of the prover at `addr`.
    pub fn new(addr: &str) -> (s: Self)
        ensures
            s.client().addr@ == addr@,
    {
        ProverService { client: Client::new(addr) }
    }

    /// The client of the prover.
    pub closed spec fn client(&self) -> Client {
        self.client
    }

    /// The client of the prover.
    pub fn get_client(&self) -> (c: &Client)
        ensures
            *c == self.client(),
    {
        &self.client
    }
}

/// The kind of proof to compute.
#[derive(Debug, Clone, Copy, PartialEq, Eq)]
pub enum ProofType {
    Compressed,
    Groth16,
}

impl Default for ProofType {
    fn default() -> (t: Self)
        ensures
            t == ProofType::Groth16,
    {
        ProofType::Groth16
    }
}

/// A circuit definition.
#[derive(Debug)]
pub enum Circuit {
    /// A cached circuit identifier.
    Identifier(Hash32),
    /// An ELF circuit definition.
    Elf {
        /// Custom identifier of the circuit.
        identifier: Hash32,
        /// ELF bytes (base64).
        bytes: String,
    },
}

impl From<Hash32> for Circuit {
    fn from(id: Hash32) -> (c: Self)
        ensures
            c == Circuit::Identifier(id),
    {
        Circuit::Identifier(id)
    }
}

impl vstd::std_specs::convert::FromSpecImpl<Hash32> for Circuit {
    open spec fn obeys_from_spec() -> bool {
        true
    }

    open spec fn from_spec(id: Hash32) -> Circuit {
        Circuit::Identifier(id)
    }
}

/// Jobs that a prover accepts.
#[derive(Debug)]
pub enum Request {
    /// An SP1 proof.
    Sp1Proof {
        /// Proving circuit
        circuit: Circuit,
        /// Circuit witnesses (base64)
        witnesses: String,
        /// Target proof type
        t: ProofType,
        /// Base64 encoded recursive proofs
        recursive: String,
    },
    /// The SP1 verifying key.
    Sp1GetVerifyingKey {
        /// Proving circuit
        circuit: Circuit,
    },
    /// Close the connection
    Close,
}

/// The answers of a prover.
#[derive(Debug)]
pub enum Response {
    /// Successfully executed a command without output.
    Ack,
    /// The circuit's proving key is not cached: the full circuit is needed.
    ProvingKeyNotCached,
    /// The proof (base64)
    Proof(String),
    /// The verifying key (base64)
    VerifyingKey(String),
    /// An error has occurred.
    Error(String),
}

/// Why a request to a prover failed.
#[derive(Debug)]
pub enum ClientError {
    /// The prover reported an error.
    Processing(String),
    /// The prover answered something else than the request calls for.
    Unexpected(Response),
}

impl ClientError {
    /// The message of a processing error; an unexpected answer is reported
    /// with its debug form instead.
    pub fn processing_message(msg: &str) -> (s: String)
        ensures
            s@ == "error processing request: "@ + msg@,
    {
        String::from_str("error processing request: ").concat(msg)
    }
}

/// What a client does after the first answer to a request.
#[derive(Debug)]
pub enum Exchange {
    /// The request is answered with this payload (base64).
    Done(String),
    /// The prover needs the full circuit: send the request again with it.
    SendCircuit,
    /// The request failed.
    Failed(ClientError),
}

/// The step after the first answer to a proof request: a proof ends the
/// exchange, a missing proving key calls for the full circuit, anything
/// else fails.
pub fn proof_first_answer(res: Response) -> (e: Exchange)
    ensures
        match res {
            Response::Proof(p) => e == Exchange::Done(p),
            Response::ProvingKeyNotCached => e == Exchange::SendCircuit,
            Response::Error(m) => e == Exchange::Failed(ClientError::Processing(m)),
            _ => e == Exchange::Failed(ClientError::Unexpected(res)),
        },
{
    match res {
        Response::Proof(p) => Exchange::Done(p),
        Response::ProvingKeyNotCached => Exchange::SendCircuit,
        Response::Error(m) => Exchange::Failed(ClientError::Processing(m)),
        other => Exchange::Failed(ClientError::Unexpected(other)),
    }
}

/// The outcome of the answer to a proof request that carried the full
/// circuit: only a proof succeeds.
pub fn proof_second_answer(res: Response) -> (r: Result<String, ClientError>)
    ensures
        match res {
            Response::Proof(p) => r == Ok::<String, ClientError>(p),
            Response::Error(m) => r == Err::<String, ClientError>(ClientError::Processing(m)),
            _ => r == Err::<String, ClientError>(ClientError::Unexpected(res)),
        },
{
    match res {
        Response::Proof(p) => Ok(p),
        Response::Error(m) => Err(ClientError::Processing(m)),
        other => Err(ClientError::Unexpected(other)),
    }
}

/// The step after the first answer to a verifying-key request: a key ends
/// the exchange, a missing proving key calls for the full circuit, anything
/// else fails.
pub fn vk_first_answer(res: Response) -> (e: Exchange)
    ensures
        match res {
            Response::VerifyingKey(k) => e == Exchange::Done(k),
            Response::ProvingKeyNotCached => e == Exchange::SendCircuit,
            Response::Error(m) => e == Exchange::Failed(ClientError::Processing(m)),
            _ => e == Exchange::Failed(ClientError::Unexpected(res)),
        },
{
    match res {
        Response::VerifyingKey(k) => Exchange::Done(k),
        Response::ProvingKeyNotCached => Exchange::SendCircuit,
        Response::Error(m) => Exchange::Failed(ClientError::Processing(m)),
        other => Exchange::Failed(ClientError::Unexpected(other)),
    }
}

/// The outcome of the answer to a verifying-key request that carried the
/// full circuit: only a key succeeds.
pub fn vk_second_answer(res: Response) -> (r: Result<String, ClientError>)
    ensures
        match res {
            Response::VerifyingKey(k) => r == Ok::<String, ClientError>(k),
            Response::Error(m) => r == Err::<String, ClientError>(ClientError::Processing(m)),
            _ => r == Err::<String, ClientError>(ClientError::Unexpected(res)),
        },
{
    match res {
        Response::VerifyingKey(k) => Ok(k),
        Response::Error(m) => Err(ClientError::Processing(m)),
        other => Err(ClientError::Unexpected(other)),
    }
}

/// The character of a six-bit value in the standard base64 alphabet.
pub open spec fn base64_char(v: int) -> char {
    if v < 26 {
        (65 + v) as char
    } else if v < 52 {
        (97 + v - 26) as char
    } else if v < 62 {
        (48 + v - 52) as char
    } else if v == 62 {
        '+'
    } else {
        '/'
    }
}

/// The standard base64 text of some bytes, with padding: each group of three
/// bytes gives four characters of six bits each, and a last group of one or
/// two bytes is padded with `=`.
pub open spec fn base64_text(bytes: Seq<u8>) -> Seq<char>
    decreases bytes.len(),
{
    let b0 = bytes[0] as int;
    let b1 = bytes[1] as int;
    let b2 = bytes[2] as int;
    if bytes.len() == 0 {
        Seq::empty()
    } else if bytes.len() == 1 {
        seq![base64_char(b0 / 4), base64_char((b0 % 4) * 16), '=', '=']
    } else if bytes.len() == 2 {
        seq![base64_char(b0 / 4), base64_char((b0 % 4) * 16 + b1 / 16), base64_char((b1 % 16) * 4), '=']
    } else {
        seq![
            base64_char(b0 / 4),
            base64_char((b0 % 4) * 16 + b1 / 16),
            base64_char((b1 % 16) * 4 + b2 / 64),
            base64_char(b2 % 64),
        ] + base64_text(bytes.subrange(3, bytes.len() as int))
    }
}

/// Whether the base64 text of `n` bytes has a length that fits in `usize`.
pub open spec fn base64_fits(n: nat) -> bool {
    n / 3 * 4 + 4 <= usize::MAX
}

/// Calls `Engine::encode` of the `base64` crate's standard engine (padded,
/// standard alphabet): the text is `base64_text` of the bytes, as RFC 4648
/// defines it. Its source panics only when the length of the text overflows
/// `usize`, which `requires` leaves out.
#[verifier::external_body]
fn base64_encode(bytes: &[u8]) -> (r: String)
    requires
        base64_fits(bytes@.len()),
    ensures
        r@ == base64_text(bytes@),
{
    base64::Engine::encode(&base64::engine::general_purpose::STANDARD, bytes)
}

/// The first request for a proof: the circuit by its identifier, and the
/// witnesses in base64.
pub fn proof_request(circuit: Hash32, witnesses: &[u8], t: ProofType, recursive: String) -> (r: Request)
    requires
        base64_fits(witnesses@.len()),
    ensures
        r matches Request::Sp1Proof { circuit: c, witnesses: w, t: t2, recursive: rec } && c
            == Circuit::Identifier(circuit) && w@ == base64_text(witnesses@) && t2 == t && rec
            == recursive,
{
    Request::Sp1Proof { circuit: Circuit::Identifier(circuit), witnesses: base64_encode(witnesses), t, recursive }
}

/// The request for a proof that follows a missing proving key: the same
/// witnesses, with the circuit's identifier and its ELF in base64.
pub fn elf_proof_request(circuit: Hash32, elf: &[u8], witnesses: &[u8], t: ProofType, recursive: String) -> (r: Request)
    requires
        base64_fits(elf@.len()),
        base64_fits(witnesses@.len()),
    ensures
        r matches Request::Sp1Proof { circuit: Circuit::Elf { identifier, bytes }, witnesses: w, t: t2, recursive: rec }
            && identifier == circuit && bytes@ == base64_text(elf@) && w@ == base64_text(witnesses@)
            && t2 == t && rec == recursive,
{
    let bytes = base64_encode(elf);
    Request::Sp1Proof {
        circuit: Circuit::Elf { identifier: circuit, bytes },
        witnesses: base64_encode(witnesses),
        t,
        recursive,
    }
}

/// The first request for a verifying key: the circuit by its identifier.
pub fn verifying_key_request(circuit: Hash32) -> (r: Request)
    ensures
        r == (Request::Sp1GetVerifyingKey { circuit: Circuit::Identifier(circuit) }),
{
    Request::Sp1GetVerifyingKey { circuit: Circuit::Identifier(circuit) }
}

/// The request for a verifying key that follows a missing proving key: the
/// circuit's identifier and its ELF in base64.
pub fn elf_verifying_key_request(circuit: Hash32, elf: &[u8]) -> (r: Request)
    requires
        base64_fits(elf@.len()),
    ensures
        r matches Request::Sp1GetVerifyingKey { circuit: Circuit::Elf { identifier, bytes } }
            && identifier == circuit && bytes@ == base64_text(elf@),
{
    let bytes = base64_encode(elf);
    Request::Sp1GetVerifyingKey { circuit: Circuit::Elf { identifier: circuit, bytes } }
}

/// The error type of base64 decoding.
#[verifier::external_type_specification]
#[verifier::external_body]
pub struct ExBase64DecodeError(base64::DecodeError);

/// Whether the `base64` crate's standard engine reads some text as base64.
pub uninterp spec fn base64_decodes(text: Seq<u8>) -> bool;

/// The bytes that the `base64` crate's standard engine reads from some text.
pub uninterp spec fn base64_bytes(text: Seq<u8>) -> Seq<u8>;

/// Calls `Engine::decode` of the `base64` crate's standard engine: whether it
/// succeeds, and the bytes it gives, are functions of the text alone.
#[verifier::external_body]
pub(crate) fn base64_decode(text: &str) -> (r: Result<Vec<u8>, base64::DecodeError>)
    ensures
        r is Ok <==> base64_decodes(text.spec_bytes()),
        r matches Ok(v) ==> v@ == base64_bytes(text.spec_bytes()),
{
    base64::Engine::decode(&base64::engine::general_purpose::STANDARD, text)
}

/// Calls the `Display` of a base64 decoding error; nothing is stated of the
/// text.
#[verifier::external_body]
pub(crate) fn base64_error_text(e: &base64::DecodeError) -> String {
    format!("{}", e)
}

/// The work a worker does for a request.
#[derive(Debug)]
pub enum WorkerJob {
    /// Prove over the witnesses (base64).
    Prove { witnesses: String },
    /// Give the verifying key.
    VerifyingKey,
}

/// What a worker does with a request.
#[derive(Debug)]
pub enum WorkerAction {
    /// Answer right away.
    Reply(Response),
    /// Find the proving key of the circuit (in the cache for an identifier,
    /// by setting up the ELF for an ELF circuit), then do the job.
    LoadKey { circuit: Circuit, job: WorkerJob },
}

/// The action of a worker for a request: closing is acknowledged, every
/// other request needs the proving key of its circuit.
pub fn worker_action(req: Request) -> (a: WorkerAction)
    ensures
        match req {
            Request::Close => a == WorkerAction::Reply(Response::Ack),
            Request::Sp1Proof { circuit, witnesses, .. } => a == (WorkerAction::LoadKey {
                circuit,
                job: WorkerJob::Prove { witnesses },
            }),
            Request::Sp1GetVerifyingKey { circuit } => a == (WorkerAction::LoadKey {
                circuit,
                job: WorkerJob::VerifyingKey,
            }),
        },
{
    match req {
        Request::Close => WorkerAction::Reply(Response::Ack),
        Request::Sp1Proof { circuit, witnesses, .. } => WorkerAction::LoadKey {
            circuit,
            job: WorkerJob::Prove { witnesses },
        },
        Request::Sp1GetVerifyingKey { circuit } => WorkerAction::LoadKey { circuit, job: WorkerJob::VerifyingKey },
    }
}

/// The ELF of an ELF circuit, when its text is base64; without it the
/// circuit has no proving key.
pub fn elf_bytes(bytes: &str) -> (r: Option<Vec<u8>>)
    ensures
        r is Some <==> base64_decodes(bytes.spec_bytes()),
        r matches Some(v) ==> v@ == base64_bytes(bytes.spec_bytes()),
{
    match base64_decode(bytes) {
        Ok(v) => Some(v),
        Err(_) => None,
    }
}

/// The step of a proof job once the proving key was looked for.
#[derive(Debug)]
pub enum ProofStep {
    /// Answer right away.
    Reply(Response),
    /// Prove over these witnesses.
    Prove(Vec<u8>),
}

/// Whether a text starts with a prefix.
pub open spec fn has_prefix(s: Seq<char>, p: Seq<char>) -> bool {
    s.len() >= p.len() && s.subrange(0, p.len() as int) == p
}

/// The step of a proof job: without a proving key there is no proof,
/// witnesses that are not base64 are refused, else the worker proves over
/// the decoded witnesses.
pub fn proof_job_step(key_found: bool, witnesses: &str) -> (s: ProofStep)
    ensures
        !key_found ==> s == ProofStep::Reply(Response::ProvingKeyNotCached),
        key_found && !base64_decodes(witnesses.spec_bytes()) ==> (s matches ProofStep::Reply(
            Response::Error(m),
        ) && has_prefix(m@, "error decoding the witnesses: "@)),
        key_found && base64_decodes(witnesses.spec_bytes()) ==> (s matches ProofStep::Prove(v) && v@
            == base64_bytes(witnesses.spec_bytes())),
{
    if !key_found {
        return ProofStep::Reply(Response::ProvingKeyNotCached);
    }
    match base64_decode(witnesses) {
        Ok(v) => ProofStep::Prove(v),
        Err(e) => {
            let m = String::from_str("error decoding the witnesses: ").concat(base64_error_text(&e).as_str());
            proof {
                let p = "error decoding the witnesses: "@;
                assert(m@.subrange(0, p.len() as int) =~= p);
            }
            ProofStep::Reply(Response::Error(m))
        },
    }
}

/// The answer to a proof job: the proof (base64) when it was computed and
/// passed its check, else the error of the step that failed.
pub fn proof_outcome(proved: Result<Vec<u8>, String>, check: Result<(), String>) -> (r: Response)
    requires
        proved matches Ok(b) ==> base64_fits(b@.len()),
    ensures
        match proved {
            Err(e) => r matches Response::Error(m) && m@ == "failed computing gpu proof: "@ + e@,
            Ok(b) => match check {
                Err(e) => r matches Response::Error(m) && m@ == "Proof sanity check failed: "@ + e@,
                Ok(_) => r matches Response::Proof(p) && p@ == base64_text(b@),
            },
        },
{
    match proved {
        Err(e) => Response::Error(String::from_str("failed computing gpu proof: ").concat(e.as_str())),
        Ok(b) => match check {
            Err(e) => Response::Error(String::from_str("Proof sanity check failed: ").concat(e.as_str())),
            Ok(_) => Response::Proof(base64_encode(b.as_slice())),
        },
    }
}

/// The answer to a verifying-key job: the key (base64) when the proving key
/// was found, else a missing proving key.
pub fn verifying_key_outcome(vk: Option<Vec<u8>>) -> (r: Response)
    requires
        vk matches Some(b) ==> base64_fits(b@.len()),
    ensures
        match vk {
            None => r == Response::ProvingKeyNotCached,
            Some(b) => r matches Response::VerifyingKey(k) && k@ == base64_text(b@),
        },
{
    match vk {
        None => Response::ProvingKeyNotCached,
        Some(b) => Response::VerifyingKey(base64_encode(b.as_slice())),
    }
}

} // verus!
