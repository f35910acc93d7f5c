//! The co-processor service's settings and the modes of its zkVM.

use vstd::prelude::*;
use vstd::string::StringExecFns;

verus! {

/// The settings of the co-processor service.
#[derive(Debug, PartialEq, Eq)]
pub struct Config {
    /// Address of the Redis backend, when one is used.
    pub redis: Option<String>,
    /// Address the service listens on.
    pub socket: String,
    /// Capacity of the compiled-module cache.
    pub module_cache_capacity: usize,
    /// The zkVM mode (see `Mode`).
    pub zkvm_mode: String,
    /// Capacity of the proving-key cache.
    pub zkvm_cache_capacity: usize,
}

impl Default for Config {
    /// The settings written to a new configuration file.
    fn default() -> (c: Self)
        ensures
            c.redis is None,
            c.socket@ == "0.0.0.0:37281"@,
            c.module_cache_capacity == 100,
            c.zkvm_mode@ == "mock"@,
            c.zkvm_cache_capacity == 10,
    {
        Config {
            redis: None,
            socket: String::from_str("0.0.0.0:37281"),
            module_cache_capacity: 100,
            zkvm_mode: String::from_str("mock"),
            zkvm_cache_capacity: 10,
        }
    }
}

/// The acknowledgements that a pool and its workers exchange.
#[derive(Debug, Clone, Copy, PartialEq, Eq)]
pub enum Ack {
    /// A worker is asked to stop, or reports that it stopped.
    Kill,
}

/// The ways the SP1 zkVM can prove.
#[derive(Debug, Clone, Copy, PartialEq, Eq, PartialOrd, Ord)]
pub enum Mode {
    Mock,
    Cpu,
    Gpu,
    Network,
}

/// The names of the modes.
pub open spec fn is_mode_name(s: Seq<char>) -> bool {
    s == "mock"@ || s == "cpu"@ || s == "gpu"@ || s == "network"@
}

/// An unknown mode name.
#[derive(Debug)]
pub struct ModeError {
    pub message: String,
}

impl TryFrom<&str> for Mode {
    type Error = ModeError;

    /// Reads a mode name. Every known name selects the mock prover; an
    /// unknown name is an error.
    fn try_from(mode: &str) -> (r: Result<Mode, ModeError>)
        ensures
            r is Ok <==> is_mode_name(mode@),
            r matches Ok(m) ==> m == Mode::Mock,
            r matches Err(e) ==> e.message@ == "invalid SP1 zkVM mode: `"@ + mode@ + "`"@,
    {
        let m = String::from_str(mode);
        if m == String::from_str("mock") || m == String::from_str("cpu") || m == String::from_str(
            "gpu",
        ) || m == String::from_str("network") {
            Ok(Mode::Mock)
        } else {
            Err(
                ModeError {
                    message: String::from_str("invalid SP1 zkVM mode: `").concat(mode).concat("`"),
                },
            )
        }
    }
}

impl vstd::std_specs::convert::TryFromSpecImpl<&str> for Mode {
    /// The error of `try_from` carries a message that a spec cannot build, so
    /// its result is stated by the `ensures` of `try_from` alone.
    open spec fn obeys_try_from_spec() -> bool {
        false
    }

    open spec fn try_from_spec(mode: &str) -> Result<Mode, ModeError> {
        if is_mode_name(mode@) {
            Ok(Mode::Mock)
        } else {
            Err(ModeError { message: arbitrary() })
        }
    }
}

} // verus!
