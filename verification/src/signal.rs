//! Cross-platform shutdown signal names: the kinds a controller can ask this
//! process to deliver, and their parsing.

use crate::bytetext::{bytes_eq, lower_bytes, to_lower_bytes};
use vstd::prelude::*;
use vstd::string::StringSliceAdditionalSpecFns;

verus! {

/// A signal kind that can be sent to a process: console control events on
/// Windows, standard signals elsewhere.
#[derive(Debug, Clone, Copy, PartialEq, Eq)]
pub enum SignalKind {
    /// Windows `CTRL_BREAK_EVENT`; `SIGTERM` elsewhere.
    CtrlBreak,
    /// Windows `CTRL_C_EVENT`; `SIGINT` elsewhere.
    CtrlC,
    /// `SIGTERM`; Windows `CTRL_BREAK_EVENT`.
    Term,
    /// `SIGINT`; Windows `CTRL_C_EVENT`.
    Int,
}

impl SignalKind {
    /// The kind named by `b`, compared case-insensitively.
    pub open spec fn spec_of_bytes(b: Seq<u8>) -> Option<SignalKind> {
        let low = lower_bytes(b);
        if low == "ctrl-break".spec_bytes() {
            Some(SignalKind::CtrlBreak)
        } else if low == "ctrl-c".spec_bytes() {
            Some(SignalKind::CtrlC)
        } else if low == "term".spec_bytes() {
            Some(SignalKind::Term)
        } else if low == "int".spec_bytes() {
            Some(SignalKind::Int)
        } else {
            None
        }
    }

    /// Parse a signal kind name, case-insensitively. Unknown names are
    /// rejected.
    pub fn from_str(s: &str) -> (r: Result<SignalKind, String>)
        ensures
            match r {
                Ok(k) => Self::spec_of_bytes(s.spec_bytes()) == Some(k),
                Err(_) => Self::spec_of_bytes(s.spec_bytes()) is None,
            },
    {
        let low = to_lower_bytes(s.as_bytes());
        if bytes_eq(low.as_slice(), "ctrl-break".as_bytes()) {
            Ok(SignalKind::CtrlBreak)
        } else if bytes_eq(low.as_slice(), "ctrl-c".as_bytes()) {
            Ok(SignalKind::CtrlC)
        } else if bytes_eq(low.as_slice(), "term".as_bytes()) {
            Ok(SignalKind::Term)
        } else if bytes_eq(low.as_slice(), "int".as_bytes()) {
            Ok(SignalKind::Int)
        } else {
            Err(String::from_str("unknown signal kind"))
        }
    }
}

} // verus!
