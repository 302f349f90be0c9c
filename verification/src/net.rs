//! Network-error model and reachability classification.

use vstd::prelude::*;
use crate::addr::{spec_is_unspecified, IpAddr};

verus! {

/// The kind of a failed socket operation, as far as the diagnosis tells
/// kinds apart (the kinds of `std::io::ErrorKind` that network calls report).
#[derive(Debug, Clone, Copy, PartialEq, Eq, Structural)]
pub enum IoErrorKind {
    ConnectionRefused,
    ConnectionReset,
    ConnectionAborted,
    NotConnected,
    AddrInUse,
    AddrNotAvailable,
    HostUnreachable,
    NetworkUnreachable,
    NetworkDown,
    PermissionDenied,
    TimedOut,
    Interrupted,
    Other,
}

/// A failed socket operation: its kind and its message text.
#[derive(Debug, Clone)]
pub struct IoError {
    pub kind: IoErrorKind,
    pub message: String,
}

/// A refused or reset connection proves that the host answered.
pub open spec fn spec_kind_is_reachable(kind: IoErrorKind) -> bool {
    kind == IoErrorKind::ConnectionRefused || kind == IoErrorKind::ConnectionReset
}

/// Whether a failed TCP connect still proves the host alive (it answered
/// with a reset): `ConnectionRefused` and `ConnectionReset` do; a timeout, an
/// unreachable network or host, and everything else do not.
pub fn kind_is_reachable(kind: IoErrorKind) -> (r: bool)
    ensures
        r == spec_kind_is_reachable(kind),
{
    match kind {
        IoErrorKind::ConnectionRefused | IoErrorKind::ConnectionReset => true,
        _ => false,
    }
}

/// The local address chosen for outgoing traffic, if usable: the address a
/// UDP socket got when connected toward a public address, unless none was
/// got or it is unspecified (no link).
pub fn local_ip(bound: Option<IpAddr>) -> (r: Option<IpAddr>)
    ensures
        r == (match bound {
            Some(a) => if spec_is_unspecified(a) {
                None
            } else {
                Some(a)
            },
            None => None,
        }),
{
    match bound {
        Some(a) => if a.is_unspecified() {
            None
        } else {
            Some(a)
        },
        None => None,
    }
}

} // verus!
