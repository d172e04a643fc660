//! The kinds of connection the proxy holds.
use vstd::prelude::*;

verus! {

/// Whether a connection carries plain HTTP or HTTP over TLS.
#[derive(PartialEq, Eq, Debug, Structural)]
pub enum ConnectionType {
    HTTP,
    HTTPS,
}

} // verus!
