//! Control messages from the public handle.
//!
//! The supervisor relays these to the sender, which owns the local
//! advertisement and applies them there.

use crate::addr::IpAddr;
use vstd::prelude::*;

verus! {

/// A change to the local advertisement.
pub enum Input {
    /// Stop advertising anything.
    RemoveAll,
    /// Drop every advertised pair with this port.
    RemovePort(u16),
    /// Drop every advertised pair with this address.
    RemoveAddr(IpAddr),
    /// Advertise these addresses under this port.
    AddAddr(u16, Vec<IpAddr>),
    /// Set one TXT attribute.
    SetTxt(Vec<u8>, Option<Vec<u8>>),
    /// Remove one TXT attribute.
    RemoveTxt(Vec<u8>),
}

} // verus!
