//! Socket policy: which IP families are bound, when binding counts as a
//! failure, and which family carries a send.
//!
//! The binding and sending themselves are platform work and live outside
//! the library; the decisions are made here.

use crate::IpClass;
use vstd::prelude::*;

verus! {

/// An IP family, used to tag socket errors.
#[derive(Clone, Copy, Debug, PartialEq, Eq, Structural)]
pub enum IP {
    Ipv4,
    Ipv6,
}

impl IP {
    /// The family's name, for error reports.
    pub fn name(&self) -> (r: String)
        ensures
            self is Ipv4 ==> r@ == "IPv4"@,
            self is Ipv6 ==> r@ == "IPv6"@,
    {
        match self {
            IP::Ipv4 => "IPv4".to_owned(),
            IP::Ipv6 => "IPv6".to_owned(),
        }
    }
}

/// The step of socket setup that failed, tagged with the family.
#[derive(Clone, Copy, Debug, PartialEq, Eq, Structural)]
pub enum SocketError {
    /// Creating the socket failed.
    NewSocket { domain: IP },
    /// Enabling address reuse failed.
    ReuseAddress { domain: IP },
    /// Enabling port reuse failed.
    ReusePort { domain: IP },
    /// Binding the mDNS port failed.
    Bind { domain: IP },
    /// Enabling multicast loopback failed.
    SetMulticastLoop { domain: IP },
    /// Joining the multicast group failed.
    JoinMulticast { domain: IP },
    /// Setting the multicast TTL failed.
    MulticastTtl { domain: IP },
    /// Switching to non-blocking mode failed.
    SetNonBlocking { domain: IP },
    /// Wrapping the bound socket for the runtime failed.
    UdpSocket { domain: IP },
    /// No requested family could be bound at all.
    CannotBind,
}

/// The family a message goes out on: a fixed one, or whichever is
/// preferred.
#[derive(Clone, Copy, Debug, PartialEq, Eq, Structural)]
pub enum Mode {
    V4,
    V6,
    Any,
}

/// Decides the outcome of socket setup from the per-family results.
///
/// `v4` and `v6` hold the error of the family's setup attempt, or `None`
/// where it succeeded.  In an explicit class every requested family must
/// succeed, the IPv4 failure reported first; in the automatic class one
/// surviving family is enough and only a total failure is `CannotBind`.
/// `Ok` carries which families the service keeps.
pub fn evaluate_bind(class: IpClass, v4: Option<SocketError>, v6: Option<SocketError>) -> (r:
    Result<(bool, bool), SocketError>)
    ensures
        class == IpClass::V4Only ==> r == (match v4 {
            None => Ok::<(bool, bool), SocketError>((true, false)),
            Some(e) => Err::<(bool, bool), SocketError>(e),
        }),
        class == IpClass::V6Only ==> r == (match v6 {
            None => Ok::<(bool, bool), SocketError>((false, true)),
            Some(e) => Err::<(bool, bool), SocketError>(e),
        }),
        class == IpClass::V4AndV6 ==> r == (match (v4, v6) {
            (None, None) => Ok::<(bool, bool), SocketError>((true, true)),
            (Some(e), _) => Err::<(bool, bool), SocketError>(e),
            (None, Some(e)) => Err::<(bool, bool), SocketError>(e),
        }),
        class == IpClass::Auto ==> r == (if v4 is None || v6 is None {
            Ok::<(bool, bool), SocketError>((v4 is None, v6 is None))
        } else {
            Err::<(bool, bool), SocketError>(SocketError::CannotBind)
        }),
{
    match class {
        IpClass::V4Only => match v4 {
            None => Ok((true, false)),
            Some(e) => Err(e),
        },
        IpClass::V6Only => match v6 {
            None => Ok((false, true)),
            Some(e) => Err(e),
        },
        IpClass::V4AndV6 => match (v4, v6) {
            (None, None) => Ok((true, true)),
            (Some(e), _) => Err(e),
            (None, Some(e)) => Err(e),
        },
        IpClass::Auto => {
            let keep_v4 = matches!(v4, None);
            let keep_v6 = matches!(v6, None);
            if keep_v4 || keep_v6 {
                Ok((keep_v4, keep_v6))
            } else {
                Err(SocketError::CannotBind)
            }
        },
    }
}

/// Picks the family a message goes out on.
///
/// A fixed mode uses its own family; `Any` prefers IPv4 and falls back to
/// IPv6.  A fixed mode presumes its socket exists: responses go out on the
/// family the query came in on.
pub fn choose_send_family(mode: Mode, have_v4: bool, have_v6: bool) -> (r: IP)
    requires
        mode == Mode::V4 ==> have_v4,
        mode == Mode::V6 ==> have_v6,
        mode == Mode::Any ==> have_v4 || have_v6,
    ensures
        mode == Mode::V4 ==> r == IP::Ipv4,
        mode == Mode::V6 ==> r == IP::Ipv6,
        mode == Mode::Any ==> r == (if have_v4 {
            IP::Ipv4
        } else {
            IP::Ipv6
        }),
{
    match mode {
        Mode::V4 => IP::Ipv4,
        Mode::V6 => IP::Ipv6,
        Mode::Any => if have_v4 {
            IP::Ipv4
        } else {
            IP::Ipv6
        },
    }
}

} // verus!
