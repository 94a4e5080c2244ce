//! Peer-swarm discovery for local-area networks.
//!
//! A node announces its identity, listening ports, IP addresses and a small
//! set of key/value attributes over link-local multicast DNS, and learns the
//! same information for every other node that speaks the same protocol on the
//! same link.  The modules here hold the verified core: the data model, the
//! mDNS message model with its construction and classification, the
//! query/response rate-limiting state machine and the peer book with expiry.
//! Socket and task plumbing lives outside the library.

use vstd::prelude::*;

pub mod addr;
pub mod advert;
pub mod fidelity;
pub mod guardian;
pub mod message;
pub mod name;
pub mod receiver;
pub mod sender;
pub mod socket;
pub mod timing;
pub mod updater;
pub mod txt;

verus! {

/// A peer as observed on the link: its addresses, when it was last seen,
/// and its TXT attributes.
///
/// An expired peer is delivered once as a tombstone: the same identity with
/// an empty address set.
pub struct Peer {
    /// Observed `(address, port)` pairs, strictly increasing.
    pub addrs: Vec<(addr::IpAddr, u16)>,
    /// When this snapshot was taken, in nanoseconds of the caller's
    /// monotonic clock.
    pub last_seen: u64,
    /// The peer's TXT attributes.
    pub txt: txt::TxtMap,
}

impl Peer {
    /// Well-formed: ordered unique pairs and unique attribute keys.
    pub open spec fn wf(self) -> bool {
        addr::strictly_sorted(self.addrs@) && self.txt.wf()
    }

    /// A peer with no addresses or attributes, seen now.
    pub fn new(now: u64) -> (r: Self)
        ensures
            r.wf(),
            r.addrs@.len() == 0,
            r.last_seen == now,
            r.txt.pairs_view().len() == 0,
    {
        Peer { addrs: Vec::new(), last_seen: now, txt: txt::TxtMap::new() }
    }

    /// Known addresses of this peer; empty once the peer has expired.
    pub fn addrs(&self) -> (r: &Vec<(addr::IpAddr, u16)>)
        ensures
            r@ == self.addrs@,
    {
        &self.addrs
    }

    /// Returns `true` if this peer has expired.
    pub fn is_expiry(&self) -> (r: bool)
        ensures
            r == (self.addrs@.len() == 0),
    {
        self.addrs.len() == 0
    }

    /// The age of this snapshot against the given reading of the same
    /// clock; a reading older than the snapshot counts as age zero.
    pub fn age(&self, now: u64) -> (r: u64)
        ensures
            r == if now >= self.last_seen {
                now - self.last_seen
            } else {
                0
            },
    {
        if now >= self.last_seen {
            now - self.last_seen
        } else {
            0
        }
    }

    /// A copy of the TXT attributes as key/value pairs.
    pub fn txt_attributes(&self) -> (r: Vec<(Vec<u8>, Option<Vec<u8>>)>)
        ensures
            r@.len() == self.txt.pairs_view().len(),
            forall|i: int|
                0 <= i < r@.len() ==> r@[i].0@ == self.txt.pairs_view()[i].0@ && txt::opt_bytes_view(
                    #[trigger] r@[i].1,
                ) == txt::opt_bytes_view(self.txt.pairs_view()[i].1),
    {
        self.txt.duplicate().pairs
    }

    /// The value of one TXT attribute: `None` when the attribute is
    /// missing, `Some(None)` for a value-less flag, `Some(Some(v))`
    /// otherwise.
    pub fn txt_attribute(&self, name: &Vec<u8>) -> (r: Option<Option<Vec<u8>>>)
        ensures
            match r {
                None => self.txt.spec_get(name@) is None,
                Some(v) => self.txt.spec_get(name@) == Some(txt::opt_bytes_view(v)),
            },
    {
        self.txt.get(name)
    }

    /// A copy of the whole snapshot.
    pub fn duplicate(&self) -> (r: Self)
        ensures
            r.addrs@ == self.addrs@,
            r.last_seen == self.last_seen,
            r.txt.pairs_view().len() == self.txt.pairs_view().len(),
            forall|k: Seq<u8>| #[trigger] r.txt.spec_get(k) == self.txt.spec_get(k),
            self.wf() ==> r.wf(),
    {
        let mut addrs: Vec<(addr::IpAddr, u16)> = Vec::new();
        let mut i: usize = 0;
        while i < self.addrs.len()
            invariant
                i <= self.addrs@.len(),
                addrs@ == self.addrs@.take(i as int),
            decreases self.addrs@.len() - i,
        {
            addrs.push(self.addrs[i]);
            proof {
                assert(self.addrs@.take(i as int).push(self.addrs@[i as int]) =~= self.addrs@.take(
                    i + 1,
                ));
            }
            i += 1;
        }
        proof {
            assert(self.addrs@.take(self.addrs@.len() as int) =~= self.addrs@);
        }
        Peer { addrs, last_seen: self.last_seen, txt: self.txt.duplicate() }
    }
}

/// Selects which protocol suffix to use for the service name.
///
/// This is purely a label in the advertised service name; discovery itself
/// always runs over UDP-based multicast DNS.
#[derive(Clone, Copy, Debug, PartialEq, Eq, Structural)]
pub enum Protocol {
    Udp,
    Tcp,
}

impl Protocol {
    /// The DNS label this suffix contributes to the service name.
    pub fn label(self) -> (r: Vec<u8>)
        ensures
            r@ == self.label_spec(),
    {
        let mut v: Vec<u8> = Vec::new();
        v.push(0x5f);  // '_'
        match self {
            Protocol::Udp => {
                v.push(0x75);  // 'u'
                v.push(0x64);  // 'd'
                v.push(0x70);  // 'p'
            },
            Protocol::Tcp => {
                v.push(0x74);  // 't'
                v.push(0x63);  // 'c'
                v.push(0x70);  // 'p'
            },
        }
        proof {
            assert(v@ =~= self.label_spec());
        }
        v
    }

    /// The suffix label as a byte sequence: `_udp` or `_tcp`.
    pub open spec fn label_spec(self) -> Seq<u8> {
        match self {
            Protocol::Udp => seq![0x5fu8, 0x75u8, 0x64u8, 0x70u8],
            Protocol::Tcp => seq![0x5fu8, 0x74u8, 0x63u8, 0x70u8],
        }
    }
}

impl Default for Protocol {
    fn default() -> (r: Self)
        ensures
            r == Protocol::Udp,
    {
        Protocol::Udp
    }
}

/// Errors that can occur when starting the discovery service.
#[derive(Debug)]
pub enum SpawnError {
    /// No requested socket could be set up.
    Sockets(socket::SocketError),
    /// The service name cannot form a legal DNS label.
    ServiceName { name: Vec<u8>, protocol: Protocol },
    /// The peer identity cannot form a legal DNS label.
    NameFromPeerId { peer_id: Vec<u8> },
    /// The instance name under the service name would exceed a legal DNS
    /// name.
    AppendServiceName { service_name: Vec<u8> },
}

/// The build-time configuration of a discovery service.
///
/// The builder accumulates the service name, this peer's identity and
/// advertisement, and the protocol timing, and is consumed when the
/// service starts.
pub struct Discoverer {
    /// The mDNS service name, without the `_` prefix.
    pub name: Vec<u8>,
    /// The protocol suffix of the service name.
    pub protocol: Protocol,
    /// This peer's identity.
    pub peer_id: Vec<u8>,
    /// What this peer advertises.
    pub advert: advert::LocalAdvertisement,
    /// The cadence τ in nanoseconds: the nominal period between this
    /// node's own queries.
    pub tau_ns: u64,
    /// The response rate φ in millihertz.
    pub phi_mhz: u32,
    /// Which IP families to bind.
    pub class: IpClass,
}

impl Discoverer {
    /// Well-formed: positive timing and a well-formed advertisement.
    pub open spec fn wf(self) -> bool {
        self.tau_ns >= 1 && self.phi_mhz >= 1 && self.advert.wf()
    }

    /// A builder with the default timing: τ = 10 s, φ = 1 Hz.
    pub fn new(name: Vec<u8>, peer_id: Vec<u8>) -> (r: Self)
        ensures
            r.wf(),
            r.name@ == name@,
            r.peer_id@ == peer_id@,
            r.protocol == Protocol::Udp,
            r.tau_ns == 10_000_000_000u64,
            r.phi_mhz == 1000u32,
            r.class == IpClass::Auto,
            !r.advert.present,
    {
        Discoverer {
            name,
            protocol: Protocol::Udp,
            peer_id,
            advert: advert::LocalAdvertisement::new(),
            tau_ns: 10_000_000_000,
            phi_mhz: 1000,
            class: IpClass::Auto,
        }
    }

    /// A builder with the cadence and response rate recommended for human
    /// interactive applications: τ = 0.7 s, φ = 2.5 Hz.
    pub fn new_interactive(name: Vec<u8>, peer_id: Vec<u8>) -> (r: Self)
        ensures
            r.wf(),
            r.name@ == name@,
            r.peer_id@ == peer_id@,
            r.protocol == Protocol::Udp,
            r.tau_ns == 700_000_000u64,
            r.phi_mhz == 2500u32,
            r.class == IpClass::Auto,
            !r.advert.present,
    {
        Self::new(name, peer_id).with_cadence(700_000_000).with_response_rate(2500)
    }

    /// Sets the protocol suffix of the service name.
    pub fn with_protocol(self, protocol: Protocol) -> (r: Self)
        ensures
            r == (Discoverer { protocol, ..self }),
    {
        Discoverer { protocol, ..self }
    }

    /// Registers addresses under a port, with additive effect.  Without
    /// any registered address the node only discovers others.
    pub fn with_addrs(self, port: u16, addrs: Vec<addr::IpAddr>) -> (r: Self)
        requires
            self.wf(),
        ensures
            r.wf(),
            r.advert.present,
            r.advert.addrs@.to_set() == self.advert.addrs@.to_set().union(
                addrs@.map_values(|a: addr::IpAddr| (a, port)).to_set(),
            ),
            r.advert.txt == self.advert.txt,
            r.name@ == self.name@ && r.peer_id@ == self.peer_id@ && r.protocol == self.protocol
                && r.tau_ns == self.tau_ns && r.phi_mhz == self.phi_mhz && r.class == self.class,
    {
        let mut d = self;
        d.advert.add(port, &addrs);
        d
    }

    /// Sets TXT attributes, validating each pair; the first invalid pair
    /// is reported and nothing further is applied.
    pub fn with_txt_attributes(self, attributes: Vec<(Vec<u8>, Option<Vec<u8>>)>) -> (r: Result<
        Self,
        TxtAttributeError,
    >)
        requires
            self.wf(),
        ensures
            r matches Ok(d) ==> d.wf() && d.name@ == self.name@ && d.peer_id@ == self.peer_id@
                && d.tau_ns == self.tau_ns && d.phi_mhz == self.phi_mhz && d.protocol
                == self.protocol && d.class == self.class && d.advert.addrs@ == self.advert.addrs@
                && d.advert.txt.view_of() == txt::vinsert_pairs(
                self.advert.txt.view_of(),
                attributes@,
            ) && (attributes@.len() > 0 ==> d.advert.present),
            r is Err ==> exists|i: int|
                0 <= i < attributes@.len() && !(#[trigger] attributes@[i].0@.len() > 0
                    && txt_pair_len(attributes@[i].0@, txt::opt_bytes_view(attributes@[i].1))
                    <= TXT_PAIR_MAX),
    {
        let mut d = self;
        let mut rest = attributes;
        let ghost all = rest@;
        let ghost mut done: int = 0;
        proof {
            assert(rest@ =~= all.subrange(0, all.len() as int));
        }
        while rest.len() > 0
            invariant
                d.wf(),
                0 <= done <= all.len(),
                rest@ == all.subrange(done, all.len() as int),
                all == attributes@,
                d.name@ == self.name@ && d.peer_id@ == self.peer_id@ && d.tau_ns == self.tau_ns
                    && d.phi_mhz == self.phi_mhz && d.protocol == self.protocol && d.class
                    == self.class && d.advert.addrs@ == self.advert.addrs@,
                done > 0 ==> d.advert.present,
                txt::vinsert_pairs(d.advert.txt.view_of(), all.subrange(done, all.len() as int))
                    == txt::vinsert_pairs(self.advert.txt.view_of(), all),
            decreases rest@.len(),
        {
            let (key, value) = rest.remove(0);
            proof {
                assert((key, value) == all[done]);
                assert(all.subrange(done, all.len() as int).remove(0) =~= all.subrange(
                    done + 1,
                    all.len() as int,
                ));
                let r0 = all.subrange(done, all.len() as int);
                assert(r0[0] == all[done]);
                assert(r0.drop_first() =~= all.subrange(done + 1, all.len() as int));
            }
            let valid = match &value {
                Some(v) => validate_txt_attribute(key.as_slice(), Some(v.as_slice())),
                None => validate_txt_attribute(key.as_slice(), None),
            };
            match valid {
                Ok(()) => {
                    d.advert.set_txt(key, value);
                },
                Err(e) => {
                    proof {
                        assert(attributes@ == all);
                        assert(!(attributes@[done].0@.len() > 0 && txt_pair_len(
                            attributes@[done].0@,
                            txt::opt_bytes_view(attributes@[done].1),
                        ) <= TXT_PAIR_MAX));
                    }
                    return Err(e);
                },
            }
            proof {
                done = done + 1;
            }
        }
        proof {
            assert(all.subrange(all.len() as int, all.len() as int) =~= Seq::<(
                Vec<u8>,
                Option<Vec<u8>>,
            )>::empty());
        }
        Ok(d)
    }

    /// Sets the discovery time target τ.
    pub fn with_cadence(self, tau_ns: u64) -> (r: Self)
        requires
            tau_ns >= 1,
        ensures
            r == (Discoverer { tau_ns, ..self }),
    {
        Discoverer { tau_ns, ..self }
    }

    /// Sets the response frequency target φ, in millihertz.
    pub fn with_response_rate(self, phi_mhz: u32) -> (r: Self)
        requires
            phi_mhz >= 1,
        ensures
            r == (Discoverer { phi_mhz, ..self }),
    {
        Discoverer { phi_mhz, ..self }
    }

    /// Sets which IP families to bind.
    pub fn with_ip_class(self, class: IpClass) -> (r: Self)
        ensures
            r == (Discoverer { class, ..self }),
    {
        Discoverer { class, ..self }
    }

    /// Validates the configured names, as the service start does: the
    /// service name and the peer identity must each form a legal DNS
    /// label.  On success the full service name is handed back.
    pub fn validate_names(&self) -> (r: Result<name::DnsName, SpawnError>)
        ensures
            (r is Ok) == (name::is_valid_service(self.name@) && name::is_valid_peer_id(
                self.peer_id@,
            )),
            r matches Ok(n) ==> n.wf() && n.view_of() == seq![
                seq![0x5fu8] + self.name@,
                self.protocol.label_spec(),
                name::local_label(),
            ] && name::labels_wire_len(n.view_of()) + 2 + self.peer_id@.len() <= 255,
            r matches Err(e) ==> (e matches SpawnError::ServiceName { name, protocol } ==> name@
                == self.name@ && protocol == self.protocol && !name::is_valid_service(self.name@)),
            r matches Err(e) ==> (e matches SpawnError::NameFromPeerId { peer_id } ==> peer_id@
                == self.peer_id@ && !name::is_valid_peer_id(self.peer_id@)),
            r matches Err(e) ==> (e is ServiceName || e is NameFromPeerId),
    {
        if !name::check_service(&self.name) {
            let n = self.name.clone();
            proof {
                assert(n@ =~= self.name@);
            }
            return Err(SpawnError::ServiceName { name: n, protocol: self.protocol });
        }
        if !name::check_peer_id(&self.peer_id) {
            let p = self.peer_id.clone();
            proof {
                assert(p@ =~= self.peer_id@);
            }
            return Err(SpawnError::NameFromPeerId { peer_id: p });
        }
        let service = name::make_service_name(&self.name, self.protocol);
        Ok(service)
    }
}

/// Errors that can occur when validating a TXT attribute.
#[derive(Clone, Copy, Debug, PartialEq, Eq, Structural)]
pub enum TxtAttributeError {
    /// The key is the empty string.
    EmptyKey,
    /// Key and value together exceed 254 bytes.
    TooLong,
}

/// Longest allowed combined byte length of a TXT attribute key and value.
pub const TXT_PAIR_MAX: usize = 254;

/// Combined byte length of a TXT attribute key and its optional value.
pub open spec fn txt_pair_len(key: Seq<u8>, value: Option<Seq<u8>>) -> int {
    key.len() + match value {
        Some(v) => v.len() as int,
        None => 0,
    }
}

/// Checks that a TXT attribute has a non-empty key and that key and value
/// together stay within [`TXT_PAIR_MAX`] bytes.
pub fn validate_txt_attribute(key: &[u8], value: Option<&[u8]>) -> (r: Result<
    (),
    TxtAttributeError,
>)
    ensures
        r == Ok::<(), TxtAttributeError>(()) <==> (key@.len() > 0 && txt_pair_len(
            key@,
            match value {
                Some(v) => Some(v@),
                None => None,
            },
        ) <= TXT_PAIR_MAX),
        r == Err::<(), TxtAttributeError>(TxtAttributeError::EmptyKey) <==> key@.len() == 0,
{
    if key.len() == 0 {
        Err(TxtAttributeError::EmptyKey)
    } else if key.len() > TXT_PAIR_MAX {
        Err(TxtAttributeError::TooLong)
    } else {
        let vlen: usize = match value {
            Some(v) => v.len(),
            None => 0,
        };
        if vlen > TXT_PAIR_MAX - key.len() {
            Err(TxtAttributeError::TooLong)
        } else {
            Ok(())
        }
    }
}

/// Selects which sockets the discovery service binds.
///
/// Responses are sent on the socket which received the query; queries prefer
/// IPv4 when available.
#[derive(Clone, Copy, Debug, PartialEq, Eq, Structural)]
pub enum IpClass {
    /// Require binding an IPv4 socket.
    V4Only,
    /// Require binding an IPv6 socket.
    V6Only,
    /// Require binding both IPv4 and IPv6 sockets.
    V4AndV6,
    /// Try both and succeed if at least one binds.
    Auto,
}

impl IpClass {
    /// Returns `true` if IPv4 is enabled.
    pub fn has_v4(self) -> (r: bool)
        ensures
            r == (self == IpClass::V4Only || self == IpClass::V4AndV6),
    {
        matches!(self, IpClass::V4Only | IpClass::V4AndV6)
    }

    /// Returns `true` if IPv6 is enabled.
    pub fn has_v6(self) -> (r: bool)
        ensures
            r == (self == IpClass::V6Only || self == IpClass::V4AndV6),
    {
        matches!(self, IpClass::V6Only | IpClass::V4AndV6)
    }
}

impl Default for IpClass {
    /// The default lets the service figure out on its own which IP classes
    /// are available.
    fn default() -> (r: Self)
        ensures
            r == IpClass::Auto,
    {
        IpClass::Auto
    }
}

} // verus!
