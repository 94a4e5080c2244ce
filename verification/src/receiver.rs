//! Classifying received mDNS messages.
//!
//! A datagram is either a query for our service — answered by the sender's
//! state machine — or a response carrying peers, or noise.  A response's
//! SRV answers name the peers and their ports, A and AAAA additionals are
//! joined to them through the per-port target names, and TXT answers carry
//! the peers' attributes.  Malformed entries are skipped, never fatal.

use crate::addr::{insert_pair, strictly_sorted, IpAddr};
use crate::message::{DataView, DnsMessage, MessageView, QuestionView, RecordView, CLASS_IN, TYPE_PTR};
use crate::name::{local_label, DnsName};
use crate::txt::{spec_absorb_txt, TxtMap};
use crate::Peer;
use vstd::prelude::*;

verus! {

/// What a received message means.
pub enum Event {
    /// A query for our service from an IPv4 sender.
    QueryV4,
    /// A query for our service from an IPv6 sender.
    QueryV6,
    /// A response: the peers it describes.
    Peers(Vec<(Vec<u8>, Peer)>),
}

/// One SRV answer that references our service: the target host name, the
/// advertised port, and the peer identity.
pub ghost struct SrvEntry {
    pub target: Seq<Seq<u8>>,
    pub port: u16,
    pub peer: Seq<u8>,
}

/// Whether a question asks for our service: class IN, type PTR, our name.
pub open spec fn is_service_query(q: QuestionView, service: Seq<Seq<u8>>) -> bool {
    q.qclass == CLASS_IN && q.qtype == TYPE_PTR && q.name == service
}

/// Whether any question asks for our service.
pub open spec fn has_service_query(msg: MessageView, service: Seq<Seq<u8>>) -> bool {
    exists|i: int| 0 <= i < msg.questions.len() && is_service_query(#[trigger] msg.questions[i], service)
}

/// Whether a record is a well-formed answer about an instance of our
/// service: class IN, owner directly under the service name, and a peer
/// identity in valid UTF-8.
pub open spec fn is_instance_answer(r: RecordView, service: Seq<Seq<u8>>) -> bool {
    &&& r.class == CLASS_IN
    &&& r.name.len() == service.len() + 1
    &&& r.name.drop_first() == service
    &&& vstd::utf8::valid_utf8(r.name[0])
}

/// The SRV entries collected from the answers, in order.
pub open spec fn srv_fold(acc: Seq<SrvEntry>, rest: Seq<RecordView>, service: Seq<Seq<u8>>) -> Seq<
    SrvEntry,
>
    decreases rest.len(),
{
    if rest.len() == 0 {
        acc
    } else {
        srv_fold(
            if is_instance_answer(rest[0], service) {
                match rest[0].data {
                    DataView::Srv { priority, weight, port, target } => acc.push(
                        SrvEntry { target, port, peer: rest[0].name[0] },
                    ),
                    _ => acc,
                }
            } else {
                acc
            },
            rest.drop_first(),
            service,
        )
    }
}

/// A view-level association of peers with attribute pairs.
pub type PeerTxt = Seq<(Seq<u8>, Seq<(Seq<u8>, Option<Seq<u8>>)>)>;

/// Index of the first entry for a peer; the length when there is none.
pub open spec fn ptxt_first(s: PeerTxt, peer: Seq<u8>) -> int
    decreases s.len(),
{
    if s.len() == 0 {
        0
    } else if s[0].0 == peer {
        0
    } else {
        1 + ptxt_first(s.drop_first(), peer)
    }
}

/// Whether a peer has an entry.
pub open spec fn ptxt_has(s: PeerTxt, peer: Seq<u8>) -> bool {
    exists|i: int| 0 <= i < s.len() && s[i].0 == peer
}

/// The attribute pairs recorded for a peer; empty without an entry.
pub open spec fn ptxt_get(s: PeerTxt, peer: Seq<u8>) -> Seq<(Seq<u8>, Option<Seq<u8>>)>
    decreases s.len(),
{
    if s.len() == 0 {
        Seq::empty()
    } else if s[0].0 == peer {
        s[0].1
    } else {
        ptxt_get(s.drop_first(), peer)
    }
}

/// Absorbing one TXT answer's strings into one peer's entry.
pub open spec fn ptxt_absorb(s: PeerTxt, peer: Seq<u8>, strings: Seq<Seq<u8>>) -> PeerTxt {
    if ptxt_has(s, peer) {
        s.update(ptxt_first(s, peer), (peer, spec_absorb_txt(s[ptxt_first(s, peer)].1, strings)))
    } else {
        s.push((peer, spec_absorb_txt(Seq::empty(), strings)))
    }
}

/// The per-peer attributes collected from the answers, in order.
pub open spec fn txt_fold(acc: PeerTxt, rest: Seq<RecordView>, service: Seq<Seq<u8>>) -> PeerTxt
    decreases rest.len(),
{
    if rest.len() == 0 {
        acc
    } else {
        txt_fold(
            if is_instance_answer(rest[0], service) {
                match rest[0].data {
                    DataView::Txt(strings) => ptxt_absorb(acc, rest[0].name[0], strings),
                    _ => acc,
                }
            } else {
                acc
            },
            rest.drop_first(),
            service,
        )
    }
}

/// A view-level association of peers with raw observed pairs.
pub type PeerAddrs = Seq<(Seq<u8>, Seq<(IpAddr, u16)>)>;

/// Index of the first entry for a peer; the length when there is none.
pub open spec fn paddr_first(s: PeerAddrs, peer: Seq<u8>) -> int
    decreases s.len(),
{
    if s.len() == 0 {
        0
    } else if s[0].0 == peer {
        0
    } else {
        1 + paddr_first(s.drop_first(), peer)
    }
}

/// Whether a peer has an entry.
pub open spec fn paddr_has(s: PeerAddrs, peer: Seq<u8>) -> bool {
    exists|i: int| 0 <= i < s.len() && s[i].0 == peer
}

/// Appending one observed pair to a peer's entry.
pub open spec fn paddr_push(s: PeerAddrs, peer: Seq<u8>, pair: (IpAddr, u16)) -> PeerAddrs {
    if paddr_has(s, peer) {
        s.update(paddr_first(s, peer), (peer, s[paddr_first(s, peer)].1.push(pair)))
    } else {
        s.push((peer, seq![pair]))
    }
}

/// Whether a record is an address additional in the `local` zone: class
/// IN, a host name of the form `<host>.local.`.
pub open spec fn is_local_additional(r: RecordView) -> bool {
    r.class == CLASS_IN && r.name.len() == 2 && r.name[1] == local_label()
}

/// The address carried by an additional, if any.
pub open spec fn addl_ip(d: DataView) -> Option<IpAddr> {
    match d {
        DataView::A(a) => Some(IpAddr::V4(a)),
        DataView::Aaaa(a) => Some(IpAddr::V6(a)),
        _ => None,
    }
}

/// Joining one address to every SRV entry whose target it names.
pub open spec fn join_one(
    acc: PeerAddrs,
    srvs: Seq<SrvEntry>,
    name: Seq<Seq<u8>>,
    ip: IpAddr,
) -> PeerAddrs
    decreases srvs.len(),
{
    if srvs.len() == 0 {
        acc
    } else {
        join_one(
            if srvs[0].target == name {
                paddr_push(acc, srvs[0].peer, (ip, srvs[0].port))
            } else {
                acc
            },
            srvs.drop_first(),
            name,
            ip,
        )
    }
}

/// The peers' raw address lists joined from the additionals, in order.
pub open spec fn join_fold(acc: PeerAddrs, rest: Seq<RecordView>, srvs: Seq<SrvEntry>) -> PeerAddrs
    decreases rest.len(),
{
    if rest.len() == 0 {
        acc
    } else {
        join_fold(
            if is_local_additional(rest[0]) {
                match addl_ip(rest[0].data) {
                    Some(ip) => join_one(acc, srvs, rest[0].name, ip),
                    None => acc,
                }
            } else {
                acc
            },
            rest.drop_first(),
            srvs,
        )
    }
}

/// The SRV entries of a message.
pub open spec fn spec_srvs(msg: MessageView, service: Seq<Seq<u8>>) -> Seq<SrvEntry> {
    srv_fold(Seq::empty(), msg.answers, service)
}

/// The per-peer attributes of a message.
pub open spec fn spec_ptxt(msg: MessageView, service: Seq<Seq<u8>>) -> PeerTxt {
    txt_fold(Seq::empty(), msg.answers, service)
}

/// The joined peer address lists of a message.
pub open spec fn spec_join(msg: MessageView, service: Seq<Seq<u8>>) -> PeerAddrs {
    join_fold(Seq::empty(), msg.additionals, spec_srvs(msg, service))
}

/// What the peers handed out for a message must hold: one entry per
/// joined peer, in order — the identity, a snapshot taken now whose
/// address set is the joined set in strictly increasing order, and the
/// peer's collected attributes.
pub open spec fn peers_match(
    m: Seq<(Vec<u8>, Peer)>,
    joined: PeerAddrs,
    ptxt: PeerTxt,
    now: u64,
) -> bool {
    &&& m.len() == joined.len()
    &&& forall|i: int|
        0 <= i < m.len() ==> (#[trigger] m[i]).0@ == joined[i].0 && m[i].1.last_seen == now
            && strictly_sorted(m[i].1.addrs@) && m[i].1.addrs@.to_set() == joined[i].1.to_set()
            && m[i].1.txt.view_of() == ptxt_get(ptxt, joined[i].0) && m[i].1.wf()
}

/// Relies on std::str::from_utf8: it accepts exactly the valid UTF-8 byte
/// strings.
#[verifier::external_body]
fn is_utf8(b: &Vec<u8>) -> (r: bool)
    ensures
        r == vstd::utf8::valid_utf8(b@),
{
    core::str::from_utf8(b.as_slice()).is_ok()
}

/// Classifies one received message.
///
/// A query for our service — class IN, type PTR, our name — yields a
/// query event for the sender's family.  Otherwise the answers and
/// additionals are joined into peers; a message that names no peer is
/// noise and yields nothing.
pub fn handle_msg(msg: &DnsMessage, service_name: &DnsName, src_is_v4: bool, now: u64) -> (r:
    Option<Event>)
    requires
        service_name.wf(),
    ensures
        has_service_query(msg.view_of(), service_name.view_of()) ==> r == Some(
            if src_is_v4 {
                Event::QueryV4
            } else {
                Event::QueryV6
            },
        ),
        !has_service_query(msg.view_of(), service_name.view_of()) ==> match r {
            None => spec_join(msg.view_of(), service_name.view_of()).len() == 0,
            Some(e) => e matches Event::Peers(m) && peers_match(
                m@,
                spec_join(msg.view_of(), service_name.view_of()),
                spec_ptxt(msg.view_of(), service_name.view_of()),
                now,
            ),
        },
{
    let ghost mv = msg.view_of();
    let ghost service = service_name.view_of();

    // Queries for our service.
    let mut qi: usize = 0;
    while qi < msg.questions.len()
        invariant
            qi <= msg.questions@.len(),
            mv == msg.view_of(),
            service == service_name.view_of(),
            forall|j: int| 0 <= j < qi ==> !is_service_query(#[trigger] mv.questions[j], service),
        decreases msg.questions@.len() - qi,
    {
        let q = &msg.questions[qi];
        proof {
            assert(mv.questions[qi as int] == msg.questions@[qi as int].view_of());
        }
        if q.qclass == CLASS_IN && q.qtype == TYPE_PTR && q.name.equals(service_name) {
            proof {
                assert(is_service_query(mv.questions[qi as int], service));
            }
            return Some(
                if src_is_v4 {
                    Event::QueryV4
                } else {
                    Event::QueryV6
                },
            );
        }
        qi += 1;
    }
    proof {
        assert(!has_service_query(mv, service));
    }

    // SRV entries and TXT attributes from the answers.
    let mut srvs: Vec<(DnsName, u16, Vec<u8>)> = Vec::new();
    let mut txts: Vec<(Vec<u8>, TxtMap)> = Vec::new();
    let mut ai: usize = 0;
    proof {
        assert(mv.answers.subrange(0, mv.answers.len() as int) =~= mv.answers);
        assert(srv_triples_view(srvs@) =~= Seq::<SrvEntry>::empty());
        assert(ptxt_view(txts@) =~= Seq::<(Seq<u8>, Seq<(Seq<u8>, Option<Seq<u8>>)>)>::empty());
    }
    while ai < msg.answers.len()
        invariant
            ai <= msg.answers@.len(),
            mv == msg.view_of(),
            service == service_name.view_of(),
            service_name.wf(),
            ptxt_keys_unique(ptxt_view(txts@)),
            forall|t: int| 0 <= t < txts@.len() ==> (#[trigger] txts@[t]).1.wf(),
            srv_fold(srv_triples_view(srvs@), mv.answers.subrange(ai as int, mv.answers.len() as int), service)
                == spec_srvs(mv, service),
            txt_fold(ptxt_view(txts@), mv.answers.subrange(ai as int, mv.answers.len() as int), service)
                == spec_ptxt(mv, service),
        decreases msg.answers@.len() - ai,
    {
        let rec = &msg.answers[ai];
        let ghost rv = mv.answers[ai as int];
        proof {
            assert(rv == msg.answers@[ai as int].view_of());
            let rest = mv.answers.subrange(ai as int, mv.answers.len() as int);
            assert(rest[0] == rv);
            assert(rest.drop_first() =~= mv.answers.subrange(ai + 1, mv.answers.len() as int));
        }
        let matches_instance = rec.class == CLASS_IN && rec.name.base_matches(service_name)
            && is_utf8(rec.name.first_label());
        proof {
            assert(rec.name.view_of().len() >= 1 ==> rec.name.view_of()[0]
                == msg.answers@[ai as int].name.view_of()[0]);
            assert(matches_instance == is_instance_answer(rv, service));
        }
        if matches_instance {
            match &rec.data {
                crate::message::RecordData::Srv { priority: _, weight: _, port, target } => {
                    let entry = (target.duplicate(), *port, {
                        let c = rec.name.first_label().clone();
                        proof {
                            assert(c@ =~= rv.name[0]);
                        }
                        c
                    });
                    proof {
                        assert(triple_view(entry) == (SrvEntry {
                            target: rv.data->Srv_target,
                            port: rv.data->Srv_port,
                            peer: rv.name[0],
                        }));
                    }
                    let ghost pre = srvs@;
                    srvs.push(entry);
                    proof {
                        assert(srv_triples_view(srvs@) =~= srv_triples_view(pre).push(
                            triple_view(entry),
                        ));
                    }
                },
                crate::message::RecordData::Txt(strings) => {
                    let peer = rec.name.first_label().clone();
                    proof {
                        assert(peer@ =~= rv.name[0]);
                    }
                    absorb_peer_txt(&mut txts, peer, strings);
                },
                _ => {},
            }
        }
        ai += 1;
    }
    proof {
        assert(mv.answers.subrange(mv.answers.len() as int, mv.answers.len() as int)
            =~= Seq::<RecordView>::empty());
        assert(srv_triples_view(srvs@) == spec_srvs(mv, service));
        assert(ptxt_view(txts@) == spec_ptxt(mv, service));
    }

    // Joining the additionals to the SRV entries.
    let mut joined: Vec<(Vec<u8>, Vec<(IpAddr, u16)>)> = Vec::new();
    let mut di: usize = 0;
    proof {
        assert(mv.additionals.subrange(0, mv.additionals.len() as int) =~= mv.additionals);
        assert(paddr_view(joined@) =~= Seq::<(Seq<u8>, Seq<(IpAddr, u16)>)>::empty());
    }
    while di < msg.additionals.len()
        invariant
            di <= msg.additionals@.len(),
            mv == msg.view_of(),
            service == service_name.view_of(),
            srv_triples_view(srvs@) == spec_srvs(mv, service),
            join_fold(
                paddr_view(joined@),
                mv.additionals.subrange(di as int, mv.additionals.len() as int),
                spec_srvs(mv, service),
            ) == spec_join(mv, service),
        decreases msg.additionals@.len() - di,
    {
        let rec = &msg.additionals[di];
        let ghost rv = mv.additionals[di as int];
        proof {
            assert(rv == msg.additionals@[di as int].view_of());
            let rest = mv.additionals.subrange(di as int, mv.additionals.len() as int);
            assert(rest[0] == rv);
            assert(rest.drop_first() =~= mv.additionals.subrange(
                di + 1,
                mv.additionals.len() as int,
            ));
        }
        let is_local = rec.class == CLASS_IN && rec.name.label_count() == 2 && {
            let local = crate::name::make_local_label();
            crate::txt::bytes_eq(&rec.name.labels[1], &local)
        };
        proof {
            assert(rec.name.labels@.len() == 2 ==> rv.name[1] == rec.name.labels@[1]@);
            assert(is_local == is_local_additional(rv));
        }
        if is_local {
            let ip: Option<IpAddr> = match &rec.data {
                crate::message::RecordData::A(a) => Some(IpAddr::V4(*a)),
                crate::message::RecordData::Aaaa(a) => Some(IpAddr::V6(*a)),
                _ => None,
            };
            proof {
                assert(match ip {
                    Some(x) => addl_ip(rv.data) == Some(x),
                    None => addl_ip(rv.data) is None,
                });
            }
            match ip {
                Some(ip) => {
                    join_address(&mut joined, &srvs, &rec.name, ip);
                    proof {
                        assert(srv_triples_view(srvs@) == spec_srvs(mv, service));
                    }
                },
                None => {},
            }
        }
        di += 1;
    }
    proof {
        assert(mv.additionals.subrange(mv.additionals.len() as int, mv.additionals.len() as int)
            =~= Seq::<RecordView>::empty());
        assert(paddr_view(joined@) == spec_join(mv, service));
    }

    // Assembling the peers.
    if joined.len() == 0 {
        return None;
    }
    let mut peers: Vec<(Vec<u8>, Peer)> = Vec::new();
    let ghost joined_v = paddr_view(joined@);
    let ghost ptxt_v = ptxt_view(txts@);
    let mut pi: usize = 0;
    while pi < joined.len()
        invariant
            pi <= joined@.len(),
            joined_v == paddr_view(joined@),
            ptxt_v == ptxt_view(txts@),
            forall|t: int| 0 <= t < txts@.len() ==> (#[trigger] txts@[t]).1.wf(),
            peers@.len() == pi,
            forall|i: int|
                0 <= i < pi ==> (#[trigger] peers@[i]).0@ == joined_v[i].0 && peers@[i].1.last_seen
                    == now && strictly_sorted(peers@[i].1.addrs@) && peers@[i].1.addrs@.to_set()
                    == joined_v[i].1.to_set() && peers@[i].1.txt.view_of() == ptxt_get(
                    ptxt_v,
                    joined_v[i].0,
                ) && peers@[i].1.wf(),
        decreases joined@.len() - pi,
    {
        let entry = &joined[pi];
        proof {
            assert(paddr_view(joined@)[pi as int] == (
                joined@[pi as int].0@,
                joined@[pi as int].1@,
            ));
        }
        let id = entry.0.clone();
        proof {
            assert(id@ =~= joined_v[pi as int].0);
        }
        let mut addrs: Vec<(IpAddr, u16)> = Vec::new();
        let mut aj: usize = 0;
        proof {
            assert(entry.1@.take(0).to_set() =~= Seq::<(IpAddr, u16)>::empty().to_set());
            assert(addrs@.to_set() =~= entry.1@.take(0).to_set());
        }
        while aj < entry.1.len()
            invariant
                aj <= entry.1@.len(),
                strictly_sorted(addrs@),
                addrs@.to_set() == entry.1@.take(aj as int).to_set(),
            decreases entry.1@.len() - aj,
        {
            insert_pair(&mut addrs, entry.1[aj]);
            proof {
                assert(entry.1@.take(aj as int).push(entry.1@[aj as int]) =~= entry.1@.take(
                    aj + 1,
                ));
                lemma_take_push_set(entry.1@, aj as int);
            }
            aj += 1;
        }
        proof {
            assert(entry.1@.take(entry.1@.len() as int) =~= entry.1@);
        }
        let txt = lookup_peer_txt(&txts, &id);
        proof {
            assert(txt.view_of() == ptxt_get(ptxt_v, id@));
        }
        let peer = Peer { addrs, last_seen: now, txt };
        peers.push((id, peer));
        pi += 1;
    }
    Some(Event::Peers(peers))
}

/// The view of one collected SRV triple.
pub open spec fn triple_view(t: (DnsName, u16, Vec<u8>)) -> SrvEntry {
    SrvEntry { target: t.0.view_of(), port: t.1, peer: t.2@ }
}

/// The views of collected SRV triples.
pub open spec fn srv_triples_view(s: Seq<(DnsName, u16, Vec<u8>)>) -> Seq<SrvEntry> {
    s.map_values(|t: (DnsName, u16, Vec<u8>)| triple_view(t))
}

/// The view of a collected per-peer attribute list.
pub open spec fn ptxt_view(s: Seq<(Vec<u8>, TxtMap)>) -> PeerTxt {
    s.map_values(|e: (Vec<u8>, TxtMap)| (e.0@, e.1.view_of()))
}

/// The view of a collected per-peer raw address list.
pub open spec fn paddr_view(s: Seq<(Vec<u8>, Vec<(IpAddr, u16)>)>) -> PeerAddrs {
    s.map_values(|e: (Vec<u8>, Vec<(IpAddr, u16)>)| (e.0@, e.1@))
}

/// Peer keys of a view-level association are unique.
pub open spec fn ptxt_keys_unique(s: PeerTxt) -> bool {
    forall|i: int, j: int| 0 <= i < j < s.len() ==> s[i].0 != s[j].0
}

/// Peer identities of a joined association are unique.
pub open spec fn paddr_ids_unique(s: PeerAddrs) -> bool {
    forall|i: int, j: int| 0 <= i < j < s.len() ==> s[i].0 != s[j].0
}

/// Appending a pair keeps the identities unique: an existing entry is
/// extended in place, a fresh identity is appended once.
pub proof fn lemma_paddr_push_unique(s: PeerAddrs, peer: Seq<u8>, pair: (IpAddr, u16))
    requires
        paddr_ids_unique(s),
    ensures
        paddr_ids_unique(paddr_push(s, peer, pair)),
{
    let t = paddr_push(s, peer, pair);
    if paddr_has(s, peer) {
        lemma_paddr_first(s, peer);
        let f = paddr_first(s, peer);
        assert forall|i: int, j: int| 0 <= i < j < t.len() implies t[i].0 != t[j].0 by {
            if i != f && j != f {
                assert(t[i] == s[i] && t[j] == s[j]);
            } else if i == f {
                assert(t[j] == s[j]);
                assert(t[i].0 == s[f].0);
            } else {
                assert(t[i] == s[i]);
                assert(t[j].0 == s[f].0);
            }
        }
    } else {
        assert forall|i: int, j: int| 0 <= i < j < t.len() implies t[i].0 != t[j].0 by {
            if j < s.len() {
                assert(t[i] == s[i] && t[j] == s[j]);
            } else {
                assert(t[i] == s[i]);
                assert(t[j].0 == peer);
                if s[i].0 == peer {
                    assert(paddr_has(s, peer));
                }
            }
        }
    }
}

/// Joining one address keeps the identities unique.
pub proof fn lemma_join_one_unique(
    acc: PeerAddrs,
    srvs: Seq<SrvEntry>,
    name: Seq<Seq<u8>>,
    ip: IpAddr,
)
    requires
        paddr_ids_unique(acc),
    ensures
        paddr_ids_unique(join_one(acc, srvs, name, ip)),
    decreases srvs.len(),
{
    if srvs.len() > 0 {
        let step = if srvs[0].target == name {
            paddr_push(acc, srvs[0].peer, (ip, srvs[0].port))
        } else {
            acc
        };
        if srvs[0].target == name {
            lemma_paddr_push_unique(acc, srvs[0].peer, (ip, srvs[0].port));
        }
        lemma_join_one_unique(step, srvs.drop_first(), name, ip);
    }
}

/// The join keeps the identities unique.
pub proof fn lemma_join_fold_unique(acc: PeerAddrs, rest: Seq<RecordView>, srvs: Seq<SrvEntry>)
    requires
        paddr_ids_unique(acc),
    ensures
        paddr_ids_unique(join_fold(acc, rest, srvs)),
    decreases rest.len(),
{
    if rest.len() > 0 {
        let step = if is_local_additional(rest[0]) {
            match addl_ip(rest[0].data) {
                Some(ip) => join_one(acc, srvs, rest[0].name, ip),
                None => acc,
            }
        } else {
            acc
        };
        if is_local_additional(rest[0]) {
            match addl_ip(rest[0].data) {
                Some(ip) => lemma_join_one_unique(acc, srvs, rest[0].name, ip),
                None => {},
            }
        }
        lemma_join_fold_unique(step, rest.drop_first(), srvs);
    }
}

/// A message's joined peers carry pairwise distinct identities: no
/// response makes the same peer appear twice.
pub proof fn lemma_spec_join_ids_unique(msg: MessageView, service: Seq<Seq<u8>>)
    ensures
        paddr_ids_unique(spec_join(msg, service)),
{
    lemma_join_fold_unique(Seq::empty(), msg.additionals, spec_srvs(msg, service));
}

/// Taking one more element adds it to the taken set.
proof fn lemma_take_push_set(s: Seq<(IpAddr, u16)>, i: int)
    requires
        0 <= i < s.len(),
    ensures
        s.take(i + 1).to_set() == s.take(i).to_set().insert(s[i]),
{
    assert(s.take(i).push(s[i]) =~= s.take(i + 1));
    assert(s.take(i + 1).to_set() =~= s.take(i).to_set().insert(s[i])) by {
        assert forall|q: (IpAddr, u16)|
            s.take(i + 1).to_set().contains(q) implies s.take(i).to_set().insert(s[i]).contains(
            q,
        ) by {
            let j = choose|j: int| 0 <= j < s.take(i + 1).len() && #[trigger] s.take(i + 1)[j] == q;
            if j < i {
                assert(s.take(i)[j] == q);
            }
        }
        assert forall|q: (IpAddr, u16)|
            s.take(i).to_set().insert(s[i]).contains(q) implies s.take(i + 1).to_set().contains(
            q,
        ) by {
            if q == s[i] {
                assert(s.take(i + 1)[i] == q);
            } else {
                let j = choose|j: int| 0 <= j < s.take(i).len() && #[trigger] s.take(i)[j] == q;
                assert(s.take(i + 1)[j] == q);
            }
        }
    }
}

/// Records one TXT answer's strings under a peer.
fn absorb_peer_txt(txts: &mut Vec<(Vec<u8>, TxtMap)>, peer: Vec<u8>, strings: &Vec<Vec<u8>>)
    requires
        ptxt_keys_unique(ptxt_view(old(txts)@)),
        forall|t: int| 0 <= t < old(txts)@.len() ==> (#[trigger] old(txts)@[t]).1.wf(),
    ensures
        ptxt_view(final(txts)@) == ptxt_absorb(
            ptxt_view(old(txts)@),
            peer@,
            crate::name::labels_view(strings@),
        ),
        ptxt_keys_unique(ptxt_view(final(txts)@)),
        forall|t: int| 0 <= t < final(txts)@.len() ==> (#[trigger] final(txts)@[t]).1.wf(),
{
    let ghost pv = ptxt_view(txts@);
    proof {
        lemma_ptxt_first(pv, peer@);
    }
    let mut i: usize = 0;
    while i < txts.len()
        invariant
            i <= txts@.len(),
            txts@ == old(txts)@,
            pv == ptxt_view(txts@),
            ptxt_keys_unique(pv),
            forall|t: int| 0 <= t < txts@.len() ==> (#[trigger] txts@[t]).1.wf(),
            forall|j: int| 0 <= j < i ==> (#[trigger] txts@[j]).0@ != peer@,
        decreases txts@.len() - i,
    {
        if crate::txt::bytes_eq(&txts[i].0, &peer) {
            proof {
                assert(pv[i as int].0 == peer@);
                assert(ptxt_has(pv, peer@));
                assert(ptxt_first(pv, peer@) == i as int) by {
                    lemma_ptxt_first(pv, peer@);
                    assert forall|j: int| 0 <= j < i implies pv[j].0 != peer@ by {
                        assert(pv[j].0 == txts@[j].0@);
                    }
                    if ptxt_first(pv, peer@) < i {
                        assert(pv[ptxt_first(pv, peer@)].0 == peer@);
                    }
                }
            }
            let mut e = txts.remove(i);
            let ghost k0 = e.0@;
            let ghost before = e.1.view_of();
            e.1.absorb_strings(strings);
            let ghost efull = e;
            txts.insert(i, e);
            proof {
                assert(k0 == peer@);
                assert(before == pv[i as int].1);
                assert(efull.1.view_of() == crate::txt::spec_absorb_txt(
                    before,
                    crate::name::labels_view(strings@),
                ));
                assert(txts@ =~= old(txts)@.update(i as int, efull));
                let lhs = ptxt_view(txts@);
                let rhs = ptxt_absorb(pv, peer@, crate::name::labels_view(strings@));
                assert(rhs == pv.update(i as int, (
                    peer@,
                    crate::txt::spec_absorb_txt(
                        pv[i as int].1,
                        crate::name::labels_view(strings@),
                    ),
                )));
                assert forall|j: int| 0 <= j < lhs.len() implies lhs[j] == rhs[j] by {
                    assert(lhs[j] == (txts@[j].0@, txts@[j].1.view_of()));
                    if j != i {
                        assert(txts@[j] == old(txts)@[j]);
                        assert(pv[j] == (old(txts)@[j].0@, old(txts)@[j].1.view_of()));
                    } else {
                        assert(txts@[j] == efull);
                    }
                }
                assert(ptxt_view(txts@) =~= ptxt_absorb(
                    pv,
                    peer@,
                    crate::name::labels_view(strings@),
                ));
                assert forall|a: int, b: int|
                    0 <= a < b < ptxt_view(txts@).len() implies ptxt_view(txts@)[a].0
                    != ptxt_view(txts@)[b].0 by {
                    assert(ptxt_view(txts@)[a].0 == pv[a].0);
                    assert(ptxt_view(txts@)[b].0 == pv[b].0);
                }
            }
            return ;
        }
        i += 1;
    }
    proof {
        assert forall|j: int| 0 <= j < pv.len() implies pv[j].0 != peer@ by {
            assert(pv[j].0 == txts@[j].0@);
        }
        assert(!ptxt_has(pv, peer@));
    }
    let mut m = TxtMap::new();
    proof {
        assert(m.view_of() =~= Seq::<(Seq<u8>, Option<Seq<u8>>)>::empty());
    }
    m.absorb_strings(strings);
    let ghost mv_after = m.view_of();
    let ghost pre = txts@;
    txts.push((peer, m));
    proof {
        assert(mv_after == crate::txt::spec_absorb_txt(
            Seq::empty(),
            crate::name::labels_view(strings@),
        ));
        let lhs = ptxt_view(txts@);
        let rhs = pv.push((peer@, mv_after));
        assert forall|j: int| 0 <= j < lhs.len() implies lhs[j] == rhs[j] by {
            assert(lhs[j] == (txts@[j].0@, txts@[j].1.view_of()));
            if j < pre.len() {
                assert(txts@[j] == pre[j]);
                assert(pv[j] == (pre[j].0@, pre[j].1.view_of()));
            }
        }
        assert(ptxt_view(txts@) =~= ptxt_absorb(pv, peer@, crate::name::labels_view(strings@)));
        assert forall|a: int, b: int|
            0 <= a < b < ptxt_view(txts@).len() implies ptxt_view(txts@)[a].0 != ptxt_view(
            txts@,
        )[b].0 by {
            if b < pre.len() {
                assert(ptxt_view(txts@)[a].0 == pv[a].0);
                assert(ptxt_view(txts@)[b].0 == pv[b].0);
            } else {
                assert(ptxt_view(txts@)[a].0 == pv[a].0);
                assert(pv[a].0 != peer@);
            }
        }
    }
}

/// `ptxt_first` points at the first entry for the peer.
proof fn lemma_ptxt_first(s: PeerTxt, peer: Seq<u8>)
    ensures
        0 <= ptxt_first(s, peer) <= s.len(),
        ptxt_first(s, peer) < s.len() ==> s[ptxt_first(s, peer)].0 == peer,
        forall|j: int| 0 <= j < ptxt_first(s, peer) ==> s[j].0 != peer,
        ptxt_has(s, peer) <==> ptxt_first(s, peer) < s.len(),
    decreases s.len(),
{
    if s.len() > 0 && s[0].0 != peer {
        lemma_ptxt_first(s.drop_first(), peer);
        assert forall|j: int| 0 <= j < ptxt_first(s, peer) implies s[j].0 != peer by {
            if j > 0 {
                assert(s.drop_first()[j - 1] == s[j]);
            }
        }
        if ptxt_first(s, peer) < s.len() {
            assert(s.drop_first()[ptxt_first(s.drop_first(), peer)] == s[ptxt_first(s, peer)]);
        }
        assert(ptxt_has(s, peer) <==> ptxt_first(s, peer) < s.len()) by {
            if ptxt_has(s, peer) {
                let i = choose|i: int| 0 <= i < s.len() && s[i].0 == peer;
                assert(s.drop_first()[i - 1] == s[i]);
                assert(ptxt_has(s.drop_first(), peer));
            }
            if ptxt_has(s.drop_first(), peer) {
                let i = choose|i: int|
                    0 <= i < s.drop_first().len() && s.drop_first()[i].0 == peer;
                assert(s[i + 1] == s.drop_first()[i]);
                assert(ptxt_has(s, peer));
            }
        }
    }
}

/// `paddr_first` points at the first entry for the peer.
proof fn lemma_paddr_first(s: PeerAddrs, peer: Seq<u8>)
    ensures
        0 <= paddr_first(s, peer) <= s.len(),
        paddr_first(s, peer) < s.len() ==> s[paddr_first(s, peer)].0 == peer,
        forall|j: int| 0 <= j < paddr_first(s, peer) ==> s[j].0 != peer,
        paddr_has(s, peer) <==> paddr_first(s, peer) < s.len(),
    decreases s.len(),
{
    if s.len() > 0 && s[0].0 != peer {
        lemma_paddr_first(s.drop_first(), peer);
        assert forall|j: int| 0 <= j < paddr_first(s, peer) implies s[j].0 != peer by {
            if j > 0 {
                assert(s.drop_first()[j - 1] == s[j]);
            }
        }
        if paddr_first(s, peer) < s.len() {
            assert(s.drop_first()[paddr_first(s.drop_first(), peer)] == s[paddr_first(s, peer)]);
        }
        assert(paddr_has(s, peer) <==> paddr_first(s, peer) < s.len()) by {
            if paddr_has(s, peer) {
                let i = choose|i: int| 0 <= i < s.len() && s[i].0 == peer;
                assert(s.drop_first()[i - 1] == s[i]);
                assert(paddr_has(s.drop_first(), peer));
            }
            if paddr_has(s.drop_first(), peer) {
                let i = choose|i: int|
                    0 <= i < s.drop_first().len() && s.drop_first()[i].0 == peer;
                assert(s[i + 1] == s.drop_first()[i]);
                assert(paddr_has(s, peer));
            }
        }
    }
}

/// Joins one address to every collected SRV entry whose target is `name`.
fn join_address(
    joined: &mut Vec<(Vec<u8>, Vec<(IpAddr, u16)>)>,
    srvs: &Vec<(DnsName, u16, Vec<u8>)>,
    name: &DnsName,
    ip: IpAddr,
)
    ensures
        paddr_view(final(joined)@) == join_one(
            paddr_view(old(joined)@),
            srv_triples_view(srvs@),
            name.view_of(),
            ip,
        ),
{
    let ghost all = srv_triples_view(srvs@);
    let mut si: usize = 0;
    proof {
        assert(all.subrange(0, all.len() as int) =~= all);
    }
    while si < srvs.len()
        invariant
            si <= srvs@.len(),
            all == srv_triples_view(srvs@),
            join_one(
                paddr_view(joined@),
                all.subrange(si as int, all.len() as int),
                name.view_of(),
                ip,
            ) == join_one(paddr_view(old(joined)@), all, name.view_of(), ip),
        decreases srvs@.len() - si,
    {
        let e = &srvs[si];
        proof {
            let rest = all.subrange(si as int, all.len() as int);
            assert(rest[0] == triple_view(srvs@[si as int]));
            assert(rest.drop_first() =~= all.subrange(si + 1, all.len() as int));
        }
        if e.0.equals(name) {
            push_peer_pair(joined, &e.2, (ip, e.1));
        }
        si += 1;
    }
    proof {
        assert(all.subrange(all.len() as int, all.len() as int) =~= Seq::<SrvEntry>::empty());
    }
}

/// Appends one observed pair to a peer's raw list.
fn push_peer_pair(joined: &mut Vec<(Vec<u8>, Vec<(IpAddr, u16)>)>, peer: &Vec<u8>, pair: (IpAddr, u16))
    ensures
        paddr_view(final(joined)@) == paddr_push(paddr_view(old(joined)@), peer@, pair),
{
    let ghost pv = paddr_view(joined@);
    let mut i: usize = 0;
    while i < joined.len()
        invariant
            i <= joined@.len(),
            joined@ == old(joined)@,
            pv == paddr_view(joined@),
            forall|j: int| 0 <= j < i ==> (#[trigger] joined@[j]).0@ != peer@,
        decreases joined@.len() - i,
    {
        if crate::txt::bytes_eq(&joined[i].0, peer) {
            proof {
                assert(pv[i as int].0 == peer@);
                assert(paddr_has(pv, peer@));
                assert(paddr_first(pv, peer@) == i as int) by {
                    lemma_paddr_first(pv, peer@);
                    assert forall|j: int| 0 <= j < i implies pv[j].0 != peer@ by {
                        assert(pv[j].0 == joined@[j].0@);
                    }
                    if paddr_first(pv, peer@) < i {
                        assert(pv[paddr_first(pv, peer@)].0 == peer@);
                    }
                }
            }
            let mut e = joined.remove(i);
            e.1.push(pair);
            reinsert_entry(joined, i, e);
            proof {
                assert(paddr_view(joined@) =~= paddr_push(pv, peer@, pair));
            }
            return ;
        }
        i += 1;
    }
    proof {
        assert forall|j: int| 0 <= j < pv.len() implies pv[j].0 != peer@ by {
            assert(pv[j].0 == joined@[j].0@);
        }
        assert(!paddr_has(pv, peer@));
    }
    let id = peer.clone();
    proof {
        assert(id@ =~= peer@);
    }
    let mut l: Vec<(IpAddr, u16)> = Vec::new();
    l.push(pair);
    let ghost pre = joined@;
    joined.push((id, l));
    proof {
        assert(l@ =~= seq![pair]);
        assert(paddr_view(joined@) =~= paddr_push(pv, peer@, pair));
    }
}

/// Puts a modified entry back where it was taken from.
fn reinsert_entry(
    joined: &mut Vec<(Vec<u8>, Vec<(IpAddr, u16)>)>,
    i: usize,
    e: (Vec<u8>, Vec<(IpAddr, u16)>),
)
    requires
        i <= old(joined)@.len(),
    ensures
        final(joined)@ == old(joined)@.insert(i as int, e),
{
    joined.insert(i, e);
}

/// Looks a peer's collected attributes up, as a fresh map when the peer
/// sent none.
fn lookup_peer_txt(txts: &Vec<(Vec<u8>, TxtMap)>, peer: &Vec<u8>) -> (r: TxtMap)
    requires
        forall|t: int| 0 <= t < txts@.len() ==> (#[trigger] txts@[t]).1.wf(),
    ensures
        r.view_of() == ptxt_get(ptxt_view(txts@), peer@),
        r.wf(),
{
    let ghost pv = ptxt_view(txts@);
    let mut i: usize = 0;
    while i < txts.len()
        invariant
            i <= txts@.len(),
            pv == ptxt_view(txts@),
            forall|t: int| 0 <= t < txts@.len() ==> (#[trigger] txts@[t]).1.wf(),
            forall|j: int| 0 <= j < i ==> (#[trigger] txts@[j]).0@ != peer@,
        decreases txts@.len() - i,
    {
        if crate::txt::bytes_eq(&txts[i].0, peer) {
            let r = txts[i].1.duplicate();
            proof {
                assert(pv[i as int].0 == peer@);
                lemma_ptxt_get_at(pv, peer@, i as int);
                let ghost tm = txts@[i as int].1;
                assert(r.view_of() =~= tm.view_of()) by {
                    assert forall|j: int|
                        0 <= j < r.view_of().len() implies r.view_of()[j] == tm.view_of()[j] by {
                        assert(r.view_of()[j] == (r.pairs_view()[j].0@, crate::txt::opt_bytes_view(
                            r.pairs_view()[j].1,
                        )));
                        assert(tm.view_of()[j] == (tm.pairs_view()[j].0@, crate::txt::opt_bytes_view(
                            tm.pairs_view()[j].1,
                        )));
                        assert(r.pairs_view()[j].0@ == tm.pairs_view()[j].0@);
                        assert(crate::txt::opt_bytes_view(r.pairs_view()[j].1)
                            == crate::txt::opt_bytes_view(tm.pairs_view()[j].1));
                    }
                }
                assert(pv[i as int].1 == txts@[i as int].1.view_of());
            }
            return r;
        }
        i += 1;
    }
    proof {
        assert forall|j: int| 0 <= j < pv.len() implies pv[j].0 != peer@ by {
            assert(pv[j].0 == txts@[j].0@);
        }
        lemma_ptxt_get_absent(pv, peer@);
    }
    TxtMap::new()
}

/// With the first entry for a peer at `i`, the lookup yields its pairs.
proof fn lemma_ptxt_get_at(s: PeerTxt, peer: Seq<u8>, i: int)
    requires
        0 <= i < s.len(),
        s[i].0 == peer,
        forall|j: int| 0 <= j < i ==> s[j].0 != peer,
    ensures
        ptxt_get(s, peer) == s[i].1,
    decreases i,
{
    if i > 0 {
        assert(s[0].0 != peer);
        assert(s.drop_first()[i - 1] == s[i]);
        assert forall|j: int| 0 <= j < i - 1 implies s.drop_first()[j].0 != peer by {
            assert(s.drop_first()[j] == s[j + 1]);
        }
        lemma_ptxt_get_at(s.drop_first(), peer, i - 1);
    }
}

/// Without an entry, the lookup yields the empty pair sequence.
proof fn lemma_ptxt_get_absent(s: PeerTxt, peer: Seq<u8>)
    requires
        forall|j: int| 0 <= j < s.len() ==> s[j].0 != peer,
    ensures
        ptxt_get(s, peer) == Seq::<(Seq<u8>, Option<Seq<u8>>)>::empty(),
    decreases s.len(),
{
    if s.len() > 0 {
        assert forall|j: int| 0 <= j < s.drop_first().len() implies s.drop_first()[j].0 != peer by {
            assert(s.drop_first()[j] == s[j + 1]);
        }
        lemma_ptxt_get_absent(s.drop_first(), peer);
    }
}

} // verus!
