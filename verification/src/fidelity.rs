//! The advertisement survives the trip through a response and back.
//!
//! A node builds its response from its advertisement; a peer classifies
//! that response and joins it back into a peer snapshot.  The lemmas here
//! close the loop: the snapshot names exactly the advertising node, its
//! advertised `(address, port)` pairs, and its attributes byte for byte.

use crate::addr::{pair_lt, strictly_sorted, IpAddr};
use crate::message::{DataView, RecordView};
use crate::name::port_decimal;
use crate::receiver::{
    has_service_query, is_instance_answer, is_local_additional, join_fold, join_one, paddr_first,
    paddr_has, paddr_push, ptxt_absorb, ptxt_get, spec_join, spec_ptxt, spec_srvs, srv_fold,
    txt_fold, PeerAddrs, SrvEntry,
};
use crate::sender::{
    addl_views, addr_rec_of, ips_of_port, nonempty_key, pair_ip, response_view, spec_ports,
    srv_record_view, srv_views, target_view, txt_record_view, txt_strings_view, with_port,
};
use crate::txt::{round_trip_key, spec_absorb_txt, spec_emit_pair, vemit, view_pairs};
use vstd::prelude::*;

verus! {

/// Two strictly increasing sequences with the same elements are the same
/// sequence: the ordered form of a pair set is unique.
pub proof fn lemma_sorted_unique_representation(a: Seq<(IpAddr, u16)>, b: Seq<(IpAddr, u16)>)
    requires
        strictly_sorted(a),
        strictly_sorted(b),
        a.to_set() == b.to_set(),
    ensures
        a == b,
    decreases a.len(),
{
    if a.len() == 0 {
        if b.len() > 0 {
            assert(b.to_set().contains(b[0]));
            assert(a.to_set().contains(b[0]));
            let i = choose|i: int| 0 <= i < a.len() && a[i] == b[0];
            assert(false);
        }
        assert(a =~= b);
    } else if b.len() == 0 {
        assert(a.to_set().contains(a[0]));
        assert(b.to_set().contains(a[0]));
        let i = choose|i: int| 0 <= i < b.len() && b[i] == a[0];
        assert(false);
    } else {
        // both heads are the least element of the same set, so they agree
        assert(a.to_set().contains(a[0]));
        assert(b.to_set().contains(b[0]));
        assert(b.to_set().contains(a[0]));
        assert(a.to_set().contains(b[0]));
        let ia = choose|i: int| 0 <= i < a.len() && a[i] == b[0];
        let ib = choose|i: int| 0 <= i < b.len() && b[i] == a[0];
        crate::addr::lemma_pair_order_total(a[0], b[0]);
        if a[0] != b[0] {
            if pair_lt(a[0], b[0]) {
                // a[0] occurs in b after b[0], contradicting b's order
                assert(pair_lt(b[0], b[ib]));
                assert(ib > 0);
                assert(pair_lt(a[0], b[0]) && pair_lt(b[0], a[0]));
            } else {
                assert(pair_lt(a[0], a[ia]));
                assert(ia > 0);
                assert(pair_lt(b[0], a[0]) && pair_lt(a[0], b[0]));
            }
            assert(false);
        }
        assert(strictly_sorted(a.drop_first())) by {
            assert(forall|i: int, j: int|
                0 <= i < j < a.drop_first().len() ==> pair_lt(
                    #[trigger] a.drop_first()[i],
                    #[trigger] a.drop_first()[j],
                ));
        }
        assert(strictly_sorted(b.drop_first()));
        assert(a.drop_first().to_set() =~= b.drop_first().to_set()) by {
            assert forall|q: (IpAddr, u16)|
                a.drop_first().to_set().contains(q) implies b.drop_first().to_set().contains(
                q,
            ) by {
                let i = choose|i: int|
                    0 <= i < a.drop_first().len() && #[trigger] a.drop_first()[i] == q;
                assert(a[i + 1] == q);
                assert(pair_lt(a[0], q));
                assert(a.to_set().contains(q));
                assert(b.to_set().contains(q));
                let j = choose|j: int| 0 <= j < b.len() && b[j] == q;
                assert(j != 0) by {
                    crate::addr::lemma_pair_order_total(a[0], q);
                }
                assert(b.drop_first()[j - 1] == q);
            }
            assert forall|q: (IpAddr, u16)|
                b.drop_first().to_set().contains(q) implies a.drop_first().to_set().contains(
                q,
            ) by {
                let i = choose|i: int|
                    0 <= i < b.drop_first().len() && #[trigger] b.drop_first()[i] == q;
                assert(b[i + 1] == q);
                assert(pair_lt(b[0], q));
                assert(b.to_set().contains(q));
                assert(a.to_set().contains(q));
                let j = choose|j: int| 0 <= j < a.len() && a[j] == q;
                assert(j != 0) by {
                    crate::addr::lemma_pair_order_total(b[0], q);
                }
                assert(a.drop_first()[j - 1] == q);
            }
        }
        lemma_sorted_unique_representation(a.drop_first(), b.drop_first());
        assert(a =~= b) by {
            assert(forall|i: int|
                1 <= i < a.len() ==> #[trigger] a[i] == a.drop_first()[i - 1]);
            assert(forall|i: int|
                1 <= i < b.len() ==> #[trigger] b[i] == b.drop_first()[i - 1]);
        }
    }
}

/// Decimal forms are injective: distinct numbers have distinct digits.
pub proof fn lemma_decimal_injective(a: int, b: int)
    requires
        0 <= a,
        0 <= b,
        crate::name::decimal_of(a) == crate::name::decimal_of(b),
    ensures
        a == b,
    decreases a,
{
    let da = crate::name::decimal_of(a);
    let db = crate::name::decimal_of(b);
    if a == 0 {
        if b > 0 {
            assert(db.len() >= 1);
            assert(da.len() == 0);
        }
    } else if b == 0 {
        assert(da.len() >= 1);
        assert(db.len() == 0);
    } else {
        assert(da.last() == (0x30 + a % 10) as u8);
        assert(db.last() == (0x30 + b % 10) as u8);
        assert(da.drop_last() == crate::name::decimal_of(a / 10));
        assert(db.drop_last() == crate::name::decimal_of(b / 10));
        assert(a % 10 == b % 10);
        lemma_decimal_injective(a / 10, b / 10);
    }
}

/// A positive port's decimal is never the single digit `0`.
proof fn lemma_positive_port_decimal_not_zero(a: u16)
    requires
        a != 0,
    ensures
        port_decimal(a) != seq![0x30u8],
{
    crate::name::lemma_decimal_props(a as int);
    if port_decimal(a) == seq![0x30u8] {
        assert(crate::name::decimal_of(a as int).last() == (0x30 + a as int % 10) as u8);
        assert(a as int % 10 == 0);
        assert(crate::name::decimal_of(a as int).drop_last() == crate::name::decimal_of(
            a as int / 10,
        ));
        assert(crate::name::decimal_of(a as int / 10).len() == 0);
        assert(a as int / 10 > 0) by {
            if a as int / 10 == 0 {
                vstd::arithmetic::div_mod::lemma_fundamental_div_mod(a as int, 10);
            }
        }
        assert(crate::name::decimal_of(a as int / 10).len() >= 1);
        assert(false);
    }
}

/// Port decimals are injective.
pub proof fn lemma_port_decimal_injective(a: u16, b: u16)
    requires
        port_decimal(a) == port_decimal(b),
    ensures
        a == b,
{
    if a == 0 && b != 0 {
        lemma_positive_port_decimal_not_zero(b);
    } else if b == 0 && a != 0 {
        lemma_positive_port_decimal_not_zero(a);
    } else if a != 0 && b != 0 {
        lemma_decimal_injective(a as int, b as int);
    }
}

/// The SRV entries a peer's response announces: one per advertised port.
pub open spec fn srv_entries_of(peer_id: Seq<u8>, ports: Seq<u16>) -> Seq<SrvEntry> {
    ports.map_values(
        |p: u16| SrvEntry { target: target_view(peer_id, p), port: p, peer: peer_id },
    )
}

/// The SRV collection distributes over appended answer sections.
pub proof fn lemma_srv_fold_append(
    acc: Seq<SrvEntry>,
    a: Seq<RecordView>,
    b: Seq<RecordView>,
    service: Seq<Seq<u8>>,
)
    ensures
        srv_fold(acc, a + b, service) == srv_fold(srv_fold(acc, a, service), b, service),
    decreases a.len(),
{
    if a.len() == 0 {
        assert(a + b =~= b);
    } else {
        assert((a + b)[0] == a[0]);
        assert((a + b).drop_first() =~= a.drop_first() + b);
        let step = if is_instance_answer(a[0], service) {
            match a[0].data {
                DataView::Srv { priority, weight, port, target } => acc.push(
                    SrvEntry { target, port, peer: a[0].name[0] },
                ),
                _ => acc,
            }
        } else {
            acc
        };
        lemma_srv_fold_append(step, a.drop_first(), b, service);
    }
}

/// The TXT collection distributes over appended answer sections.
pub proof fn lemma_txt_fold_append(
    acc: crate::receiver::PeerTxt,
    a: Seq<RecordView>,
    b: Seq<RecordView>,
    service: Seq<Seq<u8>>,
)
    ensures
        txt_fold(acc, a + b, service) == txt_fold(txt_fold(acc, a, service), b, service),
    decreases a.len(),
{
    if a.len() == 0 {
        assert(a + b =~= b);
    } else {
        assert((a + b)[0] == a[0]);
        assert((a + b).drop_first() =~= a.drop_first() + b);
        let step = if is_instance_answer(a[0], service) {
            match a[0].data {
                DataView::Txt(strings) => ptxt_absorb(acc, a[0].name[0], strings),
                _ => acc,
            }
        } else {
            acc
        };
        lemma_txt_fold_append(step, a.drop_first(), b, service);
    }
}

/// Collecting the SRV answers of a response yields one entry per port, in
/// order; the TXT collection ignores them.
pub proof fn lemma_folds_over_srv_views(
    sacc: Seq<SrvEntry>,
    tacc: crate::receiver::PeerTxt,
    peer_id: Seq<u8>,
    service: Seq<Seq<u8>>,
    ports: Seq<u16>,
)
    requires
        vstd::utf8::valid_utf8(peer_id),
    ensures
        srv_fold(sacc, srv_views(seq![peer_id] + service, peer_id, ports), service) == sacc
            + srv_entries_of(peer_id, ports),
        txt_fold(tacc, srv_views(seq![peer_id] + service, peer_id, ports), service) == tacc,
    decreases ports.len(),
{
    let instance = seq![peer_id] + service;
    let s = srv_views(instance, peer_id, ports);
    if ports.len() == 0 {
        assert(s =~= Seq::<RecordView>::empty());
        assert(sacc + srv_entries_of(peer_id, ports) =~= sacc);
    } else {
        assert(s[0] == srv_record_view(instance, peer_id, ports[0]));
        assert(s.drop_first() =~= srv_views(instance, peer_id, ports.drop_first()));
        let r = srv_record_view(instance, peer_id, ports[0]);
        assert(is_instance_answer(r, service)) by {
            assert(r.name == instance);
            assert(instance.len() == service.len() + 1);
            assert(instance.drop_first() =~= service);
            assert(instance[0] == peer_id);
        }
        let entry = SrvEntry {
            target: target_view(peer_id, ports[0]),
            port: ports[0],
            peer: peer_id,
        };
        assert(srv_fold(sacc, s, service) == srv_fold(
            sacc.push(entry),
            s.drop_first(),
            service,
        ));
        lemma_folds_over_srv_views(sacc.push(entry), tacc, peer_id, service, ports.drop_first());
        assert(sacc.push(entry) + srv_entries_of(peer_id, ports.drop_first()) =~= sacc
            + srv_entries_of(peer_id, ports)) by {
            assert forall|i: int|
                0 <= i < srv_entries_of(peer_id, ports).len() implies srv_entries_of(
                peer_id,
                ports,
            )[i] == if i == 0 {
                entry
            } else {
                srv_entries_of(peer_id, ports.drop_first())[i - 1]
            } by {
                if i > 0 {
                    assert(ports.drop_first()[i - 1] == ports[i]);
                }
            }
        }
    }
}

/// The TXT answer contributes the peer's attributes; the SRV collection
/// ignores it.
pub proof fn lemma_folds_over_txt_record(
    sacc: Seq<SrvEntry>,
    tacc: crate::receiver::PeerTxt,
    peer_id: Seq<u8>,
    service: Seq<Seq<u8>>,
    strings: Seq<Seq<u8>>,
)
    requires
        vstd::utf8::valid_utf8(peer_id),
    ensures
        srv_fold(sacc, seq![txt_record_view(seq![peer_id] + service, strings)], service) == sacc,
        txt_fold(tacc, seq![txt_record_view(seq![peer_id] + service, strings)], service)
            == ptxt_absorb(tacc, peer_id, strings),
{
    let instance = seq![peer_id] + service;
    let r = txt_record_view(instance, strings);
    let s = seq![r];
    assert(is_instance_answer(r, service)) by {
        assert(instance.len() == service.len() + 1);
        assert(instance.drop_first() =~= service);
        assert(instance[0] == peer_id);
    }
    assert(s.drop_first() =~= Seq::<RecordView>::empty());
    assert(s[0] == r);
    assert(r.name[0] == peer_id);
    assert(r.data == DataView::Txt(strings));
    assert(srv_fold(sacc, s, service) == srv_fold(sacc, s.drop_first(), service));
    assert(srv_fold(sacc, s.drop_first(), service) == sacc);
    assert(txt_fold(tacc, s, service) == txt_fold(
        ptxt_absorb(tacc, peer_id, strings),
        s.drop_first(),
        service,
    ));
    assert(txt_fold(ptxt_absorb(tacc, peer_id, strings), s.drop_first(), service) == ptxt_absorb(
        tacc,
        peer_id,
        strings,
    ));
}

/// A filter that keeps everything changes nothing.
pub proof fn lemma_filter_all<A>(s: Seq<A>, pred: spec_fn(A) -> bool)
    requires
        forall|i: int| 0 <= i < s.len() ==> pred(#[trigger] s[i]),
    ensures
        s.filter(pred) == s,
    decreases s.len(),
{
    reveal(Seq::filter);
    if s.len() > 0 {
        lemma_filter_all(s.drop_last(), pred);
        assert(pred(s.last()));
        assert(s.drop_last().push(s.last()) =~= s);
    }
}

/// With every key non-empty, the emitted TXT strings are exactly the
/// view-level emission of the pairs.
pub proof fn lemma_txt_strings_view_is_vemit(pairs: Seq<(Vec<u8>, Option<Vec<u8>>)>)
    requires
        forall|i: int| 0 <= i < pairs.len() ==> (#[trigger] pairs[i]).0@.len() > 0,
    ensures
        txt_strings_view(pairs) == vemit(view_pairs(pairs)),
{
    assert forall|i: int| 0 <= i < pairs.len() implies nonempty_key()(#[trigger] pairs[i]) by {}
    lemma_filter_all(pairs, nonempty_key());
    assert(txt_strings_view(pairs) =~= vemit(view_pairs(pairs))) by {
        assert forall|i: int|
            0 <= i < pairs.len() implies txt_strings_view(pairs)[i] == vemit(view_pairs(pairs))[i]
        by {
            assert(txt_strings_view(pairs)[i] == spec_emit_pair(
                pairs[i].0@,
                crate::txt::opt_bytes_view(pairs[i].1),
            ));
            assert(view_pairs(pairs)[i] == (pairs[i].0@, crate::txt::opt_bytes_view(pairs[i].1)));
        }
    }
}

/// A port sequence without repetitions.
pub open spec fn ports_unique(s: Seq<u16>) -> bool {
    forall|i: int, j: int| 0 <= i < j < s.len() ==> s[i] != s[j]
}

/// The distinct-port collection is free of repetitions and holds exactly
/// the ports of the accumulator and the pairs.
pub proof fn lemma_spec_ports_props(acc: Seq<u16>, rest: Seq<(IpAddr, u16)>)
    requires
        ports_unique(acc),
    ensures
        ports_unique(spec_ports(acc, rest)),
        forall|p: u16|
            spec_ports(acc, rest).contains(p) <==> acc.contains(p) || (exists|k: int|
                0 <= k < rest.len() && (#[trigger] rest[k]).1 == p),
    decreases rest.len(),
{
    if rest.len() > 0 {
        let acc2 = if acc.contains(rest[0].1) {
            acc
        } else {
            acc.push(rest[0].1)
        };
        assert(ports_unique(acc2)) by {
            if !acc.contains(rest[0].1) {
                assert forall|i: int, j: int|
                    0 <= i < j < acc2.len() implies acc2[i] != acc2[j] by {
                    if j < acc.len() {
                        assert(acc2[i] == acc[i] && acc2[j] == acc[j]);
                    } else {
                        assert(acc2[i] == acc[i]);
                        if acc[i] == rest[0].1 {
                            assert(acc.contains(rest[0].1));
                        }
                    }
                }
            }
        }
        lemma_spec_ports_props(acc2, rest.drop_first());
        assert forall|p: u16|
            spec_ports(acc, rest).contains(p) <==> acc.contains(p) || (exists|k: int|
                0 <= k < rest.len() && (#[trigger] rest[k]).1 == p) by {
            assert(spec_ports(acc, rest) == spec_ports(acc2, rest.drop_first()));
            if acc2.contains(p) && !acc.contains(p) {
                let i = choose|i: int| 0 <= i < acc2.len() && acc2[i] == p;
                assert(i == acc.len());
                assert(rest[0].1 == p);
            }
            if acc.contains(p) {
                let i = choose|i: int| 0 <= i < acc.len() && acc[i] == p;
                assert(acc2[i] == p);
                assert(acc2.contains(p));
            }
            if exists|k: int| 0 <= k < rest.len() && (#[trigger] rest[k]).1 == p {
                let k = choose|k: int| 0 <= k < rest.len() && (#[trigger] rest[k]).1 == p;
                if k == 0 {
                    assert(acc2.contains(p)) by {
                        if acc.contains(rest[0].1) {
                        } else {
                            assert(acc2[acc.len() as int] == p);
                        }
                    }
                } else {
                    assert(rest.drop_first()[k - 1] == rest[k]);
                }
            }
            if exists|k: int|
                0 <= k < rest.drop_first().len() && (#[trigger] rest.drop_first()[k]).1 == p {
                let k = choose|k: int|
                    0 <= k < rest.drop_first().len() && (#[trigger] rest.drop_first()[k]).1 == p;
                assert(rest[k + 1] == rest.drop_first()[k]);
            }
        }
    }
}

/// An address joins no SRV entry whose target differs.
pub proof fn lemma_join_one_no_match(
    acc: PeerAddrs,
    entries: Seq<SrvEntry>,
    name: Seq<Seq<u8>>,
    ip: IpAddr,
)
    requires
        forall|k: int| 0 <= k < entries.len() ==> (#[trigger] entries[k]).target != name,
    ensures
        join_one(acc, entries, name, ip) == acc,
    decreases entries.len(),
{
    if entries.len() > 0 {
        assert(entries[0].target != name);
        assert forall|k: int|
            0 <= k < entries.drop_first().len() implies (#[trigger] entries.drop_first()[k]).target
            != name by {
            assert(entries.drop_first()[k] == entries[k + 1]);
        }
        lemma_join_one_no_match(acc, entries.drop_first(), name, ip);
    }
}

/// An address at a per-port target joins exactly the one SRV entry of
/// that port.
pub proof fn lemma_join_one_match(
    acc: PeerAddrs,
    peer_id: Seq<u8>,
    ports: Seq<u16>,
    p: u16,
    ip: IpAddr,
)
    requires
        ports_unique(ports),
        ports.contains(p),
    ensures
        join_one(acc, srv_entries_of(peer_id, ports), target_view(peer_id, p), ip) == paddr_push(
            acc,
            peer_id,
            (ip, p),
        ),
    decreases ports.len(),
{
    let entries = srv_entries_of(peer_id, ports);
    let name = target_view(peer_id, p);
    assert(ports.len() > 0) by {
        let i = choose|i: int| 0 <= i < ports.len() && ports[i] == p;
    }
    assert(entries[0] == (SrvEntry {
        target: target_view(peer_id, ports[0]),
        port: ports[0],
        peer: peer_id,
    }));
    assert(entries.drop_first() =~= srv_entries_of(peer_id, ports.drop_first())) by {
        assert forall|i: int|
            0 <= i < entries.drop_first().len() implies entries.drop_first()[i]
            == srv_entries_of(peer_id, ports.drop_first())[i] by {
            assert(entries.drop_first()[i] == entries[i + 1]);
            assert(ports.drop_first()[i] == ports[i + 1]);
        }
    }
    if ports[0] == p {
        assert(entries[0].target == name);
        assert(join_one(acc, entries, name, ip) == join_one(
            paddr_push(acc, peer_id, (ip, p)),
            entries.drop_first(),
            name,
            ip,
        ));
        assert forall|k: int|
            0 <= k < entries.drop_first().len() implies (#[trigger] entries.drop_first()[k]).target
            != name by {
            assert(entries.drop_first()[k].target == target_view(peer_id, ports[k + 1]));
            if target_view(peer_id, ports[k + 1]) == name {
                lemma_target_view_injective(peer_id, ports[k + 1], p);
                assert(ports[k + 1] == ports[0]);
            }
        }
        lemma_join_one_no_match(paddr_push(acc, peer_id, (ip, p)), entries.drop_first(), name, ip);
    } else {
        assert(entries[0].target != name) by {
            if target_view(peer_id, ports[0]) == name {
                lemma_target_view_injective(peer_id, ports[0], p);
            }
        }
        assert(ports.drop_first().contains(p)) by {
            let i = choose|i: int| 0 <= i < ports.len() && ports[i] == p;
            assert(i > 0);
            assert(ports.drop_first()[i - 1] == p);
        }
        assert(ports_unique(ports.drop_first())) by {
            assert(forall|i: int, j: int|
                0 <= i < j < ports.drop_first().len() ==> #[trigger] ports.drop_first()[i]
                    != #[trigger] ports.drop_first()[j]);
        }
        lemma_join_one_match(acc, peer_id, ports.drop_first(), p, ip);
    }
}

/// One pair per address under a port.
pub open spec fn pair_with(p: u16) -> spec_fn(IpAddr) -> (IpAddr, u16) {
    |ip: IpAddr| (ip, p)
}

/// The raw pair list a response's additionals describe, port group by
/// port group.
pub open spec fn joined_pairs(addrs: Seq<(IpAddr, u16)>, ports: Seq<u16>) -> Seq<(IpAddr, u16)>
    decreases ports.len(),
{
    if ports.len() == 0 {
        Seq::empty()
    } else {
        ips_of_port(addrs, ports[0]).map_values(pair_with(ports[0])) + joined_pairs(
            addrs,
            ports.drop_first(),
        )
    }
}

/// Appending pairs to one peer, one at a time.
pub open spec fn paddr_push_all(
    acc: PeerAddrs,
    peer: Seq<u8>,
    pairs: Seq<(IpAddr, u16)>,
) -> PeerAddrs
    decreases pairs.len(),
{
    if pairs.len() == 0 {
        acc
    } else {
        paddr_push_all(paddr_push(acc, peer, pairs[0]), peer, pairs.drop_first())
    }
}

/// The join distributes over appended additional sections.
pub proof fn lemma_join_fold_append(
    acc: PeerAddrs,
    a: Seq<RecordView>,
    b: Seq<RecordView>,
    srvs: Seq<SrvEntry>,
)
    ensures
        join_fold(acc, a + b, srvs) == join_fold(join_fold(acc, a, srvs), b, srvs),
    decreases a.len(),
{
    if a.len() == 0 {
        assert(a + b =~= b);
    } else {
        assert((a + b)[0] == a[0]);
        assert((a + b).drop_first() =~= a.drop_first() + b);
        let step = if is_local_additional(a[0]) {
            match crate::receiver::addl_ip(a[0].data) {
                Some(ip) => join_one(acc, srvs, a[0].name, ip),
                None => acc,
            }
        } else {
            acc
        };
        lemma_join_fold_append(step, a.drop_first(), b, srvs);
    }
}

/// Joining one port's additionals appends that port's pairs to the peer.
pub proof fn lemma_join_fold_one_port(
    acc: PeerAddrs,
    peer_id: Seq<u8>,
    ports_all: Seq<u16>,
    p: u16,
    ips: Seq<IpAddr>,
)
    requires
        ports_unique(ports_all),
        ports_all.contains(p),
    ensures
        join_fold(
            acc,
            ips.map_values(addr_rec_of(peer_id, p)),
            srv_entries_of(peer_id, ports_all),
        ) == paddr_push_all(acc, peer_id, ips.map_values(pair_with(p))),
    decreases ips.len(),
{
    let recs = ips.map_values(addr_rec_of(peer_id, p));
    let pairs = ips.map_values(pair_with(p));
    if ips.len() == 0 {
        assert(recs =~= Seq::<RecordView>::empty());
        assert(pairs =~= Seq::<(IpAddr, u16)>::empty());
    } else {
        let r = crate::sender::addr_record_view(peer_id, p, ips[0]);
        assert(recs[0] == r);
        assert(is_local_additional(r)) by {
            assert(r.name == target_view(peer_id, p));
            assert(r.name[1] == crate::name::local_label());
        }
        assert(crate::receiver::addl_ip(r.data) == Some(ips[0]));
        lemma_join_one_match(acc, peer_id, ports_all, p, ips[0]);
        assert(recs.drop_first() =~= ips.drop_first().map_values(addr_rec_of(peer_id, p))) by {
            assert forall|i: int|
                0 <= i < recs.drop_first().len() implies recs.drop_first()[i] == ips.drop_first(
            ).map_values(addr_rec_of(peer_id, p))[i] by {
                assert(recs.drop_first()[i] == recs[i + 1]);
                assert(ips.drop_first()[i] == ips[i + 1]);
            }
        }
        assert(pairs.drop_first() =~= ips.drop_first().map_values(pair_with(p))) by {
            assert forall|i: int|
                0 <= i < pairs.drop_first().len() implies pairs.drop_first()[i] == ips.drop_first(
            ).map_values(pair_with(p))[i] by {
                assert(pairs.drop_first()[i] == pairs[i + 1]);
                assert(ips.drop_first()[i] == ips[i + 1]);
            }
        }
        lemma_join_fold_one_port(
            paddr_push(acc, peer_id, (ips[0], p)),
            peer_id,
            ports_all,
            p,
            ips.drop_first(),
        );
        assert(pairs[0] == (ips[0], p));
    }
}

/// Joining the whole additional section appends every port group.
pub proof fn lemma_join_fold_addl(
    acc: PeerAddrs,
    peer_id: Seq<u8>,
    addrs: Seq<(IpAddr, u16)>,
    ports_all: Seq<u16>,
    ports: Seq<u16>,
)
    requires
        ports_unique(ports_all),
        forall|i: int| 0 <= i < ports.len() ==> ports_all.contains(#[trigger] ports[i]),
    ensures
        join_fold(
            acc,
            addl_views(peer_id, addrs, ports),
            srv_entries_of(peer_id, ports_all),
        ) == paddr_push_all(acc, peer_id, joined_pairs(addrs, ports)),
    decreases ports.len(),
{
    if ports.len() == 0 {
        assert(addl_views(peer_id, addrs, ports) =~= Seq::<RecordView>::empty());
    } else {
        let head = ips_of_port(addrs, ports[0]).map_values(addr_rec_of(peer_id, ports[0]));
        let tail = addl_views(peer_id, addrs, ports.drop_first());
        assert(addl_views(peer_id, addrs, ports) == head + tail);
        lemma_join_fold_append(acc, head, tail, srv_entries_of(peer_id, ports_all));
        assert(ports_all.contains(ports[0]));
        lemma_join_fold_one_port(
            acc,
            peer_id,
            ports_all,
            ports[0],
            ips_of_port(addrs, ports[0]),
        );
        let acc2 = paddr_push_all(
            acc,
            peer_id,
            ips_of_port(addrs, ports[0]).map_values(pair_with(ports[0])),
        );
        assert forall|i: int|
            0 <= i < ports.drop_first().len() implies ports_all.contains(
            #[trigger] ports.drop_first()[i],
        ) by {
            assert(ports.drop_first()[i] == ports[i + 1]);
        }
        lemma_join_fold_addl(acc2, peer_id, addrs, ports_all, ports.drop_first());
        lemma_paddr_push_all_append(
            acc,
            peer_id,
            ips_of_port(addrs, ports[0]).map_values(pair_with(ports[0])),
            joined_pairs(addrs, ports.drop_first()),
        );
    }
}

/// Pushing two pair runs one after the other is pushing their
/// concatenation.
pub proof fn lemma_paddr_push_all_append(
    acc: PeerAddrs,
    peer: Seq<u8>,
    a: Seq<(IpAddr, u16)>,
    b: Seq<(IpAddr, u16)>,
)
    ensures
        paddr_push_all(acc, peer, a + b) == paddr_push_all(paddr_push_all(acc, peer, a), peer, b),
    decreases a.len(),
{
    if a.len() == 0 {
        assert(a + b =~= b);
    } else {
        assert((a + b)[0] == a[0]);
        assert((a + b).drop_first() =~= a.drop_first() + b);
        lemma_paddr_push_all_append(paddr_push(acc, peer, a[0]), peer, a.drop_first(), b);
    }
}

/// Pushing pairs onto a single-entry association extends that entry.
pub proof fn lemma_paddr_push_all_single(peer: Seq<u8>, l: Seq<(IpAddr, u16)>, pairs: Seq<(IpAddr, u16)>)
    ensures
        paddr_push_all(seq![(peer, l)], peer, pairs) == seq![(peer, l + pairs)],
    decreases pairs.len(),
{
    if pairs.len() == 0 {
        assert(l + pairs =~= l);
    } else {
        let s = seq![(peer, l)];
        assert(paddr_has(s, peer)) by {
            assert(s[0].0 == peer);
        }
        assert(paddr_first(s, peer) == 0);
        assert(paddr_push(s, peer, pairs[0]) =~= seq![(peer, l.push(pairs[0]))]);
        lemma_paddr_push_all_single(peer, l.push(pairs[0]), pairs.drop_first());
        assert(l.push(pairs[0]) + pairs.drop_first() =~= l + pairs);
    }
}

/// Pushing pairs into an empty association creates one entry holding
/// exactly those pairs.
pub proof fn lemma_paddr_push_all_empty(peer: Seq<u8>, pairs: Seq<(IpAddr, u16)>)
    ensures
        pairs.len() == 0 ==> paddr_push_all(Seq::empty(), peer, pairs) == Seq::<(
            Seq<u8>,
            Seq<(IpAddr, u16)>,
        )>::empty(),
        pairs.len() > 0 ==> paddr_push_all(Seq::empty(), peer, pairs) == seq![(peer, pairs)],
{
    if pairs.len() > 0 {
        let e = Seq::<(Seq<u8>, Seq<(IpAddr, u16)>)>::empty();
        assert(!paddr_has(e, peer));
        assert(paddr_push(e, peer, pairs[0]) =~= seq![(peer, seq![pairs[0]])]);
        lemma_paddr_push_all_single(peer, seq![pairs[0]], pairs.drop_first());
        assert(seq![pairs[0]] + pairs.drop_first() =~= pairs);
    }
}

/// Every joined pair was advertised.
pub proof fn lemma_joined_pairs_sound(addrs: Seq<(IpAddr, u16)>, ports: Seq<u16>)
    ensures
        forall|q: (IpAddr, u16)|
            joined_pairs(addrs, ports).to_set().contains(q) ==> addrs.to_set().contains(q),
    decreases ports.len(),
{
    if ports.len() > 0 {
        lemma_joined_pairs_sound(addrs, ports.drop_first());
        let head = ips_of_port(addrs, ports[0]).map_values(pair_with(ports[0]));
        let tail = joined_pairs(addrs, ports.drop_first());
        crate::addr::lemma_filter_subset(addrs, with_port(ports[0]));
        crate::addr::lemma_filter_keeps_pred(addrs, with_port(ports[0]));
        assert forall|q: (IpAddr, u16)|
            joined_pairs(addrs, ports).to_set().contains(q) implies addrs.to_set().contains(
            q,
        ) by {
            let i = choose|i: int|
                0 <= i < joined_pairs(addrs, ports).len() && #[trigger] joined_pairs(
                    addrs,
                    ports,
                )[i] == q;
            if i < head.len() {
                let f = addrs.filter(with_port(ports[0]));
                assert(head[i] == (f.map_values(pair_ip())[i], ports[0])) by {
                    assert(head[i] == pair_with(ports[0])(ips_of_port(addrs, ports[0])[i]));
                    assert(ips_of_port(addrs, ports[0])[i] == pair_ip()(f[i]));
                }
                assert(f[i].1 == ports[0]);
                assert(q == f[i]);
                assert(f.contains(f[i]));
                assert(addrs.contains(f[i]));
                let j = choose|j: int| 0 <= j < addrs.len() && addrs[j] == f[i];
                assert(addrs.to_set().contains(q));
            } else {
                assert(joined_pairs(addrs, ports)[i] == tail[i - head.len()]);
                assert(tail.to_set().contains(q));
            }
        }
    }
}

/// Every advertised pair whose port was collected is joined.
pub proof fn lemma_joined_pairs_complete(addrs: Seq<(IpAddr, u16)>, ports: Seq<u16>)
    ensures
        forall|q: (IpAddr, u16)|
            addrs.to_set().contains(q) && ports.contains(q.1) ==> joined_pairs(
                addrs,
                ports,
            ).to_set().contains(q),
    decreases ports.len(),
{
    if ports.len() > 0 {
        lemma_joined_pairs_complete(addrs, ports.drop_first());
        let head = ips_of_port(addrs, ports[0]).map_values(pair_with(ports[0]));
        let tail = joined_pairs(addrs, ports.drop_first());
        assert forall|q: (IpAddr, u16)|
            addrs.to_set().contains(q) && ports.contains(q.1) implies joined_pairs(
            addrs,
            ports,
        ).to_set().contains(q) by {
            if q.1 == ports[0] {
                let j = choose|j: int| 0 <= j < addrs.len() && addrs[j] == q;
                assert(with_port(ports[0])(addrs[j]));
                addrs.lemma_filter_contains(with_port(ports[0]), j);
                let f = addrs.filter(with_port(ports[0]));
                assert(f.contains(q));
                let k = choose|k: int| 0 <= k < f.len() && f[k] == q;
                assert(head[k] == pair_with(ports[0])(pair_ip()(f[k])));
                assert(head[k] == q);
                assert(joined_pairs(addrs, ports)[k] == q);
                assert(joined_pairs(addrs, ports).to_set().contains(q));
            } else {
                assert(ports.drop_first().contains(q.1)) by {
                    let i = choose|i: int| 0 <= i < ports.len() && ports[i] == q.1;
                    assert(i > 0);
                    assert(ports.drop_first()[i - 1] == q.1);
                }
                assert(tail.to_set().contains(q));
                let k = choose|k: int| 0 <= k < tail.len() && tail[k] == q;
                assert(joined_pairs(addrs, ports)[head.len() + k] == q);
                assert(joined_pairs(addrs, ports).to_set().contains(q));
            }
        }
    }
}

/// Collected ports keep the accumulator's ports.
proof fn lemma_spec_ports_keeps_acc(acc: Seq<u16>, rest: Seq<(IpAddr, u16)>, p: u16)
    requires
        acc.contains(p),
    ensures
        spec_ports(acc, rest).contains(p),
    decreases rest.len(),
{
    if rest.len() > 0 {
        let acc2 = if acc.contains(rest[0].1) {
            acc
        } else {
            acc.push(rest[0].1)
        };
        assert(acc2.contains(p)) by {
            let i = choose|i: int| 0 <= i < acc.len() && acc[i] == p;
            assert(acc2[i] == p);
        }
        lemma_spec_ports_keeps_acc(acc2, rest.drop_first(), p);
    }
}

/// Every pair's port is collected.
proof fn lemma_spec_ports_contains(acc: Seq<u16>, rest: Seq<(IpAddr, u16)>, k: int)
    requires
        0 <= k < rest.len(),
    ensures
        spec_ports(acc, rest).contains(rest[k].1),
    decreases rest.len(),
{
    let acc2 = if acc.contains(rest[0].1) {
        acc
    } else {
        acc.push(rest[0].1)
    };
    if k == 0 {
        assert(acc2.contains(rest[0].1)) by {
            if acc.contains(rest[0].1) {
                let i = choose|i: int| 0 <= i < acc.len() && acc[i] == rest[0].1;
                assert(acc2[i] == rest[0].1);
            } else {
                assert(acc2[acc.len() as int] == rest[0].1);
            }
        }
        lemma_spec_ports_keeps_acc(acc2, rest.drop_first(), rest[0].1);
    } else {
        assert(rest.drop_first()[k - 1] == rest[k]);
        lemma_spec_ports_contains(acc2, rest.drop_first(), k - 1);
    }
}

/// The joined pairs of a response are exactly the advertised pairs.
pub proof fn lemma_joined_pairs_set(addrs: Seq<(IpAddr, u16)>)
    ensures
        joined_pairs(addrs, spec_ports(Seq::empty(), addrs)).to_set() == addrs.to_set(),
{
    let ports = spec_ports(Seq::empty(), addrs);
    lemma_spec_ports_props(Seq::empty(), addrs);
    lemma_joined_pairs_sound(addrs, ports);
    lemma_joined_pairs_complete(addrs, ports);
    assert(joined_pairs(addrs, ports).to_set() =~= addrs.to_set()) by {
        assert forall|q: (IpAddr, u16)|
            addrs.to_set().contains(q) implies joined_pairs(addrs, ports).to_set().contains(
            q,
        ) by {
            let j = choose|j: int| 0 <= j < addrs.len() && addrs[j] == q;
            lemma_spec_ports_contains(Seq::empty(), addrs, j);
            assert(ports.contains(q.1));
        }
    }
}

/// The advertisement round trip: a response built from an advertisement,
/// classified by any peer of the same service, names exactly the
/// advertising node, carries exactly its advertised pair set, and hands
/// its attributes over byte for byte.
///
/// The attribute clause holds for attribute keys that survive the wire
/// form: non-empty and free of `=` bytes.
pub proof fn lemma_advertisement_round_trip(
    addrs: Seq<(IpAddr, u16)>,
    txt_pairs: Seq<(Vec<u8>, Option<Vec<u8>>)>,
    peer_id: Seq<u8>,
    service: Seq<Seq<u8>>,
)
    requires
        vstd::utf8::valid_utf8(peer_id),
        forall|i: int, j: int|
            0 <= i < j < txt_pairs.len() ==> (#[trigger] txt_pairs[i]).0@ != (
            #[trigger] txt_pairs[j]).0@,
        forall|i: int| 0 <= i < txt_pairs.len() ==> round_trip_key((#[trigger] txt_pairs[i]).0@),
    ensures
        !has_service_query(response_view(addrs, txt_pairs, peer_id, service), service),
        spec_srvs(response_view(addrs, txt_pairs, peer_id, service), service) == srv_entries_of(
            peer_id,
            spec_ports(Seq::empty(), addrs),
        ),
        ptxt_get(
            spec_ptxt(response_view(addrs, txt_pairs, peer_id, service), service),
            peer_id,
        ) == view_pairs(txt_pairs),
        addrs.len() == 0 ==> spec_join(
            response_view(addrs, txt_pairs, peer_id, service),
            service,
        ).len() == 0,
        addrs.len() > 0 ==> {
            let joined = spec_join(response_view(addrs, txt_pairs, peer_id, service), service);
            &&& joined.len() == 1
            &&& joined[0].0 == peer_id
            &&& joined[0].1.to_set() == addrs.to_set()
        },
{
    let msg = response_view(addrs, txt_pairs, peer_id, service);
    let ports = spec_ports(Seq::empty(), addrs);
    let instance = seq![peer_id] + service;
    lemma_spec_ports_props(Seq::empty(), addrs);

    assert(!has_service_query(msg, service)) by {
        if has_service_query(msg, service) {
            let i = choose|i: int|
                0 <= i < msg.questions.len() && crate::receiver::is_service_query(
                    #[trigger] msg.questions[i],
                    service,
                );
        }
    }

    // the answer section: SRV entries and the attribute map
    let srv_part = srv_views(instance, peer_id, ports);
    lemma_folds_over_srv_views(Seq::empty(), Seq::empty(), peer_id, service, ports);
    if txt_pairs.len() > 0 {
        let strings = txt_strings_view(txt_pairs);
        let tail = seq![txt_record_view(instance, strings)];
        assert(msg.answers == srv_part + tail);
        lemma_srv_fold_append(Seq::empty(), srv_part, tail, service);
        lemma_txt_fold_append(Seq::empty(), srv_part, tail, service);
        lemma_folds_over_txt_record(
            srv_entries_of(peer_id, ports),
            Seq::empty(),
            peer_id,
            service,
            strings,
        );
        assert(Seq::<SrvEntry>::empty() + srv_entries_of(peer_id, ports) =~= srv_entries_of(
            peer_id,
            ports,
        ));
        assert(spec_srvs(msg, service) == srv_entries_of(peer_id, ports));
        // the attributes round-trip byte for byte
        assert(!crate::receiver::ptxt_has(Seq::empty(), peer_id));
        assert(spec_ptxt(msg, service) == seq![
            (peer_id, spec_absorb_txt(Seq::empty(), strings)),
        ]);
        assert forall|i: int| 0 <= i < txt_pairs.len() implies (#[trigger] txt_pairs[i]).0@.len()
            > 0 by {}
        lemma_txt_strings_view_is_vemit(txt_pairs);
        assert forall|i: int, j: int|
            0 <= i < j < view_pairs(txt_pairs).len() implies view_pairs(txt_pairs)[i].0
            != view_pairs(txt_pairs)[j].0 by {
            assert(view_pairs(txt_pairs)[i].0 == txt_pairs[i].0@);
            assert(view_pairs(txt_pairs)[j].0 == txt_pairs[j].0@);
        }
        assert forall|i: int|
            0 <= i < view_pairs(txt_pairs).len() implies round_trip_key(
            (#[trigger] view_pairs(txt_pairs)[i]).0) by {
            assert(view_pairs(txt_pairs)[i].0 == txt_pairs[i].0@);
        }
        crate::txt::lemma_txt_map_round_trip(view_pairs(txt_pairs));
        assert(spec_absorb_txt(Seq::empty(), strings) == view_pairs(txt_pairs));
        assert(ptxt_get(spec_ptxt(msg, service), peer_id) == view_pairs(txt_pairs)) by {
            assert(spec_ptxt(msg, service)[0].0 == peer_id);
        }
    } else {
        assert(msg.answers == srv_part + Seq::<RecordView>::empty());
        assert(msg.answers =~= srv_part);
        assert(spec_srvs(msg, service) == srv_entries_of(peer_id, ports)) by {
            assert(Seq::<SrvEntry>::empty() + srv_entries_of(peer_id, ports) =~= srv_entries_of(
                peer_id,
                ports,
            ));
        }
        assert(spec_ptxt(msg, service) == Seq::<(Seq<u8>, Seq<(Seq<u8>, Option<Seq<u8>>)>)>::empty());
        assert(ptxt_get(spec_ptxt(msg, service), peer_id) =~= view_pairs(txt_pairs));
    }

    // the additional section: the joined pair set
    assert(msg.additionals == addl_views(peer_id, addrs, ports));
    assert(forall|i: int| 0 <= i < ports.len() ==> ports.contains(#[trigger] ports[i]));
    lemma_join_fold_addl(Seq::empty(), peer_id, addrs, ports, ports);
    assert(spec_join(msg, service) == paddr_push_all(
        Seq::empty(),
        peer_id,
        joined_pairs(addrs, ports),
    ));
    lemma_joined_pairs_set(addrs);
    lemma_paddr_push_all_empty(peer_id, joined_pairs(addrs, ports));
    if addrs.len() == 0 {
        assert(spec_ports(Seq::empty(), addrs) == Seq::<u16>::empty());
        assert(joined_pairs(addrs, ports).len() == 0);
    } else {
        assert(joined_pairs(addrs, ports).len() > 0) by {
            assert(addrs.to_set().contains(addrs[0]));
            assert(joined_pairs(addrs, ports).to_set().contains(addrs[0]));
            let i = choose|i: int|
                0 <= i < joined_pairs(addrs, ports).len() && #[trigger] joined_pairs(
                    addrs,
                    ports,
                )[i] == addrs[0];
        }
        assert(spec_join(msg, service) == seq![(peer_id, joined_pairs(addrs, ports))]);
    }
}

/// What any peer observes from our response is exactly our advertisement.
///
/// `handle_msg` promises that the peers it hands out satisfy
/// [`crate::receiver::peers_match`] against the message's joined address
/// lists and collected attributes; for a message built by `make_response`
/// this pins the whole observation: one peer, our identity, our pair
/// vector unchanged — the ordered form of a pair set is unique — and our
/// attributes byte for byte.
pub proof fn lemma_observed_peer_exact(
    m: Seq<(Vec<u8>, crate::Peer)>,
    addrs: Seq<(IpAddr, u16)>,
    txt_pairs: Seq<(Vec<u8>, Option<Vec<u8>>)>,
    peer_id: Seq<u8>,
    service: Seq<Seq<u8>>,
    now: u64,
)
    requires
        strictly_sorted(addrs),
        addrs.len() > 0,
        vstd::utf8::valid_utf8(peer_id),
        forall|i: int, j: int|
            0 <= i < j < txt_pairs.len() ==> (#[trigger] txt_pairs[i]).0@ != (
            #[trigger] txt_pairs[j]).0@,
        forall|i: int| 0 <= i < txt_pairs.len() ==> round_trip_key((#[trigger] txt_pairs[i]).0@),
        crate::receiver::peers_match(
            m,
            spec_join(response_view(addrs, txt_pairs, peer_id, service), service),
            spec_ptxt(response_view(addrs, txt_pairs, peer_id, service), service),
            now,
        ),
    ensures
        m.len() == 1,
        m[0].0@ == peer_id,
        m[0].1.addrs@ == addrs,
        m[0].1.txt.view_of() == view_pairs(txt_pairs),
        m[0].1.last_seen == now,
{
    lemma_advertisement_round_trip(addrs, txt_pairs, peer_id, service);
    let joined = spec_join(response_view(addrs, txt_pairs, peer_id, service), service);
    assert(m[0].0@ == joined[0].0);
    assert(m[0].1.addrs@.to_set() == addrs.to_set());
    lemma_sorted_unique_representation(m[0].1.addrs@, addrs);
}

/// Per-port target names are injective in the port.
pub proof fn lemma_target_view_injective(peer_id: Seq<u8>, p: u16, q: u16)
    requires
        target_view(peer_id, p) == target_view(peer_id, q),
    ensures
        p == q,
{
    let tp = peer_id + seq![crate::name::DASH_BYTE] + port_decimal(p);
    let tq = peer_id + seq![crate::name::DASH_BYTE] + port_decimal(q);
    assert(target_view(peer_id, p)[0] == tp);
    assert(target_view(peer_id, q)[0] == tq);
    assert(port_decimal(p) =~= port_decimal(q)) by {
        crate::name::lemma_decimal_props(p as int);
        crate::name::lemma_decimal_props(q as int);
        assert(tp.len() == peer_id.len() + 1 + port_decimal(p).len());
        assert(tq.len() == peer_id.len() + 1 + port_decimal(q).len());
        assert(port_decimal(p).len() == port_decimal(q).len());
        assert forall|i: int| 0 <= i < port_decimal(p).len() implies port_decimal(p)[i]
            == port_decimal(q)[i] by {
            assert(tp[peer_id.len() + 1 + i] == port_decimal(p)[i]);
            assert(tq[peer_id.len() + 1 + i] == port_decimal(q)[i]);
        }
    }
    lemma_port_decimal_injective(p, q);
}

} // verus!
