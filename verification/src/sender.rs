//! The query/response state machine with rate-limited, suppressive
//! responding.
//!
//! The sender alternates between two phases.  In phase 1 it waits for a
//! query — anyone's query, or its own timer expiring, which makes it send
//! one.  Either way it enters phase 2, the suppression window: it waits a
//! randomized share of the window and responds, unless it has observed at
//! least `cutoff = ceil(τ·φ)` peers answering first, in which case it
//! suppresses its own response and returns to phase 1.
//!
//! Every timer is tagged with the epoch current when it was armed; the
//! epoch advances on every phase change, so a timer armed for an earlier
//! phase is recognised and ignored.

use crate::addr::IpAddr;
use crate::advert::LocalAdvertisement;
use crate::guardian::Input;
use crate::message::{
    records_view, DataView, DnsMessage, DnsQuestion, DnsRecord, MessageView, QuestionView,
    RecordData, RecordView, CLASS_IN, TYPE_PTR,
};
use crate::name::DnsName;
use crate::socket::Mode;
use crate::timing::{sat64, spec_next_extra_delay, next_extra_delay_ns};
use crate::txt::opt_bytes_view;
use crate::Peer;
use vstd::prelude::*;

verus! {

/// The sender's phase: waiting for a query, or inside the suppression
/// window after one.
#[derive(Clone, Copy, Debug, PartialEq, Eq, Structural)]
pub enum Phase {
    Quiescent,
    Responding,
}

/// An event the sender reacts to.
#[derive(Clone, Copy, Debug, PartialEq, Eq, Structural)]
pub enum SenderEvent {
    /// A peer's query arrived on the IPv4 socket.
    QueryV4,
    /// A peer's query arrived on the IPv6 socket.
    QueryV6,
    /// A response carrying this many peers was observed.
    Response(u64),
    /// The timer armed under this epoch fired.
    Timeout(u64),
    /// The peer book's size changed.
    SizeUpdate(u64),
}

/// What the caller must do after a step.
///
/// Observed peers are always forwarded to the book, whatever the phase;
/// that is not repeated here.
#[derive(Clone, Copy, Debug, PartialEq, Eq, Structural)]
pub enum SenderAction {
    /// Nothing: the event was absorbed.
    Nothing,
    /// The suppression window begins: send our own query first when
    /// `send_query` holds, then arm the phase-2 timer.
    EnterResponding { send_query: bool },
    /// The window ends: send our response on the window's family when
    /// `respond` holds — on a suppressed or empty response send nothing —
    /// then arm the phase-1 timer.
    EnterQuiescent { respond: bool },
}

/// The sender's rate-limiting state.
#[derive(Clone, Copy, Debug, PartialEq, Eq, Structural)]
pub struct RateState {
    /// Current phase.
    pub phase: Phase,
    /// The family of the query that opened the current window.
    pub mode: Mode,
    /// Tag for the timer armed last; stale timers carry an older tag.
    pub timeout_epoch: u64,
    /// The last observed size of the peer book.
    pub swarm_size: u64,
    /// `ceil(τ·φ)`: observed responses that silence our own.
    pub cutoff: u64,
    /// Whether our response went out in the window last closed.
    pub has_responded: bool,
    /// Accumulated fairness delay.
    pub extra_delay_ns: u64,
    /// Peers observed answering during the current window.
    pub response_count: u64,
}

impl RateState {
    /// Well-formed: the cutoff is positive, so suppression can trigger.
    pub open spec fn wf(self) -> bool {
        self.cutoff >= 1
    }

    /// The state at start-up: quiescent, alone in the swarm.
    pub fn new(cutoff: u64) -> (r: Self)
        requires
            cutoff >= 1,
        ensures
            r.wf(),
            r == (RateState {
                phase: Phase::Quiescent,
                mode: Mode::Any,
                timeout_epoch: 0,
                swarm_size: 1,
                cutoff: cutoff,
                has_responded: false,
                extra_delay_ns: 0,
                response_count: 0,
            }),
    {
        RateState {
            phase: Phase::Quiescent,
            mode: Mode::Any,
            timeout_epoch: 0,
            swarm_size: 1,
            cutoff,
            has_responded: false,
            extra_delay_ns: 0,
            response_count: 0,
        }
    }
}

/// The state after entering the suppression window: the fairness delay is
/// settled from the last cycle, the response count cleared, the epoch
/// advanced.
pub open spec fn spec_enter_responding(s: RateState, mode: Mode) -> RateState {
    RateState {
        phase: Phase::Responding,
        mode: mode,
        timeout_epoch: sat64(s.timeout_epoch + 1) as u64,
        extra_delay_ns: spec_next_extra_delay(
            s.has_responded,
            s.swarm_size,
            s.cutoff,
            s.extra_delay_ns,
        ) as u64,
        has_responded: false,
        response_count: 0,
        ..s
    }
}

/// The state after the window closes: the epoch advances and the state
/// remembers whether our response went out.
pub open spec fn spec_enter_quiescent(s: RateState, responded: bool) -> RateState {
    RateState {
        phase: Phase::Quiescent,
        timeout_epoch: sat64(s.timeout_epoch + 1) as u64,
        has_responded: responded,
        ..s
    }
}

/// One step of the state machine: the next state and the caller's action
/// for an event, given whether a response message exists at all.
pub open spec fn spec_step(s: RateState, event: SenderEvent, has_advert: bool) -> (
    RateState,
    SenderAction,
) {
    match s.phase {
        Phase::Quiescent => match event {
            SenderEvent::QueryV4 => (
                spec_enter_responding(s, Mode::V4),
                SenderAction::EnterResponding { send_query: false },
            ),
            SenderEvent::QueryV6 => (
                spec_enter_responding(s, Mode::V6),
                SenderAction::EnterResponding { send_query: false },
            ),
            SenderEvent::Timeout(e) => if e == s.timeout_epoch {
                (
                    spec_enter_responding(s, Mode::Any),
                    SenderAction::EnterResponding { send_query: true },
                )
            } else {
                (s, SenderAction::Nothing)
            },
            SenderEvent::Response(_) => (s, SenderAction::Nothing),
            SenderEvent::SizeUpdate(n) => (
                RateState { swarm_size: n, ..s },
                SenderAction::Nothing,
            ),
        },
        Phase::Responding => match event {
            SenderEvent::Response(n) => {
                let counted = RateState { response_count: sat64(s.response_count + n) as u64, ..s };
                if counted.response_count >= s.cutoff {
                    (
                        spec_enter_quiescent(counted, false),
                        SenderAction::EnterQuiescent { respond: false },
                    )
                } else {
                    (counted, SenderAction::Nothing)
                }
            },
            SenderEvent::Timeout(e) => if e == s.timeout_epoch {
                (
                    spec_enter_quiescent(s, has_advert),
                    SenderAction::EnterQuiescent { respond: has_advert },
                )
            } else {
                (s, SenderAction::Nothing)
            },
            SenderEvent::QueryV4 => (s, SenderAction::Nothing),
            SenderEvent::QueryV6 => (s, SenderAction::Nothing),
            SenderEvent::SizeUpdate(n) => (
                RateState { swarm_size: n, ..s },
                SenderAction::Nothing,
            ),
        },
    }
}

impl RateState {
    /// Feeds one event to the state machine.  `has_advert` says whether
    /// the node has a response to offer — whether its advertisement is
    /// present.
    pub fn step(&mut self, event: SenderEvent, has_advert: bool) -> (action: SenderAction)
        requires
            old(self).wf(),
        ensures
            final(self).wf(),
            *final(self) == spec_step(*old(self), event, has_advert).0,
            action == spec_step(*old(self), event, has_advert).1,
    {
        match self.phase {
            Phase::Quiescent => match event {
                SenderEvent::QueryV4 => {
                    self.enter_responding(Mode::V4);
                    SenderAction::EnterResponding { send_query: false }
                },
                SenderEvent::QueryV6 => {
                    self.enter_responding(Mode::V6);
                    SenderAction::EnterResponding { send_query: false }
                },
                SenderEvent::Timeout(e) => {
                    if e == self.timeout_epoch {
                        self.enter_responding(Mode::Any);
                        SenderAction::EnterResponding { send_query: true }
                    } else {
                        SenderAction::Nothing
                    }
                },
                SenderEvent::Response(_) => SenderAction::Nothing,
                SenderEvent::SizeUpdate(n) => {
                    self.swarm_size = n;
                    SenderAction::Nothing
                },
            },
            Phase::Responding => match event {
                SenderEvent::Response(n) => {
                    self.response_count = if self.response_count > u64::MAX - n {
                        u64::MAX
                    } else {
                        self.response_count + n
                    };
                    if self.response_count >= self.cutoff {
                        self.enter_quiescent(false);
                        SenderAction::EnterQuiescent { respond: false }
                    } else {
                        SenderAction::Nothing
                    }
                },
                SenderEvent::Timeout(e) => {
                    if e == self.timeout_epoch {
                        self.enter_quiescent(has_advert);
                        SenderAction::EnterQuiescent { respond: has_advert }
                    } else {
                        SenderAction::Nothing
                    }
                },
                SenderEvent::QueryV4 => SenderAction::Nothing,
                SenderEvent::QueryV6 => SenderAction::Nothing,
                SenderEvent::SizeUpdate(n) => {
                    self.swarm_size = n;
                    SenderAction::Nothing
                },
            },
        }
    }

    /// Opens the suppression window.
    fn enter_responding(&mut self, mode: Mode)
        requires
            old(self).wf(),
        ensures
            *final(self) == spec_enter_responding(*old(self), mode),
    {
        self.phase = Phase::Responding;
        self.mode = mode;
        self.timeout_epoch = if self.timeout_epoch == u64::MAX {
            u64::MAX
        } else {
            self.timeout_epoch + 1
        };
        self.extra_delay_ns = next_extra_delay_ns(
            self.has_responded,
            self.swarm_size,
            self.cutoff,
            self.extra_delay_ns,
        );
        self.has_responded = false;
        self.response_count = 0;
    }

    /// Closes the suppression window.
    fn enter_quiescent(&mut self, responded: bool)
        ensures
            *final(self) == spec_enter_quiescent(*old(self), responded),
    {
        self.phase = Phase::Quiescent;
        self.timeout_epoch = if self.timeout_epoch == u64::MAX {
            u64::MAX
        } else {
            self.timeout_epoch + 1
        };
        self.has_responded = responded;
    }
}

/// The responses the machine sends while it stays inside one suppression
/// window: events are fed in order until the phase first returns to
/// quiescent, and the responses of the closing step are counted too.
pub open spec fn spec_window_responses(
    s: RateState,
    events: Seq<SenderEvent>,
    has_advert: bool,
) -> int
    decreases events.len(),
{
    if s.phase is Quiescent || events.len() == 0 {
        0
    } else {
        let next = spec_step(s, events[0], has_advert).0;
        let action = spec_step(s, events[0], has_advert).1;
        (match action {
            SenderAction::EnterQuiescent { respond: true } => 1int,
            _ => 0int,
        }) + spec_window_responses(next, events.drop_first(), has_advert)
    }
}

/// Suppression: during any one phase-2 window the node responds at most
/// once, whatever events arrive.  The step that sends the response closes
/// the window, so no window can carry two.
pub proof fn lemma_suppression(s: RateState, events: Seq<SenderEvent>, has_advert: bool)
    ensures
        spec_window_responses(s, events, has_advert) <= 1,
    decreases events.len(),
{
    if s.phase is Quiescent || events.len() == 0 {
    } else {
        let next = spec_step(s, events[0], has_advert).0;
        let action = spec_step(s, events[0], has_advert).1;
        lemma_suppression(next, events.drop_first(), has_advert);
        if action is EnterQuiescent {
            assert(next.phase is Quiescent);
            assert(spec_window_responses(next, events.drop_first(), has_advert) == 0);
        }
    }
}

/// The queries the machine sends while it waits inside one phase-1
/// window: events are fed in order until the phase first leaves
/// quiescence, and a query sent by the leaving step is counted too.
pub open spec fn spec_window_queries(
    s: RateState,
    events: Seq<SenderEvent>,
    has_advert: bool,
) -> int
    decreases events.len(),
{
    if s.phase is Responding || events.len() == 0 {
        0
    } else {
        let next = spec_step(s, events[0], has_advert).0;
        let action = spec_step(s, events[0], has_advert).1;
        (match action {
            SenderAction::EnterResponding { send_query: true } => 1int,
            _ => 0int,
        }) + spec_window_queries(next, events.drop_first(), has_advert)
    }
}

/// During any one phase-1 window the node queries at most once: the step
/// that sends the query opens the suppression window.
pub proof fn lemma_one_query_per_window(s: RateState, events: Seq<SenderEvent>, has_advert: bool)
    ensures
        spec_window_queries(s, events, has_advert) <= 1,
    decreases events.len(),
{
    if s.phase is Responding || events.len() == 0 {
    } else {
        let next = spec_step(s, events[0], has_advert).0;
        let action = spec_step(s, events[0], has_advert).1;
        lemma_one_query_per_window(next, events.drop_first(), has_advert);
        if action is EnterResponding {
            assert(next.phase is Responding);
            assert(spec_window_queries(next, events.drop_first(), has_advert) == 0);
        }
    }
}

/// A stale timer is ignored: a timeout whose tag is not the current epoch
/// changes nothing and triggers nothing.
pub proof fn lemma_stale_timer_ignored(s: RateState, e: u64, has_advert: bool)
    requires
        e != s.timeout_epoch,
    ensures
        spec_step(s, SenderEvent::Timeout(e), has_advert) == (s, SenderAction::Nothing),
{
}

/// An event the sender reacts to, as delivered by the surrounding tasks:
/// the state-machine events plus control messages and observed peer sets.
pub enum MdnsMsg {
    /// A peer's query arrived on the IPv4 socket.
    QueryV4,
    /// A peer's query arrived on the IPv6 socket.
    QueryV6,
    /// A response was parsed into a set of observed peers.
    Response(Vec<(Vec<u8>, Peer)>),
    /// The timer armed under this epoch fired.
    Timeout(u64),
    /// The peer book's size changed.
    SizeUpdate(u64),
    /// A control message for the local advertisement.
    Update(Input),
}

/// Applies one control message to the local advertisement, as the sender
/// does between phases.  The phase machine is untouched.
pub fn apply_update(adv: &mut LocalAdvertisement, msg: Input)
    requires
        old(adv).wf(),
    ensures
        final(adv).wf(),
        msg is RemoveAll ==> !final(adv).present,
        msg matches Input::RemovePort(p) ==> final(adv).addrs@ == crate::advert::spec_remove_port(
            old(adv).addrs@,
            p,
        ) && final(adv).txt == old(adv).txt && final(adv).present == old(adv).present,
        msg matches Input::RemoveAddr(a) ==> final(adv).addrs@ == crate::advert::spec_remove_addr(
            old(adv).addrs@,
            a,
        ) && final(adv).txt == old(adv).txt && final(adv).present == old(adv).present,
        msg matches Input::AddAddr(p, addrs) ==> final(adv).present && final(adv).addrs@.to_set()
            == old(adv).addrs@.to_set().union(
            addrs@.map_values(|a: crate::addr::IpAddr| (a, p)).to_set(),
        ) && final(adv).txt == old(adv).txt,
        msg matches Input::SetTxt(k, v) ==> final(adv).present && final(adv).addrs@ == old(
            adv,
        ).addrs@ && final(adv).txt.spec_get(k@) == Some(opt_bytes_view(v)) && (forall|q: Seq<u8>|
            q != k@ ==> final(adv).txt.spec_get(q) == old(adv).txt.spec_get(q)),
        msg matches Input::RemoveTxt(k) ==> final(adv).present == old(adv).present && final(adv).addrs@
            == old(adv).addrs@ && final(adv).txt.spec_get(k@) is None && (forall|q: Seq<u8>|
            q != k@ ==> final(adv).txt.spec_get(q) == old(adv).txt.spec_get(q)),
{
    match msg {
        Input::RemoveAll => adv.remove_all(),
        Input::RemovePort(port) => adv.remove_port(port),
        Input::RemoveAddr(a) => adv.remove_addr(a),
        Input::AddAddr(port, addrs) => adv.add(port, &addrs),
        Input::SetTxt(key, value) => adv.set_txt(key, value),
        Input::RemoveTxt(key) => adv.remove_txt(&key),
    }
}

/// The view of the per-port host name `<peer>-<port>.local.`.
pub open spec fn target_view(peer_id: Seq<u8>, port: u16) -> Seq<Seq<u8>> {
    seq![
        peer_id + seq![crate::name::DASH_BYTE] + crate::name::port_decimal(port),
        crate::name::local_label(),
    ]
}

/// The view of one SRV answer: the instance name locating one advertised
/// port, priority and weight zero, an ephemeral TTL of zero.
pub open spec fn srv_record_view(instance: Seq<Seq<u8>>, peer_id: Seq<u8>, port: u16) -> RecordView {
    RecordView {
        name: instance,
        class: CLASS_IN,
        ttl: 0,
        data: DataView::Srv { priority: 0, weight: 0, port, target: target_view(peer_id, port) },
    }
}

/// The view of one address additional at the per-port host name.
pub open spec fn addr_record_view(peer_id: Seq<u8>, port: u16, ip: IpAddr) -> RecordView {
    RecordView {
        name: target_view(peer_id, port),
        class: CLASS_IN,
        ttl: 0,
        data: match ip {
            IpAddr::V4(a) => DataView::A(a),
            IpAddr::V6(a) => DataView::Aaaa(a),
        },
    }
}

/// The view of the TXT answer at the instance name.
pub open spec fn txt_record_view(instance: Seq<Seq<u8>>, strings: Seq<Seq<u8>>) -> RecordView {
    RecordView { name: instance, class: CLASS_IN, ttl: 0, data: DataView::Txt(strings) }
}

/// The distinct advertised ports, in first appearance order.
pub open spec fn spec_ports(acc: Seq<u16>, rest: Seq<(IpAddr, u16)>) -> Seq<u16>
    decreases rest.len(),
{
    if rest.len() == 0 {
        acc
    } else {
        spec_ports(
            if acc.contains(rest[0].1) {
                acc
            } else {
                acc.push(rest[0].1)
            },
            rest.drop_first(),
        )
    }
}

/// The predicate selecting one port's pairs.
pub open spec fn with_port(p: u16) -> spec_fn((IpAddr, u16)) -> bool {
    |q: (IpAddr, u16)| q.1 == p
}

/// The address of a pair.
pub open spec fn pair_ip() -> spec_fn((IpAddr, u16)) -> IpAddr {
    |q: (IpAddr, u16)| q.0
}

/// The addresses advertised under one port, in pair order.
pub open spec fn ips_of_port(s: Seq<(IpAddr, u16)>, p: u16) -> Seq<IpAddr> {
    s.filter(with_port(p)).map_values(pair_ip())
}

/// The additional built for one address under one port.
pub open spec fn addr_rec_of(peer_id: Seq<u8>, port: u16) -> spec_fn(IpAddr) -> RecordView {
    |ip: IpAddr| addr_record_view(peer_id, port, ip)
}

/// One SRV answer per distinct port.
pub open spec fn srv_views(instance: Seq<Seq<u8>>, peer_id: Seq<u8>, ports: Seq<u16>) -> Seq<
    RecordView,
> {
    ports.map_values(|p: u16| srv_record_view(instance, peer_id, p))
}

/// The address additionals: for each port in order, one A or AAAA record
/// per address under that port.
pub open spec fn addl_views(peer_id: Seq<u8>, addrs: Seq<(IpAddr, u16)>, ports: Seq<u16>) -> Seq<
    RecordView,
>
    decreases ports.len(),
{
    if ports.len() == 0 {
        Seq::empty()
    } else {
        ips_of_port(addrs, ports[0]).map_values(addr_rec_of(peer_id, ports[0])) + addl_views(
            peer_id,
            addrs,
            ports.drop_first(),
        )
    }
}

/// The predicate keeping attributes with a non-empty key.
pub open spec fn nonempty_key() -> spec_fn((Vec<u8>, Option<Vec<u8>>)) -> bool {
    |p: (Vec<u8>, Option<Vec<u8>>)| p.0@.len() > 0
}

/// The wire string of one attribute pair.
pub open spec fn emit_of() -> spec_fn((Vec<u8>, Option<Vec<u8>>)) -> Seq<u8> {
    |p: (Vec<u8>, Option<Vec<u8>>)| crate::txt::spec_emit_pair(p.0@, opt_bytes_view(p.1))
}

/// The TXT strings carried for an attribute map: one `key[=value]` string
/// per attribute, attributes with an empty key skipped silently.
pub open spec fn txt_strings_view(pairs: Seq<(Vec<u8>, Option<Vec<u8>>)>) -> Seq<Seq<u8>> {
    pairs.filter(nonempty_key()).map_values(emit_of())
}

/// The whole response for an advertisement: authoritative, one SRV answer
/// per distinct port with its address additionals, and a TXT answer when
/// any attribute is set.
pub open spec fn response_view(
    addrs: Seq<(IpAddr, u16)>,
    txt_pairs: Seq<(Vec<u8>, Option<Vec<u8>>)>,
    peer_id: Seq<u8>,
    service: Seq<Seq<u8>>,
) -> MessageView {
    let instance = seq![peer_id] + service;
    let ports = spec_ports(Seq::empty(), addrs);
    MessageView {
        id: 0,
        is_response: true,
        authoritative: true,
        questions: Seq::empty(),
        answers: srv_views(instance, peer_id, ports) + if txt_pairs.len() > 0 {
            seq![txt_record_view(instance, txt_strings_view(txt_pairs))]
        } else {
            Seq::empty()
        },
        additionals: addl_views(peer_id, addrs, ports),
    }
}

/// Builds the query for the service: one PTR question of class IN.
pub fn make_query(service_name: &DnsName) -> (r: DnsMessage)
    requires
        service_name.wf(),
    ensures
        r.view_of().id == 0,
        !r.view_of().is_response,
        !r.view_of().authoritative,
        r.view_of().questions == seq![
            QuestionView { name: service_name.view_of(), qtype: TYPE_PTR, qclass: CLASS_IN },
        ],
        r.view_of().answers.len() == 0,
        r.view_of().additionals.len() == 0,
{
    let mut questions: Vec<DnsQuestion> = Vec::new();
    questions.push(
        DnsQuestion { name: service_name.duplicate(), qtype: TYPE_PTR, qclass: CLASS_IN },
    );
    let r = DnsMessage {
        id: 0,
        is_response: false,
        authoritative: false,
        questions,
        answers: Vec::new(),
        additionals: Vec::new(),
    };
    proof {
        assert(r.view_of().questions =~= seq![
            QuestionView { name: service_name.view_of(), qtype: TYPE_PTR, qclass: CLASS_IN },
        ]);
        assert(r.view_of().answers =~= Seq::<RecordView>::empty());
        assert(r.view_of().additionals =~= Seq::<RecordView>::empty());
    }
    r
}

/// Builds the response for the current advertisement, or nothing while the
/// node does not announce itself.
pub fn make_response(adv: &LocalAdvertisement, peer_id: &Vec<u8>, service_name: &DnsName) -> (r:
    Option<DnsMessage>)
    requires
        adv.wf(),
        crate::name::is_valid_peer_id(peer_id@),
        service_name.wf(),
        crate::name::labels_wire_len(service_name.view_of()) + 2 + peer_id@.len() <= 255,
    ensures
        (r is Some) == adv.present,
        r matches Some(m) ==> m.view_of() == response_view(
            adv.addrs@,
            adv.txt.pairs_view(),
            peer_id@,
            service_name.view_of(),
        ),
{
    if !adv.present {
        return None;
    }
    let instance = crate::name::make_instance_name(peer_id, service_name);
    let ghost instance_v = seq![peer_id@] + service_name.view_of();
    let ghost all_ports = spec_ports(Seq::empty(), adv.addrs@);

    // Distinct ports, first appearance first.
    let mut ports: Vec<u16> = Vec::new();
    let mut i: usize = 0;
    proof {
        assert(adv.addrs@.subrange(0, adv.addrs@.len() as int) =~= adv.addrs@);
    }
    while i < adv.addrs.len()
        invariant
            i <= adv.addrs@.len(),
            spec_ports(ports@, adv.addrs@.subrange(i as int, adv.addrs@.len() as int))
                == spec_ports(Seq::empty(), adv.addrs@),
        decreases adv.addrs@.len() - i,
    {
        let p = adv.addrs[i].1;
        let mut seen = false;
        let mut j: usize = 0;
        while j < ports.len()
            invariant
                j <= ports@.len(),
                seen == exists|k: int| 0 <= k < j && ports@[k] == p,
            decreases ports@.len() - j,
        {
            if ports[j] == p {
                proof {
                    assert(ports@[j as int] == p);
                }
                seen = true;
            }
            j += 1;
        }
        proof {
            assert(seen == ports@.contains(p));
            let rest = adv.addrs@.subrange(i as int, adv.addrs@.len() as int);
            assert(rest[0] == adv.addrs@[i as int]);
            assert(rest.drop_first() =~= adv.addrs@.subrange(i + 1, adv.addrs@.len() as int));
        }
        if !seen {
            ports.push(p);
        }
        i += 1;
    }
    proof {
        assert(adv.addrs@.subrange(adv.addrs@.len() as int, adv.addrs@.len() as int)
            =~= Seq::<(IpAddr, u16)>::empty());
        assert(ports@ == all_ports);
    }

    // One SRV answer per port.
    let mut answers: Vec<DnsRecord> = Vec::new();
    let mut k: usize = 0;
    while k < ports.len()
        invariant
            k <= ports@.len(),
            ports@ == all_ports,
            instance.view_of() == instance_v,
            crate::name::is_valid_peer_id(peer_id@),
            records_view(answers@) == srv_views(instance_v, peer_id@, ports@.take(k as int)),
        decreases ports@.len() - k,
    {
        let p = ports[k];
        let target = crate::name::make_target_name(peer_id, p);
        let rec = DnsRecord {
            name: instance.duplicate(),
            class: CLASS_IN,
            ttl: 0,
            data: RecordData::Srv { priority: 0, weight: 0, port: p, target },
        };
        proof {
            assert(rec.view_of() == srv_record_view(instance_v, peer_id@, p));
        }
        let ghost pre = answers@;
        answers.push(rec);
        proof {
            crate::message::lemma_records_view_push(pre, rec);
            assert(srv_views(instance_v, peer_id@, ports@.take(k + 1)) =~= srv_views(
                instance_v,
                peer_id@,
                ports@.take(k as int),
            ).push(srv_record_view(instance_v, peer_id@, p)));
        }
        k += 1;
    }
    proof {
        assert(ports@.take(ports@.len() as int) =~= ports@);
    }

    // The TXT answer, when any attribute is set.
    let ghost srv_part = records_view(answers@);
    if adv.txt.len() > 0 {
        let mut strings: Vec<Vec<u8>> = Vec::new();
        let mut t: usize = 0;
        proof {
            assert(adv.txt.pairs_view().take(0) =~= Seq::<(Vec<u8>, Option<Vec<u8>>)>::empty());
            reveal(Seq::filter);
            assert(crate::name::labels_view(strings@) =~= txt_strings_view(
                adv.txt.pairs_view().take(0),
            ));
        }
        while t < adv.txt.len()
            invariant
                t <= adv.txt.pairs_view().len(),
                crate::name::labels_view(strings@) == txt_strings_view(
                    adv.txt.pairs_view().take(t as int),
                ),
            decreases adv.txt.pairs_view().len() - t,
        {
            let pair = adv.txt.pair_at(t);
            let ghost pv = adv.txt.pairs_view();
            proof {
                crate::addr::lemma_filter_push(pv.take(t as int), nonempty_key(), pv[t as int]);
                assert(pv.take(t as int).push(pv[t as int]) =~= pv.take(t + 1));
            }
            if pair.0.len() > 0 {
                let s = crate::txt::emit_pair(&pair.0, &pair.1);
                let ghost pres = strings@;
                strings.push(s);
                proof {
                    assert(crate::name::labels_view(strings@) =~= crate::name::labels_view(
                        pres,
                    ).push(s@));
                    assert(txt_strings_view(pv.take(t + 1)) =~= txt_strings_view(
                        pv.take(t as int),
                    ).push(crate::txt::spec_emit_pair(
                        pv[t as int].0@,
                        opt_bytes_view(pv[t as int].1),
                    )));
                }
            } else {
                proof {
                    assert(txt_strings_view(pv.take(t + 1)) == txt_strings_view(pv.take(t as int)));
                }
            }
            t += 1;
        }
        proof {
            assert(adv.txt.pairs_view().take(adv.txt.pairs_view().len() as int) =~= adv.txt.pairs_view());
        }
        let rec = DnsRecord {
            name: instance.duplicate(),
            class: CLASS_IN,
            ttl: 0,
            data: RecordData::Txt(strings),
        };
        let ghost pre = answers@;
        answers.push(rec);
        proof {
            crate::message::lemma_records_view_push(pre, rec);
            assert(rec.view_of() == txt_record_view(
                instance_v,
                txt_strings_view(adv.txt.pairs_view()),
            ));
            assert(records_view(answers@) =~= srv_part + seq![
                txt_record_view(instance_v, txt_strings_view(adv.txt.pairs_view())),
            ]);
        }
    } else {
        proof {
            assert(records_view(answers@) =~= srv_part + Seq::<RecordView>::empty());
        }
    }

    // The address additionals, port by port.
    let mut additionals: Vec<DnsRecord> = Vec::new();
    let mut k: usize = 0;
    proof {
        assert(records_view(additionals@) =~= addl_views_prefix(
            peer_id@,
            adv.addrs@,
            all_ports,
            0,
        ));
    }
    while k < ports.len()
        invariant
            k <= ports@.len(),
            ports@ == all_ports,
            crate::name::is_valid_peer_id(peer_id@),
            records_view(additionals@) == addl_views_prefix(peer_id@, adv.addrs@, all_ports, k as int),
        decreases ports@.len() - k,
    {
        let p = ports[k];
        let mut j: usize = 0;
        proof {
            reveal(Seq::filter);
            assert(adv.addrs@.take(0) =~= Seq::<(IpAddr, u16)>::empty());
        }
        while j < adv.addrs.len()
            invariant
                j <= adv.addrs@.len(),
                k < ports@.len(),
                ports@ == all_ports,
                p == ports@[k as int],
                crate::name::is_valid_peer_id(peer_id@),
                records_view(additionals@) == addl_views_prefix(
                    peer_id@,
                    adv.addrs@,
                    all_ports,
                    k as int,
                ) + ips_of_port(adv.addrs@.take(j as int), p).map_values(
                    addr_rec_of(peer_id@, p),
                ),
            decreases adv.addrs@.len() - j,
        {
            let pair = adv.addrs[j];
            proof {
                crate::addr::lemma_filter_push(adv.addrs@.take(j as int), with_port(p), pair);
                assert(adv.addrs@.take(j as int).push(pair) =~= adv.addrs@.take(j + 1));
            }
            if pair.1 == p {
                let rec = DnsRecord {
                    name: crate::name::make_target_name(peer_id, p),
                    class: CLASS_IN,
                    ttl: 0,
                    data: match pair.0 {
                        IpAddr::V4(a) => RecordData::A(a),
                        IpAddr::V6(a) => RecordData::Aaaa(a),
                    },
                };
                proof {
                    assert(rec.view_of() == addr_record_view(peer_id@, p, pair.0));
                }
                let ghost pre = additionals@;
                additionals.push(rec);
                proof {
                    crate::message::lemma_records_view_push(pre, rec);
                    assert(ips_of_port(adv.addrs@.take(j + 1), p).map_values(
                        addr_rec_of(peer_id@, p),
                    ) =~= ips_of_port(adv.addrs@.take(j as int), p).map_values(
                        addr_rec_of(peer_id@, p),
                    ).push(addr_record_view(peer_id@, p, pair.0)));
                }
            } else {
                proof {
                    assert(ips_of_port(adv.addrs@.take(j + 1), p) == ips_of_port(
                        adv.addrs@.take(j as int),
                        p,
                    ));
                }
            }
            j += 1;
        }
        proof {
            assert(adv.addrs@.take(adv.addrs@.len() as int) =~= adv.addrs@);
            lemma_addl_views_prefix_step(peer_id@, adv.addrs@, all_ports, k as int);
        }
        k += 1;
    }
    proof {
        lemma_addl_views_prefix_all(peer_id@, adv.addrs@, all_ports);
    }

    let r = DnsMessage {
        id: 0,
        is_response: true,
        authoritative: true,
        questions: Vec::new(),
        answers,
        additionals,
    };
    proof {
        assert(r.view_of().questions =~= Seq::<QuestionView>::empty());
        assert(r.view_of() == response_view(
            adv.addrs@,
            adv.txt.pairs_view(),
            peer_id@,
            service_name.view_of(),
        ));
    }
    Some(r)
}

/// The additionals for the first `k` ports.
pub open spec fn addl_views_prefix(
    peer_id: Seq<u8>,
    addrs: Seq<(IpAddr, u16)>,
    ports: Seq<u16>,
    k: int,
) -> Seq<RecordView> {
    addl_views(peer_id, addrs, ports.take(k))
}

/// Extending the prefix by one port appends that port's records.
pub proof fn lemma_addl_views_prefix_step(
    peer_id: Seq<u8>,
    addrs: Seq<(IpAddr, u16)>,
    ports: Seq<u16>,
    k: int,
)
    requires
        0 <= k < ports.len(),
    ensures
        addl_views_prefix(peer_id, addrs, ports, k + 1) == addl_views_prefix(
            peer_id,
            addrs,
            ports,
            k,
        ) + ips_of_port(addrs, ports[k]).map_values(addr_rec_of(peer_id, ports[k])),
{
    lemma_addl_views_take_snoc(peer_id, addrs, ports.take(k + 1));
    assert(ports.take(k + 1).drop_last() =~= ports.take(k));
    assert(ports.take(k + 1).last() == ports[k]);
}

/// Splitting the last port off the fold.
pub proof fn lemma_addl_views_take_snoc(peer_id: Seq<u8>, addrs: Seq<(IpAddr, u16)>, ports: Seq<u16>)
    requires
        ports.len() > 0,
    ensures
        addl_views(peer_id, addrs, ports) == addl_views(peer_id, addrs, ports.drop_last())
            + ips_of_port(addrs, ports.last()).map_values(addr_rec_of(peer_id, ports.last())),
    decreases ports.len(),
{
    if ports.len() == 1 {
        assert(ports.drop_last() =~= Seq::<u16>::empty());
        assert(ports.drop_first() =~= Seq::<u16>::empty());
        assert(addl_views(peer_id, addrs, ports.drop_last()) =~= Seq::<RecordView>::empty());
        assert(ports[0] == ports.last());
        assert(addl_views(peer_id, addrs, ports) =~= ips_of_port(addrs, ports.last()).map_values(
            addr_rec_of(peer_id, ports.last()),
        ));
    } else {
        lemma_addl_views_take_snoc(peer_id, addrs, ports.drop_first());
        assert(ports.drop_first().drop_last() =~= ports.drop_last().drop_first());
        assert(ports.drop_first().last() == ports.last());
        assert(ports.drop_last()[0] == ports[0]);
        assert(ports.drop_last().len() > 0);
        assert(addl_views(peer_id, addrs, ports.drop_last()) == ips_of_port(
            addrs,
            ports[0],
        ).map_values(addr_rec_of(peer_id, ports[0])) + addl_views(
            peer_id,
            addrs,
            ports.drop_last().drop_first(),
        ));
        assert((ips_of_port(addrs, ports[0]).map_values(addr_rec_of(peer_id, ports[0]))
            + addl_views(peer_id, addrs, ports.drop_first().drop_last())) + ips_of_port(
            addrs,
            ports.last(),
        ).map_values(addr_rec_of(peer_id, ports.last())) =~= ips_of_port(addrs, ports[0]).map_values(
            addr_rec_of(peer_id, ports[0]),
        ) + (addl_views(peer_id, addrs, ports.drop_first().drop_last()) + ips_of_port(
            addrs,
            ports.last(),
        ).map_values(addr_rec_of(peer_id, ports.last()))));
    }
}

/// The fold over every port is the fold over the full prefix.
pub proof fn lemma_addl_views_prefix_all(
    peer_id: Seq<u8>,
    addrs: Seq<(IpAddr, u16)>,
    ports: Seq<u16>,
)
    ensures
        addl_views_prefix(peer_id, addrs, ports, ports.len() as int) == addl_views(
            peer_id,
            addrs,
            ports,
        ),
{
    assert(ports.take(ports.len() as int) =~= ports);
}

/// Applies one control message and rebuilds the response, as the sender
/// does when the supervisor relays a change.
pub fn update_response(
    adv: &mut LocalAdvertisement,
    peer_id: &Vec<u8>,
    service_name: &DnsName,
    msg: Input,
) -> (r: Option<DnsMessage>)
    requires
        old(adv).wf(),
        crate::name::is_valid_peer_id(peer_id@),
        service_name.wf(),
        crate::name::labels_wire_len(service_name.view_of()) + 2 + peer_id@.len() <= 255,
    ensures
        final(adv).wf(),
        msg is RemoveAll ==> !final(adv).present,
        msg matches Input::RemovePort(p) ==> final(adv).addrs@ == crate::advert::spec_remove_port(
            old(adv).addrs@,
            p,
        ) && final(adv).txt == old(adv).txt && final(adv).present == old(adv).present,
        msg matches Input::RemoveAddr(a) ==> final(adv).addrs@ == crate::advert::spec_remove_addr(
            old(adv).addrs@,
            a,
        ) && final(adv).txt == old(adv).txt && final(adv).present == old(adv).present,
        msg matches Input::AddAddr(p, addrs) ==> final(adv).present && final(adv).addrs@.to_set()
            == old(adv).addrs@.to_set().union(
            addrs@.map_values(|a: IpAddr| (a, p)).to_set(),
        ) && final(adv).txt == old(adv).txt,
        msg matches Input::SetTxt(kk, v) ==> final(adv).present && final(adv).addrs@
            == old(adv).addrs@ && final(adv).txt.spec_get(kk@) == Some(opt_bytes_view(v)) && (
        forall|q: Seq<u8>| q != kk@ ==> final(adv).txt.spec_get(q) == old(adv).txt.spec_get(q)),
        msg matches Input::RemoveTxt(kk) ==> final(adv).present == old(adv).present && final(adv).addrs@
            == old(adv).addrs@ && final(adv).txt.spec_get(kk@) is None && (forall|q: Seq<u8>|
            q != kk@ ==> final(adv).txt.spec_get(q) == old(adv).txt.spec_get(q)),
        (r is Some) == final(adv).present,
        r matches Some(m) ==> m.view_of() == response_view(
            final(adv).addrs@,
            final(adv).txt.pairs_view(),
            peer_id@,
            service_name.view_of(),
        ),
{
    apply_update(adv, msg);
    make_response(adv, peer_id, service_name)
}

/// Relies on rand::random_range: a uniform sample from `0..1_000_000`
/// lies in that range.
#[verifier::external_body]
pub fn draw_millionth() -> (r: u32)
    ensures
        r < 1_000_000,
{
    rand::random_range(0u32..1_000_000)
}

} // verus!
