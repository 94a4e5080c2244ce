//! DNS names as label sequences.
//!
//! A name is a sequence of labels, each a non-empty byte string of at most
//! 63 bytes; the wire form adds a length byte per label and a terminating
//! zero, and must stay within 255 bytes.  The trailing root label is not
//! stored.

use vstd::prelude::*;

verus! {

/// The byte `.`, which may not occur inside a label.
pub const DOT_BYTE: u8 = 0x2e;

/// The byte `-`, which joins a peer identity and a port into a host label.
pub const DASH_BYTE: u8 = 0x2d;

/// Longest allowed label.
pub const LABEL_MAX: usize = 63;

/// Longest allowed peer identity: short enough that `<peer>-<port>` is
/// still a legal label for every port.
pub const PEER_ID_MAX: usize = 57;

/// Longest allowed service name: short enough that `_<service>` is still
/// a legal label.
pub const SERVICE_MAX: usize = 62;

/// A DNS name: its labels, root omitted.
pub struct DnsName {
    pub labels: Vec<Vec<u8>>,
}

/// The labels of a name as byte sequences.
pub open spec fn labels_view(labels: Seq<Vec<u8>>) -> Seq<Seq<u8>> {
    labels.map_values(|l: Vec<u8>| l@)
}

/// A legal label: non-empty, at most 63 bytes, no dot.
pub open spec fn is_label(l: Seq<u8>) -> bool {
    &&& 1 <= l.len() <= LABEL_MAX
    &&& forall|i: int| 0 <= i < l.len() ==> l[i] != DOT_BYTE
}

/// The wire length of a label sequence: one length byte per label plus the
/// label bytes.
pub open spec fn labels_wire_len(ls: Seq<Seq<u8>>) -> int
    decreases ls.len(),
{
    if ls.len() == 0 {
        0
    } else {
        1 + ls[0].len() + labels_wire_len(ls.drop_first())
    }
}

impl DnsName {
    /// The name as a sequence of label byte sequences.
    pub open spec fn view_of(self) -> Seq<Seq<u8>> {
        labels_view(self.labels@)
    }

    /// Well-formed: at least one label, every label legal, and the wire
    /// form — labels plus the closing root byte — within 255 bytes.
    pub open spec fn wf(self) -> bool {
        &&& self.labels@.len() >= 1
        &&& forall|i: int| 0 <= i < self.view_of().len() ==> is_label(#[trigger] self.view_of()[i])
        &&& labels_wire_len(self.view_of()) + 1 <= 255
    }

    /// The first label — for a service instance name, the peer identity.
    pub fn first_label(&self) -> (r: &Vec<u8>)
        requires
            self.labels@.len() >= 1,
        ensures
            r@ == self.view_of()[0],
    {
        proof {
            assert(self.view_of()[0] == self.labels@[0]@);
        }
        &self.labels[0]
    }

    /// How many labels the name has.
    pub fn label_count(&self) -> (r: usize)
        ensures
            r == self.view_of().len(),
    {
        self.labels.len()
    }

    /// Whether this name equals another, label for label.
    pub fn equals(&self, other: &DnsName) -> (r: bool)
        ensures
            r == (self.view_of() == other.view_of()),
    {
        if self.labels.len() != other.labels.len() {
            proof {
                assert(self.view_of().len() != other.view_of().len());
            }
            return false;
        }
        let mut i: usize = 0;
        while i < self.labels.len()
            invariant
                i <= self.labels@.len(),
                self.labels@.len() == other.labels@.len(),
                forall|j: int| 0 <= j < i ==> self.view_of()[j] == other.view_of()[j],
            decreases self.labels@.len() - i,
        {
            if !crate::txt::bytes_eq(&self.labels[i], &other.labels[i]) {
                proof {
                    assert(self.view_of()[i as int] == self.labels@[i as int]@);
                    assert(other.view_of()[i as int] == other.labels@[i as int]@);
                }
                return false;
            }
            proof {
                assert(self.view_of()[i as int] == self.labels@[i as int]@);
                assert(other.view_of()[i as int] == other.labels@[i as int]@);
            }
            i += 1;
        }
        proof {
            assert(self.view_of() =~= other.view_of());
        }
        true
    }

    /// Whether dropping this name's first label leaves exactly the other
    /// name: the owner is an instance directly under it.
    pub fn base_matches(&self, base: &DnsName) -> (r: bool)
        ensures
            r == (self.view_of().len() == base.view_of().len() + 1 && self.view_of().drop_first()
                =~= base.view_of()),
    {
        if self.labels.len() == 0 || self.labels.len() - 1 != base.labels.len() {
            return false;
        }
        let mut i: usize = 0;
        while i < base.labels.len()
            invariant
                i <= base.labels@.len(),
                self.labels@.len() == base.labels@.len() + 1,
                forall|j: int| 0 <= j < i ==> self.view_of()[j + 1] == base.view_of()[j],
            decreases base.labels@.len() - i,
        {
            if !crate::txt::bytes_eq(&self.labels[i + 1], &base.labels[i]) {
                proof {
                    assert(self.view_of()[i as int + 1] == self.labels@[i as int + 1]@);
                    assert(base.view_of()[i as int] == base.labels@[i as int]@);
                    assert(self.view_of().drop_first()[i as int] == self.view_of()[i as int + 1]);
                }
                return false;
            }
            proof {
                assert(self.view_of()[i as int + 1] == self.labels@[i as int + 1]@);
                assert(base.view_of()[i as int] == base.labels@[i as int]@);
            }
            i += 1;
        }
        proof {
            assert forall|j: int|
                0 <= j < base.view_of().len() implies self.view_of().drop_first()[j]
                == base.view_of()[j] by {
                assert(self.view_of().drop_first()[j] == self.view_of()[j + 1]);
            }
            assert(self.view_of().drop_first() =~= base.view_of());
        }
        true
    }

    /// A copy of the name.
    pub fn duplicate(&self) -> (r: Self)
        ensures
            r.view_of() == self.view_of(),
            r.labels@.len() == self.labels@.len(),
    {
        let mut labels: Vec<Vec<u8>> = Vec::new();
        let mut i: usize = 0;
        while i < self.labels.len()
            invariant
                i <= self.labels@.len(),
                labels@.len() == i,
                forall|j: int| 0 <= j < i ==> (#[trigger] labels@[j])@ == self.labels@[j]@,
            decreases self.labels@.len() - i,
        {
            let l = self.labels[i].clone();
            proof {
                assert(l@ =~= self.labels@[i as int]@);
            }
            labels.push(l);
            i += 1;
        }
        let r = DnsName { labels };
        proof {
            assert forall|j: int|
                0 <= j < r.view_of().len() implies r.view_of()[j] == self.view_of()[j] by {
                assert(r.view_of()[j] == r.labels@[j]@);
                assert(self.view_of()[j] == self.labels@[j]@);
            }
            assert(r.view_of() =~= self.view_of());
        }
        r
    }
}

/// Whether a byte string is free of dots.
pub fn has_no_dot(s: &Vec<u8>) -> (r: bool)
    ensures
        r == (forall|i: int| 0 <= i < s@.len() ==> s@[i] != DOT_BYTE),
{
    let mut i: usize = 0;
    while i < s.len()
        invariant
            i <= s@.len(),
            forall|j: int| 0 <= j < i ==> s@[j] != DOT_BYTE,
        decreases s@.len() - i,
    {
        if s[i] == DOT_BYTE {
            return false;
        }
        i += 1;
    }
    true
}

/// The decimal digits of a number, most significant first.
pub open spec fn decimal_of(n: int) -> Seq<u8>
    decreases n,
{
    if n <= 0 {
        Seq::empty()
    } else {
        decimal_of(n / 10).push((0x30 + n % 10) as u8)
    }
}

/// The decimal form of a port: digits for a positive number, a single `0`
/// for zero.
pub open spec fn port_decimal(n: u16) -> Seq<u8> {
    if n == 0 {
        seq![0x30u8]
    } else {
        decimal_of(n as int)
    }
}

/// Writes a port in decimal, most significant digit first.
pub fn push_port_decimal(out: &mut Vec<u8>, port: u16)
    ensures
        final(out)@ == old(out)@ + port_decimal(port),
        port_decimal(port).len() >= 1,
        port_decimal(port).len() <= 5,
{
    proof {
        lemma_decimal_len(port as int);
    }
    if port == 0 {
        out.push(0x30);
        proof {
            assert(old(out)@.push(0x30u8) =~= old(out)@ + port_decimal(port));
        }
        return ;
    }
    let mut digits: Vec<u8> = Vec::new();
    let mut n: u16 = port;
    while n > 0
        invariant
            n <= port,
            port > 0,
            decimal_of(port as int) == decimal_of(n as int) + digits@.reverse(),
        decreases n,
    {
        let ghost pre = digits@;
        let d: u8 = (n % 10) as u8;
        digits.push(0x30 + d);
        n = n / 10;
        proof {
            assert(decimal_of(port as int) == decimal_of(n as int) + digits@.reverse()) by {
                assert(digits@ == pre.push((0x30 + d) as u8));
                assert(digits@.reverse() =~= seq![(0x30 + d) as u8] + pre.reverse());
                if n > 0 {
                    assert(decimal_of(n as int) == decimal_of(n as int / 10).push(
                        (0x30 + n as int % 10) as u8,
                    ));
                }
                assert(decimal_of(n as int).push((0x30 + d) as u8) + pre.reverse()
                    =~= decimal_of(n as int) + (seq![(0x30 + d) as u8] + pre.reverse()));
            }
        }
    }
    proof {
        assert(decimal_of(0int) =~= Seq::<u8>::empty());
        assert(decimal_of(port as int) =~= digits@.reverse());
    }
    let mut i: usize = digits.len();
    while i > 0
        invariant
            i <= digits@.len(),
            out@ == old(out)@ + digits@.reverse().take(digits@.len() - i),
        decreases i,
    {
        i -= 1;
        out.push(digits[i]);
        proof {
            let rev = digits@.reverse();
            let k = digits@.len() - i - 1;
            assert(rev[k] == digits@[i as int]);
            assert((old(out)@ + rev.take(k)).push(rev[k]) =~= old(out)@ + rev.take(k + 1));
        }
    }
    proof {
        assert(digits@.reverse().take(digits@.len() as int) =~= digits@.reverse());
    }
}

/// The label `local`: the zone all names of this protocol live in.
pub open spec fn local_label() -> Seq<u8> {
    seq![0x6cu8, 0x6fu8, 0x63u8, 0x61u8, 0x6cu8]
}

/// Builds the label `local`.
pub fn make_local_label() -> (r: Vec<u8>)
    ensures
        r@ == local_label(),
{
    let mut v: Vec<u8> = Vec::new();
    v.push(0x6c);  // 'l'
    v.push(0x6f);  // 'o'
    v.push(0x63);  // 'c'
    v.push(0x61);  // 'a'
    v.push(0x6c);  // 'l'
    proof {
        assert(v@ =~= local_label());
    }
    v
}

/// A legal service name: it fits a label once `_` is prepended.
pub open spec fn is_valid_service(s: Seq<u8>) -> bool {
    &&& 1 <= s.len() <= SERVICE_MAX
    &&& forall|i: int| 0 <= i < s.len() ==> s[i] != DOT_BYTE
}

/// A legal peer identity: it fits a label with `-<port>` appended.
pub open spec fn is_valid_peer_id(s: Seq<u8>) -> bool {
    &&& 1 <= s.len() <= PEER_ID_MAX
    &&& forall|i: int| 0 <= i < s.len() ==> s[i] != DOT_BYTE
}

/// Decides whether a service name is legal.
pub fn check_service(s: &Vec<u8>) -> (r: bool)
    ensures
        r == is_valid_service(s@),
{
    s.len() >= 1 && s.len() <= SERVICE_MAX && has_no_dot(s)
}

/// Decides whether a peer identity is legal.
pub fn check_peer_id(s: &Vec<u8>) -> (r: bool)
    ensures
        r == is_valid_peer_id(s@),
{
    s.len() >= 1 && s.len() <= PEER_ID_MAX && has_no_dot(s)
}

/// One more label in front adds its length byte and bytes to the wire
/// form.
pub proof fn lemma_wire_len_cons(a: Seq<u8>, s: Seq<Seq<u8>>)
    ensures
        labels_wire_len(seq![a] + s) == 1 + a.len() + labels_wire_len(s),
{
    assert((seq![a] + s)[0] == a);
    assert((seq![a] + s).drop_first() =~= s);
}

/// The wire length of a one-label name.
pub proof fn lemma_wire_len1(a: Seq<u8>)
    ensures
        labels_wire_len(seq![a]) == 1 + a.len(),
{
    let e = Seq::<Seq<u8>>::empty();
    assert(labels_wire_len(e) == 0);
    assert(seq![a] =~= seq![a] + e);
    lemma_wire_len_cons(a, e);
}

/// The wire length of a two-label name.
pub proof fn lemma_wire_len2(a: Seq<u8>, b: Seq<u8>)
    ensures
        labels_wire_len(seq![a, b]) == 2 + a.len() + b.len(),
{
    lemma_wire_len1(b);
    assert(seq![a, b] =~= seq![a] + seq![b]);
    lemma_wire_len_cons(a, seq![b]);
}

/// The wire length of a three-label name.
pub proof fn lemma_wire_len3(a: Seq<u8>, b: Seq<u8>, c: Seq<u8>)
    ensures
        labels_wire_len(seq![a, b, c]) == 3 + a.len() + b.len() + c.len(),
{
    lemma_wire_len2(b, c);
    assert(seq![a, b, c] =~= seq![a] + seq![b, c]);
    lemma_wire_len_cons(a, seq![b, c]);
}

/// The service name `_<service>.<_udp|_tcp>.local.`.
pub fn make_service_name(service: &Vec<u8>, protocol: crate::Protocol) -> (r: DnsName)
    requires
        is_valid_service(service@),
    ensures
        r.wf(),
        r.view_of() == seq![seq![0x5fu8] + service@, protocol.label_spec(), local_label()],
        labels_wire_len(r.view_of()) == 13 + service@.len(),
{
    let mut first: Vec<u8> = Vec::new();
    first.push(0x5f);  // '_'
    let mut i: usize = 0;
    while i < service.len()
        invariant
            i <= service@.len(),
            first@ == seq![0x5fu8] + service@.take(i as int),
        decreases service@.len() - i,
    {
        first.push(service[i]);
        proof {
            assert((seq![0x5fu8] + service@.take(i as int)).push(service@[i as int]) =~= seq![
                0x5fu8,
            ] + service@.take(i + 1));
        }
        i += 1;
    }
    proof {
        assert(service@.take(service@.len() as int) =~= service@);
    }
    let mut labels: Vec<Vec<u8>> = Vec::new();
    labels.push(first);
    labels.push(protocol.label());
    labels.push(make_local_label());
    let r = DnsName { labels };
    proof {
        let v = seq![seq![0x5fu8] + service@, protocol.label_spec(), local_label()];
        assert(r.view_of() =~= v);
        lemma_wire_len3(v[0], v[1], v[2]);
        assert forall|j: int| 0 <= j < r.view_of().len() implies is_label(
            #[trigger] r.view_of()[j],
        ) by {
            if j == 0 {
                assert forall|k: int| 0 <= k < v[0].len() implies v[0][k] != DOT_BYTE by {
                    if k > 0 {
                        assert(v[0][k] == service@[k - 1]);
                    }
                }
            }
        }
    }
    r
}

/// The service instance name `<peer>.<service name>`.
pub fn make_instance_name(peer_id: &Vec<u8>, service_name: &DnsName) -> (r: DnsName)
    requires
        is_valid_peer_id(peer_id@),
        service_name.wf(),
        labels_wire_len(service_name.view_of()) + 2 + peer_id@.len() <= 255,
    ensures
        r.wf(),
        r.view_of() == seq![peer_id@] + service_name.view_of(),
{
    let first = {
        let c = peer_id.clone();
        proof {
            assert(c@ =~= peer_id@);
        }
        c
    };
    let mut labels: Vec<Vec<u8>> = Vec::new();
    labels.push(first);
    let dup = service_name.duplicate();
    let mut i: usize = 0;
    proof {
        assert(labels_view(labels@) =~= seq![peer_id@] + dup.view_of().take(0));
    }
    while i < dup.labels.len()
        invariant
            i <= dup.labels@.len(),
            dup.view_of() == service_name.view_of(),
            labels_view(labels@) == seq![peer_id@] + dup.view_of().take(i as int),
        decreases dup.labels@.len() - i,
    {
        let ghost pre = labels@;
        let l = dup.labels[i].clone();
        proof {
            assert(l@ =~= dup.labels@[i as int]@);
            assert(dup.view_of()[i as int] == dup.labels@[i as int]@);
        }
        labels.push(l);
        proof {
            assert(labels_view(labels@) =~= labels_view(pre).push(l@));
            assert((seq![peer_id@] + dup.view_of().take(i as int)).push(dup.view_of()[i as int])
                =~= seq![peer_id@] + dup.view_of().take(i + 1));
        }
        i += 1;
    }
    proof {
        assert(dup.view_of().take(dup.view_of().len() as int) =~= dup.view_of());
    }
    let r = DnsName { labels };
    proof {
        let v = seq![peer_id@] + service_name.view_of();
        assert(r.view_of() == v);
        lemma_wire_len_cons(peer_id@, service_name.view_of());
        assert forall|j: int| 0 <= j < v.len() implies is_label(#[trigger] v[j]) by {
            if j > 0 {
                assert(v[j] == service_name.view_of()[j - 1]);
                assert(is_label(service_name.view_of()[j - 1]));
            }
        }
    }
    r
}

/// The per-port host name `<peer>-<port>.local.`.
pub fn make_target_name(peer_id: &Vec<u8>, port: u16) -> (r: DnsName)
    requires
        is_valid_peer_id(peer_id@),
    ensures
        r.wf(),
        r.view_of() == seq![peer_id@ + seq![DASH_BYTE] + port_decimal(port), local_label()],
{
    let mut first = peer_id.clone();
    proof {
        assert(first@ =~= peer_id@);
    }
    first.push(DASH_BYTE);
    push_port_decimal(&mut first, port);
    let mut labels: Vec<Vec<u8>> = Vec::new();
    labels.push(first);
    labels.push(make_local_label());
    let r = DnsName { labels };
    proof {
        lemma_decimal_len(port as int);
        let h = peer_id@ + seq![DASH_BYTE] + port_decimal(port);
        assert(peer_id@.push(DASH_BYTE) =~= peer_id@ + seq![DASH_BYTE]);
        let v = seq![h, local_label()];
        assert(r.view_of() =~= v);
        assert(is_label(h)) by {
            assert(h.len() <= PEER_ID_MAX + 1 + 5);
            assert forall|k: int| 0 <= k < h.len() implies h[k] != DOT_BYTE by {
                if k < peer_id@.len() {
                    assert(h[k] == peer_id@[k]);
                } else if k == peer_id@.len() {
                    assert(h[k] == DASH_BYTE);
                } else {
                    assert(h[k] == port_decimal(port)[k - peer_id@.len() - 1]);
                    if port == 0 {
                    } else {
                        assert(0x30 <= port_decimal(port)[k - peer_id@.len() - 1] <= 0x39);
                    }
                }
            }
        }
        assert(is_label(local_label()));
        lemma_wire_len2(h, local_label());
        assert(labels_wire_len(v) == 2 + h.len() + 5);
    }
    r
}

/// Decimal forms are short and hold digit bytes only: one digit per power
/// of ten, so a port needs at most five.
pub proof fn lemma_decimal_props(n: int)
    requires
        0 <= n,
    ensures
        n < 10 ==> decimal_of(n).len() <= 1,
        n < 100 ==> decimal_of(n).len() <= 2,
        n < 1000 ==> decimal_of(n).len() <= 3,
        n < 10000 ==> decimal_of(n).len() <= 4,
        n < 100000 ==> decimal_of(n).len() <= 5,
        n > 0 ==> decimal_of(n).len() >= 1,
        forall|i: int|
            0 <= i < decimal_of(n).len() ==> 0x30 <= #[trigger] decimal_of(n)[i] <= 0x39,
    decreases n,
{
    if n > 0 {
        lemma_decimal_props(n / 10);
    }
}

/// A port's decimal form has one to five digits, all digit bytes.
pub proof fn lemma_decimal_len(n: int)
    requires
        0 <= n <= 65535,
    ensures
        n > 0 ==> 1 <= decimal_of(n).len() <= 5,
        forall|i: int|
            0 <= i < decimal_of(n).len() ==> 0x30 <= #[trigger] decimal_of(n)[i] <= 0x39,
{
    lemma_decimal_props(n);
}

} // verus!
