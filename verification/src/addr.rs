//! IP addresses and advertised `(address, port)` pairs.
//!
//! Addresses are held as plain integers: 32 bits for IPv4, 128 bits for
//! IPv6.  Advertised pairs are kept in a strictly increasing vector, which
//! makes the pair set canonical: equal sets have equal vectors.

use vstd::prelude::*;

verus! {

/// An IP address, IPv4 or IPv6, in network byte order packed into an integer.
#[derive(Clone, Copy, Debug, PartialEq, Eq, Structural)]
pub enum IpAddr {
    V4(u32),
    V6(u128),
}

impl IpAddr {
    /// Returns `true` for an IPv4 address.
    pub fn is_v4(self) -> (r: bool)
        ensures
            r == self is V4,
    {
        matches!(self, IpAddr::V4(_))
    }
}

/// Strict order on addresses: every IPv4 address before every IPv6 address,
/// numeric order within a family.
pub open spec fn ip_lt(a: IpAddr, b: IpAddr) -> bool {
    match (a, b) {
        (IpAddr::V4(x), IpAddr::V4(y)) => x < y,
        (IpAddr::V4(_), IpAddr::V6(_)) => true,
        (IpAddr::V6(_), IpAddr::V4(_)) => false,
        (IpAddr::V6(x), IpAddr::V6(y)) => x < y,
    }
}

/// Strict order on `(address, port)` pairs: by address, then by port.
pub open spec fn pair_lt(a: (IpAddr, u16), b: (IpAddr, u16)) -> bool {
    ip_lt(a.0, b.0) || (a.0 == b.0 && a.1 < b.1)
}

/// The order is total: of two distinct pairs one is smaller.
pub proof fn lemma_pair_order_total(a: (IpAddr, u16), b: (IpAddr, u16))
    ensures
        a == b <==> (!pair_lt(a, b) && !pair_lt(b, a)),
        !(pair_lt(a, b) && pair_lt(b, a)),
{
}

/// A strictly increasing pair sequence: sorted and free of duplicates.
pub open spec fn strictly_sorted(s: Seq<(IpAddr, u16)>) -> bool {
    forall|i: int, j: int| 0 <= i < j < s.len() ==> pair_lt(s[i], s[j])
}

/// Decides `pair_lt` on concrete pairs.
pub fn pair_before(a: &(IpAddr, u16), b: &(IpAddr, u16)) -> (r: bool)
    ensures
        r == pair_lt(*a, *b),
{
    match (a.0, b.0) {
        (IpAddr::V4(x), IpAddr::V4(y)) => x < y || (x == y && a.1 < b.1),
        (IpAddr::V4(_), IpAddr::V6(_)) => true,
        (IpAddr::V6(_), IpAddr::V4(_)) => false,
        (IpAddr::V6(x), IpAddr::V6(y)) => x < y || (x == y && a.1 < b.1),
    }
}

/// Inserts a pair into a strictly increasing vector, keeping it strictly
/// increasing; a pair already present is not duplicated.
pub fn insert_pair(v: &mut Vec<(IpAddr, u16)>, p: (IpAddr, u16))
    requires
        strictly_sorted(old(v)@),
    ensures
        strictly_sorted(final(v)@),
        final(v)@.to_set() == old(v)@.to_set().insert(p),
{
    let mut i: usize = 0;
    while i < v.len() && pair_before(&v[i], &p)
        invariant
            strictly_sorted(v@),
            i <= v.len(),
            v@ == old(v)@,
            forall|k: int| 0 <= k < i ==> pair_lt(v@[k], p),
        decreases v.len() - i,
    {
        i += 1;
    }
    if i < v.len() {
        let c = v[i];
        if c.0 == p.0 && c.1 == p.1 {
            proof {
                assert(v@.to_set().contains(p)) by {
                    assert(v@[i as int] == p);
                }
                assert(v@.to_set() =~= old(v)@.to_set().insert(p));
            }
            return ;
        }
    }
    v.insert(i, p);
    proof {
        let s = old(v)@;
        let t = v@;
        assert forall|a: int, b: int| 0 <= a < b < t.len() implies pair_lt(t[a], t[b]) by {
            lemma_pair_order_total(s[i as int], p);
            if a < i && b == i {
                assert(t[a] == s[a]);
            } else if a == i && b > i {
                assert(t[b] == s[b - 1]);
                if i < s.len() && b - 1 > i {
                    assert(pair_lt(s[i as int], s[b - 1]));
                }
            } else if a < i && b > i {
                assert(t[a] == s[a] && t[b] == s[b - 1]);
            } else if a > i && b > i {
                assert(t[a] == s[a - 1] && t[b] == s[b - 1]);
            }
        }
        assert(t.to_set() =~= s.to_set().insert(p)) by {
            assert forall|q: (IpAddr, u16)| t.to_set().contains(q) implies s.to_set().insert(
                p,
            ).contains(q) by {
                let k = choose|k: int| 0 <= k < t.len() && t[k] == q;
                if k < i {
                    assert(s[k] == q);
                } else if k == i {
                } else {
                    assert(s[k - 1] == q);
                }
            }
            assert forall|q: (IpAddr, u16)| s.to_set().insert(p).contains(q) implies t.to_set()
                .contains(q) by {
                if q == p {
                    assert(t[i as int] == q);
                } else {
                    let k = choose|k: int| 0 <= k < s.len() && s[k] == q;
                    if k < i {
                        assert(t[k] == q);
                    } else {
                        assert(t[k + 1] == q);
                    }
                }
            }
        }
    }
}

/// The predicate that survives dropping a port.
pub open spec fn keeps_port(port: u16) -> spec_fn((IpAddr, u16)) -> bool {
    |p: (IpAddr, u16)| p.1 != port
}

/// The predicate that survives dropping an address.
pub open spec fn keeps_addr(addr: IpAddr) -> spec_fn((IpAddr, u16)) -> bool {
    |p: (IpAddr, u16)| p.0 != addr
}

/// Keeps the pairs whose port differs from `port`; the result is the input
/// filtered by `pair.1 != port`.
pub fn remove_port_pairs(v: &Vec<(IpAddr, u16)>, port: u16) -> (r: Vec<(IpAddr, u16)>)
    ensures
        r@ == v@.filter(keeps_port(port)),
{
    let mut r: Vec<(IpAddr, u16)> = Vec::new();
    let mut i: usize = 0;
    proof {
        assert(v@.subrange(0, 0) =~= Seq::<(IpAddr, u16)>::empty());
        reveal(Seq::filter);
    }
    while i < v.len()
        invariant
            i <= v.len(),
            r@ == v@.subrange(0, i as int).filter(keeps_port(port)),
        decreases v.len() - i,
    {
        let p = v[i];
        proof {
            lemma_filter_push(v@.subrange(0, i as int), keeps_port(port), p);
            assert(v@.subrange(0, i as int).push(p) =~= v@.subrange(0, i + 1));
        }
        if p.1 != port {
            r.push(p);
        }
        i += 1;
    }
    proof {
        assert(v@.subrange(0, v@.len() as int) =~= v@);
    }
    r
}

/// Keeps the pairs whose address differs from `addr`; the result is the
/// input filtered by `pair.0 != addr`.
pub fn remove_addr_pairs(v: &Vec<(IpAddr, u16)>, addr: IpAddr) -> (r: Vec<(IpAddr, u16)>)
    ensures
        r@ == v@.filter(keeps_addr(addr)),
{
    let mut r: Vec<(IpAddr, u16)> = Vec::new();
    let mut i: usize = 0;
    proof {
        assert(v@.subrange(0, 0) =~= Seq::<(IpAddr, u16)>::empty());
        reveal(Seq::filter);
    }
    while i < v.len()
        invariant
            i <= v.len(),
            r@ == v@.subrange(0, i as int).filter(keeps_addr(addr)),
        decreases v.len() - i,
    {
        let p = v[i];
        proof {
            lemma_filter_push(v@.subrange(0, i as int), keeps_addr(addr), p);
            assert(v@.subrange(0, i as int).push(p) =~= v@.subrange(0, i + 1));
        }
        if !(p.0 == addr) {
            r.push(p);
        }
        i += 1;
    }
    proof {
        assert(v@.subrange(0, v@.len() as int) =~= v@);
    }
    r
}

/// Filtering commutes with push, one element at a time.
pub proof fn lemma_filter_push<A>(s: Seq<A>, pred: spec_fn(A) -> bool, x: A)
    ensures
        s.push(x).filter(pred) == if pred(x) {
            s.filter(pred).push(x)
        } else {
            s.filter(pred)
        },
{
    reveal(Seq::filter);
    assert(s.push(x).drop_last() =~= s);
    assert(s.push(x).last() == x);
}

/// A filter keeps only elements that satisfy the predicate...
pub proof fn lemma_filter_keeps_pred<A>(s: Seq<A>, pred: spec_fn(A) -> bool)
    ensures
        forall|i: int| 0 <= i < s.filter(pred).len() ==> pred(#[trigger] s.filter(pred)[i]),
    decreases s.len(),
{
    reveal(Seq::filter);
    if s.len() > 0 {
        lemma_filter_keeps_pred(s.drop_last(), pred);
    }
}

/// ... so filtering a second time changes nothing.
pub proof fn lemma_filter_idempotent<A>(s: Seq<A>, pred: spec_fn(A) -> bool)
    ensures
        s.filter(pred).filter(pred) == s.filter(pred),
    decreases s.len(),
{
    reveal(Seq::filter);
    if s.len() == 0 {
        assert(s.filter(pred) =~= s);
    } else {
        lemma_filter_idempotent(s.drop_last(), pred);
        lemma_filter_keeps_pred(s.drop_last(), pred);
        if pred(s.last()) {
            lemma_filter_push(s.drop_last().filter(pred), pred, s.last());
            assert(s.drop_last().push(s.last()) =~= s);
        }
    }
}

/// Every element of a filtered sequence occurs in the original.
pub proof fn lemma_filter_subset<A>(s: Seq<A>, pred: spec_fn(A) -> bool)
    ensures
        forall|x: A| s.filter(pred).contains(x) ==> s.contains(x),
    decreases s.len(),
{
    reveal(Seq::filter);
    if s.len() > 0 {
        lemma_filter_subset(s.drop_last(), pred);
        assert forall|x: A| s.filter(pred).contains(x) implies s.contains(x) by {
            if s.drop_last().contains(x) {
                let k = choose|k: int| 0 <= k < s.drop_last().len() && s.drop_last()[k] == x;
                assert(s[k] == x);
            } else {
                assert(x == s.last());
                assert(s[s.len() - 1] == x);
            }
        }
    }
}

/// Filtering a strictly increasing sequence keeps it strictly increasing.
pub proof fn lemma_filter_sorted(s: Seq<(IpAddr, u16)>, pred: spec_fn((IpAddr, u16)) -> bool)
    requires
        strictly_sorted(s),
    ensures
        strictly_sorted(s.filter(pred)),
    decreases s.len(),
{
    reveal(Seq::filter);
    if s.len() > 0 {
        assert(strictly_sorted(s.drop_last()));
        lemma_filter_sorted(s.drop_last(), pred);
        if pred(s.last()) {
            let f = s.drop_last().filter(pred);
            let g = f.push(s.last());
            assert(s.filter(pred) == g);
            lemma_filter_subset(s.drop_last(), pred);
            assert forall|i: int, j: int| 0 <= i < j < g.len() implies pair_lt(g[i], g[j]) by {
                if j == f.len() {
                    assert(f.contains(f[i]));
                    assert(s.drop_last().contains(f[i]));
                    let k = choose|k: int|
                        0 <= k < s.drop_last().len() && s.drop_last()[k] == f[i];
                    assert(pair_lt(s[k], s[s.len() - 1]));
                } else {
                }
            }
        }
    }
}

} // verus!
