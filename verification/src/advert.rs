//! The node's own advertisement: the `(address, port)` pairs and TXT
//! attributes it answers queries with.
//!
//! The advertisement mirrors a map entry: it is either absent — the node
//! does not announce itself — or present with a pair set and an attribute
//! map.  Removing everything makes it absent; adding addresses or setting
//! an attribute creates it again.

use crate::addr::{
    insert_pair, keeps_addr, keeps_port, lemma_filter_idempotent, lemma_filter_sorted,
    remove_addr_pairs, remove_port_pairs, strictly_sorted, IpAddr,
};
use crate::txt::{opt_bytes_view, TxtMap};
use vstd::prelude::*;

verus! {

/// What the local node advertises.
pub struct LocalAdvertisement {
    /// Whether the node announces itself at all.
    pub present: bool,
    /// Advertised pairs, strictly increasing.
    pub addrs: Vec<(IpAddr, u16)>,
    /// Advertised TXT attributes.
    pub txt: TxtMap,
}

/// The pairs that survive dropping a port.
pub open spec fn spec_remove_port(s: Seq<(IpAddr, u16)>, port: u16) -> Seq<(IpAddr, u16)> {
    s.filter(keeps_port(port))
}

/// The pairs that survive dropping an address.
pub open spec fn spec_remove_addr(s: Seq<(IpAddr, u16)>, addr: IpAddr) -> Seq<(IpAddr, u16)> {
    s.filter(keeps_addr(addr))
}

impl LocalAdvertisement {
    /// Well-formed: ordered unique pairs, unique attribute keys, and an
    /// absent advertisement holds nothing.
    pub open spec fn wf(self) -> bool {
        &&& strictly_sorted(self.addrs@)
        &&& self.txt.wf()
        &&& !self.present ==> self.addrs@.len() == 0 && self.txt.pairs_view().len() == 0
    }

    /// An absent advertisement: the node starts silent.
    pub fn new() -> (r: Self)
        ensures
            r.wf(),
            !r.present,
    {
        LocalAdvertisement { present: false, addrs: Vec::new(), txt: TxtMap::new() }
    }

    /// Drops the whole advertisement; the node stops announcing itself.
    pub fn remove_all(&mut self)
        ensures
            final(self).wf(),
            !final(self).present,
    {
        self.present = false;
        self.addrs = Vec::new();
        self.txt = TxtMap::new();
    }

    /// Drops every pair with the given port.  Presence and attributes stay.
    pub fn remove_port(&mut self, port: u16)
        requires
            old(self).wf(),
        ensures
            final(self).wf(),
            final(self).present == old(self).present,
            final(self).addrs@ == spec_remove_port(old(self).addrs@, port),
            final(self).txt == old(self).txt,
    {
        if self.present {
            let filtered = remove_port_pairs(&self.addrs, port);
            proof {
                lemma_filter_sorted(self.addrs@, keeps_port(port));
            }
            self.addrs = filtered;
        } else {
            proof {
                assert(spec_remove_port(self.addrs@, port) =~= self.addrs@);
            }
        }
    }

    /// Drops every pair with the given address.  Presence and attributes
    /// stay.
    pub fn remove_addr(&mut self, addr: IpAddr)
        requires
            old(self).wf(),
        ensures
            final(self).wf(),
            final(self).present == old(self).present,
            final(self).addrs@ == spec_remove_addr(old(self).addrs@, addr),
            final(self).txt == old(self).txt,
    {
        if self.present {
            let filtered = remove_addr_pairs(&self.addrs, addr);
            proof {
                lemma_filter_sorted(self.addrs@, keeps_addr(addr));
            }
            self.addrs = filtered;
        } else {
            proof {
                assert(spec_remove_addr(self.addrs@, addr) =~= self.addrs@);
            }
        }
    }

    /// Adds one port with a list of addresses; duplicates fold away and the
    /// pair set stays ordered.  The advertisement becomes present.
    pub fn add(&mut self, port: u16, addrs: &Vec<IpAddr>)
        requires
            old(self).wf(),
        ensures
            final(self).wf(),
            final(self).present,
            final(self).addrs@.to_set() == old(self).addrs@.to_set().union(
                addrs@.map_values(|a: IpAddr| (a, port)).to_set(),
            ),
            final(self).txt == old(self).txt,
    {
        self.present = true;
        let mut i: usize = 0;
        while i < addrs.len()
            invariant
                i <= addrs@.len(),
                strictly_sorted(self.addrs@),
                self.txt == old(self).txt,
                self.present,
                self.addrs@.to_set() == old(self).addrs@.to_set().union(
                    addrs@.map_values(|a: IpAddr| (a, port)).take(i as int).to_set(),
                ),
            decreases addrs@.len() - i,
        {
            let a = addrs[i];
            insert_pair(&mut self.addrs, (a, port));
            proof {
                let m = addrs@.map_values(|x: IpAddr| (x, port));
                assert(m.take(i as int).push(m[i as int]) =~= m.take(i + 1));
                assert(m.take(i + 1).to_set() =~= m.take(i as int).to_set().insert(m[i as int]))
                    by {
                    assert forall|q: (IpAddr, u16)|
                        m.take(i + 1).to_set().contains(q) implies m.take(i as int)
                        .to_set().insert(m[i as int]).contains(q) by {
                        let j = choose|j: int|
                            0 <= j < m.take(i + 1).len() && #[trigger] m.take(i + 1)[j] == q;
                        if j < i {
                            assert(m.take(i as int)[j] == q);
                        }
                    }
                    assert forall|q: (IpAddr, u16)|
                        m.take(i as int).to_set().insert(m[i as int]).contains(
                            q,
                        ) implies m.take(i + 1).to_set().contains(q) by {
                        if q == m[i as int] {
                            assert(m.take(i + 1)[i as int] == q);
                        } else {
                            let j = choose|j: int|
                                0 <= j < m.take(i as int).len() && m.take(i as int)[j] == q;
                            assert(m.take(i + 1)[j] == q);
                        }
                    }
                }
                assert(self.addrs@.to_set() =~= old(self).addrs@.to_set().union(
                    m.take(i + 1).to_set(),
                ));
            }
            i += 1;
        }
        proof {
            let m = addrs@.map_values(|x: IpAddr| (x, port));
            assert(m.take(m.len() as int) =~= m);
        }
    }

    /// Sets one TXT attribute.  The advertisement becomes present.
    pub fn set_txt(&mut self, key: Vec<u8>, value: Option<Vec<u8>>)
        requires
            old(self).wf(),
        ensures
            final(self).wf(),
            final(self).present,
            final(self).addrs@ == old(self).addrs@,
            final(self).txt.spec_get(key@) == Some(opt_bytes_view(value)),
            forall|k: Seq<u8>|
                k != key@ ==> final(self).txt.spec_get(k) == old(self).txt.spec_get(k),
            final(self).txt.view_of() == crate::txt::vinsert(
                old(self).txt.view_of(),
                key@,
                opt_bytes_view(value),
            ),
    {
        self.present = true;
        self.txt.insert(key, value);
    }

    /// Removes one TXT attribute.  An absent advertisement stays absent and
    /// unchanged.
    pub fn remove_txt(&mut self, key: &Vec<u8>)
        requires
            old(self).wf(),
        ensures
            final(self).wf(),
            final(self).present == old(self).present,
            final(self).addrs@ == old(self).addrs@,
            final(self).txt.spec_get(key@) is None,
            forall|k: Seq<u8>|
                k != key@ ==> final(self).txt.spec_get(k) == old(self).txt.spec_get(k),
            old(self).txt.spec_get(key@) is None ==> final(self).txt.pairs_view() == old(
                self,
            ).txt.pairs_view(),
    {
        if self.present {
            self.txt.remove(key);
        } else {
            proof {
                crate::txt::lemma_assoc_get_absent(self.txt.pairs_view(), key@);
            }
        }
    }
}

/// Dropping a port twice leaves the same pair set as dropping it once.
pub proof fn lemma_remove_port_idempotent(s: Seq<(IpAddr, u16)>, port: u16)
    ensures
        spec_remove_port(spec_remove_port(s, port), port) == spec_remove_port(s, port),
{
    lemma_filter_idempotent(s, keeps_port(port));
}

/// Dropping an address twice leaves the same pair set as dropping it once.
pub proof fn lemma_remove_addr_idempotent(s: Seq<(IpAddr, u16)>, addr: IpAddr)
    ensures
        spec_remove_addr(spec_remove_addr(s, addr), addr) == spec_remove_addr(s, addr),
{
    lemma_filter_idempotent(s, keeps_addr(addr));
}

} // verus!
