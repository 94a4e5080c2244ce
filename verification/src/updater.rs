//! The peer book: every peer observed on the link, merged from responses
//! and garbage-collected when silent for too long.
//!
//! The book associates peer identities with their latest snapshot.  A
//! response overwrites the snapshot; a peer that stays silent for three
//! expected reappearance intervals is removed, and its removal is reported
//! exactly once with a tombstone — the same identity and timestamp with an
//! empty address set.

use crate::addr::{lemma_filter_keeps_pred, lemma_filter_push, lemma_filter_subset};
use crate::timing::spec_gc_grace;
use crate::txt::TxtMap;
use crate::Peer;
use vstd::prelude::*;

verus! {

/// An entry of the book: a peer identity and its latest snapshot.
pub type BookEntry = (Vec<u8>, Peer);

/// A message for the book keeper: observed peers to merge, or the
/// periodic garbage-collection tick.
pub enum Input {
    /// Peers observed in a response.
    Peers(Vec<BookEntry>),
    /// Time to drop peers that have stayed silent too long.
    GC,
}

/// Identity uniqueness of a book sequence.
pub open spec fn ids_unique(s: Seq<BookEntry>) -> bool {
    forall|i: int, j: int| 0 <= i < j < s.len() ==> s[i].0@ != s[j].0@
}

/// Looks an identity up in a book sequence.
pub open spec fn book_get(s: Seq<BookEntry>, k: Seq<u8>) -> Option<Peer>
    decreases s.len(),
{
    if s.len() == 0 {
        None
    } else if s[0].0@ == k {
        Some(s[0].1)
    } else {
        book_get(s.drop_first(), k)
    }
}

/// Index of the first entry holding an identity; the length when there is
/// none.
pub open spec fn first_id_index(s: Seq<BookEntry>, k: Seq<u8>) -> int
    decreases s.len(),
{
    if s.len() == 0 {
        0
    } else if s[0].0@ == k {
        0
    } else {
        1 + first_id_index(s.drop_first(), k)
    }
}

/// Whether an identity occurs in a book sequence.
pub open spec fn has_id(s: Seq<BookEntry>, k: Seq<u8>) -> bool {
    exists|i: int| 0 <= i < s.len() && s[i].0@ == k
}

/// Inserting one entry: the first entry with the same identity is
/// overwritten, a fresh identity is appended.
pub open spec fn book_insert(s: Seq<BookEntry>, e: BookEntry) -> Seq<BookEntry> {
    if has_id(s, e.0@) {
        s.update(first_id_index(s, e.0@), e)
    } else {
        s.push(e)
    }
}

/// The book after absorbing a sequence of observed entries, first first.
pub open spec fn book_absorb(s: Seq<BookEntry>, observed: Seq<BookEntry>) -> Seq<BookEntry>
    decreases observed.len(),
{
    if observed.len() == 0 {
        s
    } else {
        book_absorb(book_insert(s, observed[0]), observed.drop_first())
    }
}

/// `first_id_index` points at the first entry with the identity.
pub proof fn lemma_first_id_index(s: Seq<BookEntry>, k: Seq<u8>)
    ensures
        0 <= first_id_index(s, k) <= s.len(),
        first_id_index(s, k) < s.len() ==> s[first_id_index(s, k)].0@ == k,
        forall|j: int| 0 <= j < first_id_index(s, k) ==> s[j].0@ != k,
        has_id(s, k) <==> first_id_index(s, k) < s.len(),
    decreases s.len(),
{
    if s.len() > 0 && s[0].0@ != k {
        lemma_first_id_index(s.drop_first(), k);
        assert forall|j: int| 0 <= j < first_id_index(s, k) implies s[j].0@ != k by {
            if j > 0 {
                assert(s.drop_first()[j - 1] == s[j]);
            }
        }
        if first_id_index(s, k) < s.len() {
            assert(s.drop_first()[first_id_index(s.drop_first(), k)] == s[first_id_index(s, k)]);
        }
        assert(has_id(s, k) <==> first_id_index(s, k) < s.len()) by {
            if has_id(s, k) {
                let i = choose|i: int| 0 <= i < s.len() && s[i].0@ == k;
                assert(s.drop_first()[i - 1] == s[i]);
                assert(has_id(s.drop_first(), k));
            }
            if has_id(s.drop_first(), k) {
                let i = choose|i: int|
                    0 <= i < s.drop_first().len() && s.drop_first()[i].0@ == k;
                assert(s[i + 1] == s.drop_first()[i]);
                assert(has_id(s, k));
            }
        }
    }
}

/// Inserting keeps identities unique.
pub proof fn lemma_book_insert_unique(s: Seq<BookEntry>, e: BookEntry)
    requires
        ids_unique(s),
    ensures
        ids_unique(book_insert(s, e)),
{
    lemma_first_id_index(s, e.0@);
    let t = book_insert(s, e);
    if has_id(s, e.0@) {
        let i = first_id_index(s, e.0@);
        assert forall|a: int, b: int| 0 <= a < b < t.len() implies t[a].0@ != t[b].0@ by {
            if a != i && b != i {
                assert(t[a] == s[a] && t[b] == s[b]);
            } else if a == i {
                assert(t[b] == s[b]);
                assert(s[b].0@ != s[i].0@);
            } else {
                assert(t[a] == s[a]);
                assert(s[a].0@ != s[i].0@);
            }
        }
    } else {
        assert forall|a: int, b: int| 0 <= a < b < t.len() implies t[a].0@ != t[b].0@ by {
            if b < s.len() {
                assert(t[a] == s[a] && t[b] == s[b]);
            } else {
                assert(t[a] == s[a]);
                assert(!(exists|i: int| 0 <= i < s.len() && s[i].0@ == e.0@));
            }
        }
    }
}

/// Absorbing one more entry extends the fold by one insertion.
pub proof fn lemma_book_absorb_snoc(s: Seq<BookEntry>, observed: Seq<BookEntry>, e: BookEntry)
    ensures
        book_absorb(s, observed.push(e)) == book_insert(book_absorb(s, observed), e),
    decreases observed.len(),
{
    let t = observed.push(e);
    if observed.len() == 0 {
        assert(t[0] == e);
        assert(t.drop_first() =~= Seq::<BookEntry>::empty());
        assert(book_absorb(s, t) == book_absorb(book_insert(s, e), t.drop_first()));
        assert(book_absorb(book_insert(s, e), t.drop_first()) == book_insert(s, e));
        assert(book_absorb(s, observed) == s);
    } else {
        assert(t[0] == observed[0]);
        assert(t.drop_first() =~= observed.drop_first().push(e));
        lemma_book_absorb_snoc(book_insert(s, observed[0]), observed.drop_first(), e);
        assert(book_absorb(s, t) == book_absorb(book_insert(s, t[0]), t.drop_first()));
        assert(book_absorb(s, observed) == book_absorb(
            book_insert(s, observed[0]),
            observed.drop_first(),
        ));
    }
}

/// The peer book.
pub struct PeerBook {
    /// The entries, in the order the identities first appeared.
    pub entries: Vec<BookEntry>,
}

impl PeerBook {
    /// Well-formed: no identity occurs twice.
    pub open spec fn wf(self) -> bool {
        ids_unique(self.entries@)
    }

    /// The snapshot stored under an identity.
    pub open spec fn spec_get(self, k: Seq<u8>) -> Option<Peer> {
        book_get(self.entries@, k)
    }

    /// An empty book.
    pub fn new() -> (r: Self)
        ensures
            r.wf(),
            r.entries@.len() == 0,
    {
        PeerBook { entries: Vec::new() }
    }

    /// The number of peers in the book.
    pub fn len(&self) -> (r: usize)
        ensures
            r == self.entries@.len(),
    {
        self.entries.len()
    }

    /// The entry at an index, for walking the book.
    pub fn entry_at(&self, i: usize) -> (r: &BookEntry)
        requires
            i < self.entries@.len(),
        ensures
            *r == self.entries@[i as int],
    {
        &self.entries[i]
    }

    /// Records one observed peer: the stored snapshot is overwritten or,
    /// for a peer never seen before, appended.  Reports whether the peer
    /// was new — the caller then publishes the new book size.
    pub fn record_peer(&mut self, id: Vec<u8>, peer: Peer) -> (was_new: bool)
        requires
            old(self).wf(),
        ensures
            final(self).wf(),
            final(self).entries@ == book_insert(old(self).entries@, (id, peer)),
            was_new == !has_id(old(self).entries@, id@),
            final(self).entries@.len() == old(self).entries@.len() + (if was_new {
                1int
            } else {
                0int
            }),
    {
        proof {
            lemma_first_id_index(self.entries@, id@);
            lemma_book_insert_unique(self.entries@, (id, peer));
        }
        let mut i: usize = 0;
        while i < self.entries.len()
            invariant
                i <= self.entries@.len(),
                forall|j: int| 0 <= j < i ==> self.entries@[j].0@ != id@,
                self.entries@ == old(self).entries@,
                ids_unique(old(self).entries@),
            decreases self.entries@.len() - i,
        {
            if crate::txt::bytes_eq(&self.entries[i].0, &id) {
                proof {
                    assert(first_id_index(self.entries@, id@) == i as int) by {
                        lemma_first_id_index(self.entries@, id@);
                    }
                    assert(has_id(self.entries@, id@)) by {
                        assert(self.entries@[i as int].0@ == id@);
                    }
                }
                self.entries[i] = (id, peer);
                proof {
                    lemma_book_insert_unique(old(self).entries@, (id, peer));
                    assert(self.entries@ == book_insert(old(self).entries@, (id, peer)));
                    assert(ids_unique(self.entries@));
                }
                return false;
            }
            i += 1;
        }
        proof {
            assert(!has_id(self.entries@, id@));
        }
        self.entries.push((id, peer));
        true
    }

    /// Absorbs a whole observed peer set in order.  The result lists the
    /// book size after each peer that was new, for the size subscribers.
    pub fn apply_response(&mut self, observed: Vec<BookEntry>) -> (news: Vec<u64>)
        requires
            old(self).wf(),
        ensures
            final(self).wf(),
            final(self).entries@ == book_absorb(old(self).entries@, observed@),
            news@.len() <= observed@.len(),
    {
        let ghost obs = observed@;
        let mut news: Vec<u64> = Vec::new();
        let mut rest = observed;
        let ghost mut i: int = 0;
        proof {
            assert(book_absorb(old(self).entries@, obs.take(0)) == old(self).entries@) by {
                assert(obs.take(0) =~= Seq::<BookEntry>::empty());
            }
            assert(rest@ =~= obs.subrange(0, obs.len() as int));
        }
        while rest.len() > 0
            invariant
                0 <= i <= obs.len(),
                rest@ == obs.subrange(i, obs.len() as int),
                self.wf(),
                self.entries@ == book_absorb(old(self).entries@, obs.take(i)),
                news@.len() <= i,
            decreases rest@.len(),
        {
            let e = rest.remove(0);
            proof {
                assert(e == obs[i]);
                assert(obs.subrange(i, obs.len() as int).remove(0) =~= obs.subrange(
                    i + 1,
                    obs.len() as int,
                ));
            }
            let (id, peer) = e;
            let was_new = self.record_peer(id, peer);
            proof {
                lemma_book_absorb_snoc(old(self).entries@, obs.take(i), obs[i]);
                assert(obs.take(i).push(obs[i]) =~= obs.take(i + 1));
            }
            if was_new {
                news.push(self.entries.len() as u64);
            }
            proof {
                i = i + 1;
            }
        }
        proof {
            assert(obs.take(obs.len() as int) =~= obs);
        }
        news
    }

    /// One garbage-collection pass.
    ///
    /// An empty book is left alone.  Otherwise every peer whose snapshot is
    /// at least the grace window old — three expected reappearance
    /// intervals, see [`spec_gc_grace`] — is removed, and for each removed
    /// peer one tombstone is handed back: the same identity and timestamp
    /// with an empty address set and no attributes.  A removed identity is
    /// no longer in the book, so no later pass can tombstone it again.
    pub fn gc_pass(&mut self, now: u64, tau_ns: u64, cutoff: u64) -> (tombstones: Vec<BookEntry>)
        requires
            old(self).wf(),
            cutoff >= 1,
        ensures
            final(self).wf(),
            old(self).entries@.len() == 0 ==> final(self).entries@ == old(self).entries@
                && tombstones@.len() == 0,
            old(self).entries@.len() > 0 ==> final(self).entries@ == old(self).entries@.filter(
                gc_keeps(now, grace_of(tau_ns, cutoff, old(self).entries@.len() as int)),
            ),
            old(self).entries@.len() > 0 ==> tombstones_match(
                tombstones@,
                old(self).entries@.filter(
                    gc_drops(now, grace_of(tau_ns, cutoff, old(self).entries@.len() as int)),
                ),
            ),
            forall|i: int|
                0 <= i < tombstones@.len() ==> book_get(
                    final(self).entries@,
                    #[trigger] tombstones@[i].0@,
                ) is None,
    {
        let n = self.entries.len();
        if n == 0 {
            return Vec::new();
        }
        let grace = crate::timing::gc_grace_ns(tau_ns, cutoff, n as u64);
        let ghost s = self.entries@;
        let ghost keeps = gc_keeps(now, grace);
        let ghost drops = gc_drops(now, grace);
        let mut rest: Vec<BookEntry> = Vec::new();
        core::mem::swap(&mut self.entries, &mut rest);
        let mut kept: Vec<BookEntry> = Vec::new();
        let mut tombs: Vec<BookEntry> = Vec::new();
        let ghost mut i: int = 0;
        proof {
            assert(rest@ =~= s.subrange(0, s.len() as int));
            assert(s.take(0) =~= Seq::<BookEntry>::empty());
            reveal(Seq::filter);
        }
        while rest.len() > 0
            invariant
                0 <= i <= s.len(),
                rest@ == s.subrange(i, s.len() as int),
                kept@ == s.take(i).filter(keeps),
                tombs@.len() == s.take(i).filter(drops).len(),
                tombstones_match(tombs@, s.take(i).filter(drops)),
                keeps == gc_keeps(now, grace),
                drops == gc_drops(now, grace),
            decreases rest@.len(),
        {
            let e = rest.remove(0);
            proof {
                assert(e == s[i]);
                assert(s.subrange(i, s.len() as int).remove(0) =~= s.subrange(
                    i + 1,
                    s.len() as int,
                ));
                lemma_filter_push(s.take(i), keeps, s[i]);
                lemma_filter_push(s.take(i), drops, s[i]);
                assert(s.take(i).push(s[i]) =~= s.take(i + 1));
            }
            let age = if now >= e.1.last_seen {
                now - e.1.last_seen
            } else {
                0
            };
            if age < grace {
                kept.push(e);
            } else {
                let tomb = Peer { addrs: Vec::new(), last_seen: e.1.last_seen, txt: TxtMap::new() };
                tombs.push((e.0, tomb));
            }
            proof {
                i = i + 1;
            }
        }
        proof {
            assert(s.take(s.len() as int) =~= s);
        }
        core::mem::swap(&mut self.entries, &mut kept);
        proof {
            lemma_filter_ids_unique(s, keeps);
            lemma_filter_ids_unique(s, drops);
            lemma_gc_removed_gone(s, now, grace);
            assert forall|j: int|
                0 <= j < tombs@.len() implies book_get(
                self.entries@,
                #[trigger] tombs@[j].0@,
            ) is None by {
                assert(tombs@[j].0@ == s.filter(drops)[j].0@);
            }
        }
        tombs
    }
}

/// Age of a snapshot at a clock reading; readings older than the snapshot
/// count as age zero.
pub open spec fn spec_age(now: u64, last_seen: u64) -> int {
    if now >= last_seen {
        now - last_seen
    } else {
        0
    }
}

/// The grace window for a book of `n` peers, as a clamped duration.
pub open spec fn grace_of(tau_ns: u64, cutoff: u64, n: int) -> u64 {
    spec_gc_grace(tau_ns, cutoff, n as u64) as u64
}

/// The predicate that survives a garbage-collection pass.
pub open spec fn gc_keeps(now: u64, grace: u64) -> spec_fn(BookEntry) -> bool {
    |e: BookEntry| spec_age(now, e.1.last_seen) < grace
}

/// The predicate that a garbage-collection pass removes.
pub open spec fn gc_drops(now: u64, grace: u64) -> spec_fn(BookEntry) -> bool {
    |e: BookEntry| !(spec_age(now, e.1.last_seen) < grace)
}

/// Each tombstone mirrors its removed entry: same identity, same
/// timestamp, empty address set, no attributes.
pub open spec fn tombstones_match(tombs: Seq<BookEntry>, removed: Seq<BookEntry>) -> bool {
    &&& tombs.len() == removed.len()
    &&& forall|i: int|
        0 <= i < tombs.len() ==> (#[trigger] tombs[i]).0@ == removed[i].0@
            && tombs[i].1.last_seen == removed[i].1.last_seen && tombs[i].1.addrs@.len() == 0
            && tombs[i].1.txt.pairs_view().len() == 0 && tombs[i].1.wf()
}

/// Without the identity anywhere, the lookup yields `None`.
pub proof fn lemma_book_get_absent(s: Seq<BookEntry>, k: Seq<u8>)
    requires
        forall|i: int| 0 <= i < s.len() ==> s[i].0@ != k,
    ensures
        book_get(s, k) is None,
    decreases s.len(),
{
    if s.len() > 0 {
        assert forall|i: int| 0 <= i < s.drop_first().len() implies s.drop_first()[i].0@ != k by {
            assert(s.drop_first()[i] == s[i + 1]);
        }
        lemma_book_get_absent(s.drop_first(), k);
    }
}

/// Filtering keeps identities unique.
pub proof fn lemma_filter_ids_unique(s: Seq<BookEntry>, pred: spec_fn(BookEntry) -> bool)
    requires
        ids_unique(s),
    ensures
        ids_unique(s.filter(pred)),
    decreases s.len(),
{
    reveal(Seq::filter);
    if s.len() > 0 {
        assert(ids_unique(s.drop_last()));
        lemma_filter_ids_unique(s.drop_last(), pred);
        if pred(s.last()) {
            let f = s.drop_last().filter(pred);
            let g = f.push(s.last());
            assert(s.filter(pred) == g);
            lemma_filter_subset(s.drop_last(), pred);
            assert forall|a: int, b: int| 0 <= a < b < g.len() implies g[a].0@ != g[b].0@ by {
                if b == f.len() {
                    assert(f.contains(f[a]));
                    assert(s.drop_last().contains(f[a]));
                    let m = choose|m: int|
                        0 <= m < s.drop_last().len() && s.drop_last()[m] == f[a];
                    assert(s[m].0@ != s[s.len() - 1].0@);
                } else {
                }
            }
        }
    }
}

/// After a pass, a removed identity is gone from the kept entries.
pub proof fn lemma_gc_removed_gone(s: Seq<BookEntry>, now: u64, grace: u64)
    requires
        ids_unique(s),
    ensures
        forall|j: int|
            0 <= j < s.filter(gc_drops(now, grace)).len() ==> book_get(
                s.filter(gc_keeps(now, grace)),
                #[trigger] s.filter(gc_drops(now, grace))[j].0@,
            ) is None,
{
    let keeps = gc_keeps(now, grace);
    let drops = gc_drops(now, grace);
    let kept = s.filter(keeps);
    let removed = s.filter(drops);
    lemma_filter_subset(s, keeps);
    lemma_filter_subset(s, drops);
    lemma_filter_keeps_pred(s, keeps);
    lemma_filter_keeps_pred(s, drops);
    assert forall|j: int| 0 <= j < removed.len() implies book_get(
        kept,
        #[trigger] removed[j].0@,
    ) is None by {
        let k = removed[j].0@;
        assert(removed.contains(removed[j]));
        assert(s.contains(removed[j]));
        let rj = choose|rj: int| 0 <= rj < s.len() && s[rj] == removed[j];
        assert forall|m: int| 0 <= m < kept.len() implies kept[m].0@ != k by {
            assert(kept.contains(kept[m]));
            assert(s.contains(kept[m]));
            let km = choose|km: int| 0 <= km < s.len() && s[km] == kept[m];
            if km == rj {
                assert(keeps(kept[m]) && drops(removed[j]));
            } else {
                assert(s[km].0@ != s[rj].0@);
            }
        }
        lemma_book_get_absent(kept, k);
    }
}

/// An identity absent from the book is never tombstoned: what a pass
/// removes is drawn from the book's entries alone.
pub proof fn lemma_no_repeat_tombstone(s: Seq<BookEntry>, now: u64, grace: u64, k: Seq<u8>)
    requires
        forall|i: int| 0 <= i < s.len() ==> s[i].0@ != k,
    ensures
        forall|j: int|
            0 <= j < s.filter(gc_drops(now, grace)).len() ==> (#[trigger] s.filter(
                gc_drops(now, grace),
            )[j]).0@ != k,
{
    let removed = s.filter(gc_drops(now, grace));
    lemma_filter_subset(s, gc_drops(now, grace));
    assert forall|j: int| 0 <= j < removed.len() implies (#[trigger] removed[j]).0@ != k by {
        assert(removed.contains(removed[j]));
        assert(s.contains(removed[j]));
        let m = choose|m: int| 0 <= m < s.len() && s[m] == removed[j];
        assert(s[m].0@ != k);
    }
}

} // verus!
