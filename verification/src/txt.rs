//! TXT attributes: an association of byte-string keys with optional
//! byte-string values, and the `key=value` strings that carry them in a DNS
//! TXT record.
//!
//! Keys and values are UTF-8 byte strings and case-sensitive.  A `None`
//! value is a flag: it travels as the bare key, a `Some` value as
//! `key=value`.

use vstd::prelude::*;

verus! {

/// The byte `=`, which separates key from value on the wire.
pub const EQUALS_BYTE: u8 = 0x3d;

/// View of an optional byte string.
pub open spec fn opt_bytes_view(v: Option<Vec<u8>>) -> Option<Seq<u8>> {
    match v {
        Some(b) => Some(b@),
        None => None,
    }
}

/// Looks a key up in an association sequence of attribute pairs.
pub open spec fn assoc_get(s: Seq<(Vec<u8>, Option<Vec<u8>>)>, k: Seq<u8>) -> Option<
    Option<Seq<u8>>,
>
    decreases s.len(),
{
    if s.len() == 0 {
        None
    } else if s[0].0@ == k {
        Some(opt_bytes_view(s[0].1))
    } else {
        assoc_get(s.drop_first(), k)
    }
}

/// Key uniqueness of an association sequence.
pub open spec fn keys_unique(s: Seq<(Vec<u8>, Option<Vec<u8>>)>) -> bool {
    forall|i: int, j: int| 0 <= i < j < s.len() ==> s[i].0@ != s[j].0@
}

/// The TXT attributes of a peer, keyed by unique byte-string keys.
pub struct TxtMap {
    pub pairs: Vec<(Vec<u8>, Option<Vec<u8>>)>,
}

/// Decides equality of two byte strings.
pub fn bytes_eq(a: &Vec<u8>, b: &Vec<u8>) -> (r: bool)
    ensures
        r == (a@ == b@),
{
    let r = a == b;
    proof {
        if r {
            assert(a@ =~= b@);
        } else {
            if a@ == b@ {
                assert(forall|i: int| 0 <= i < a@.len() ==> a@[i] == b@[i]);
                assert(false);
            }
        }
    }
    r
}

impl TxtMap {
    /// Well-formed: no key occurs twice.
    pub open spec fn wf(self) -> bool {
        keys_unique(self.pairs@)
    }

    /// The attribute pairs, in insertion order.
    pub open spec fn pairs_view(self) -> Seq<(Vec<u8>, Option<Vec<u8>>)> {
        self.pairs@
    }

    /// The value stored under a key: `None` when the key is absent,
    /// `Some(None)` for a flag, `Some(Some(v))` for a value.
    pub open spec fn spec_get(self, k: Seq<u8>) -> Option<Option<Seq<u8>>> {
        assoc_get(self.pairs@, k)
    }

    /// The map as a view-level pair sequence.
    pub open spec fn view_of(self) -> Seq<(Seq<u8>, Option<Seq<u8>>)> {
        view_pairs(self.pairs@)
    }

    /// An empty attribute map.
    pub fn new() -> (r: Self)
        ensures
            r.wf(),
            r.pairs_view().len() == 0,
    {
        TxtMap { pairs: Vec::new() }
    }

    /// Number of attributes.
    pub fn len(&self) -> (r: usize)
        ensures
            r == self.pairs_view().len(),
    {
        self.pairs.len()
    }

    /// True if no attribute is set.
    pub fn is_empty(&self) -> (r: bool)
        ensures
            r == (self.pairs_view().len() == 0),
    {
        self.pairs.len() == 0
    }

    /// The pair at an index, for walking the map.
    pub fn pair_at(&self, i: usize) -> (r: &(Vec<u8>, Option<Vec<u8>>))
        requires
            i < self.pairs_view().len(),
        ensures
            *r == self.pairs_view()[i as int],
    {
        &self.pairs[i]
    }

    /// Index of the first pair holding a key, if present.
    fn find(&self, key: &Vec<u8>) -> (r: Option<usize>)
        ensures
            match r {
                Some(i) => i < self.pairs@.len() && self.pairs@[i as int].0@ == key@ && (forall|
                    j: int,
                |
                    0 <= j < i ==> self.pairs@[j].0@ != key@) && self.spec_get(key@) == Some(
                    opt_bytes_view(self.pairs@[i as int].1),
                ),
                None => (forall|i: int| 0 <= i < self.pairs@.len() ==> self.pairs@[i].0@ != key@)
                    && self.spec_get(key@) is None,
            },
    {
        let mut i: usize = 0;
        while i < self.pairs.len()
            invariant
                i <= self.pairs@.len(),
                forall|k: int| 0 <= k < i ==> self.pairs@[k].0@ != key@,
            decreases self.pairs@.len() - i,
        {
            if bytes_eq(&self.pairs[i].0, key) {
                proof {
                    lemma_assoc_get_first(self.pairs@, key@, i as int);
                }
                return Some(i);
            }
            i += 1;
        }
        proof {
            lemma_assoc_get_absent(self.pairs@, key@);
        }
        None
    }

    /// Sets a key to a value, replacing any earlier value for the key.
    pub fn insert(&mut self, key: Vec<u8>, value: Option<Vec<u8>>)
        requires
            old(self).wf(),
        ensures
            final(self).wf(),
            final(self).spec_get(key@) == Some(opt_bytes_view(value)),
            forall|k: Seq<u8>| k != key@ ==> final(self).spec_get(k) == old(self).spec_get(k),
            old(self).spec_get(key@) is Some ==> final(self).pairs_view().len() == old(
                self,
            ).pairs_view().len(),
            old(self).spec_get(key@) is None ==> final(self).pairs_view() == old(
                self,
            ).pairs_view().push((key, value)),
            final(self).view_of() == vinsert(old(self).view_of(), key@, opt_bytes_view(value)),
    {
        match self.find(&key) {
            Some(i) => {
                self.pairs[i] = (key, value);
                proof {
                    lemma_assoc_update(old(self).pairs@, self.pairs@, i as int, key@);
                    lemma_view_first(old(self).pairs@, key@, i as int);
                    assert(self.view_of() =~= vinsert(
                        old(self).view_of(),
                        key@,
                        opt_bytes_view(value),
                    ));
                }
            },
            None => {
                self.pairs.push((key, value));
                proof {
                    lemma_assoc_push(old(self).pairs@, self.pairs@, key@);
                    lemma_view_absent(old(self).pairs@, key@);
                    assert(self.view_of() =~= vinsert(
                        old(self).view_of(),
                        key@,
                        opt_bytes_view(value),
                    ));
                }
            },
        }
    }

    /// Removes a key; without the key the map is unchanged.
    pub fn remove(&mut self, key: &Vec<u8>)
        requires
            old(self).wf(),
        ensures
            final(self).wf(),
            final(self).spec_get(key@) is None,
            forall|k: Seq<u8>| k != key@ ==> final(self).spec_get(k) == old(self).spec_get(k),
            old(self).spec_get(key@) is None ==> final(self).pairs_view() == old(
                self,
            ).pairs_view(),
    {
        match self.find(key) {
            Some(i) => {
                self.pairs.remove(i);
                proof {
                    lemma_assoc_remove(old(self).pairs@, i as int, key@);
                }
            },
            None => {},
        }
    }

    /// Looks a key up, handing back a copy of the stored value.
    pub fn get(&self, key: &Vec<u8>) -> (r: Option<Option<Vec<u8>>>)
        ensures
            match r {
                None => self.spec_get(key@) is None,
                Some(v) => self.spec_get(key@) == Some(opt_bytes_view(v)),
            },
    {
        match self.find(key) {
            Some(i) => {
                let v = match &self.pairs[i].1 {
                    Some(b) => {
                        let c = b.clone();
                        proof {
                            assert(c@ =~= b@);
                        }
                        Some(c)
                    },
                    None => None,
                };
                Some(v)
            },
            None => None,
        }
    }

    /// A copy of the whole map.
    pub fn duplicate(&self) -> (r: Self)
        ensures
            r.pairs_view().len() == self.pairs_view().len(),
            forall|i: int|
                0 <= i < self.pairs_view().len() ==> r.pairs_view()[i].0@ == self.pairs_view()[i].0@
                    && opt_bytes_view(#[trigger] r.pairs_view()[i].1) == opt_bytes_view(
                    self.pairs_view()[i].1,
                ),
            self.wf() ==> r.wf(),
            forall|k: Seq<u8>| #[trigger] r.spec_get(k) == self.spec_get(k),
    {
        let mut pairs: Vec<(Vec<u8>, Option<Vec<u8>>)> = Vec::new();
        let mut i: usize = 0;
        while i < self.pairs.len()
            invariant
                i <= self.pairs@.len(),
                pairs@.len() == i,
                forall|k: int|
                    0 <= k < i ==> pairs@[k].0@ == self.pairs@[k].0@ && opt_bytes_view(
                        #[trigger] pairs@[k].1,
                    ) == opt_bytes_view(self.pairs@[k].1),
            decreases self.pairs@.len() - i,
        {
            let k = self.pairs[i].0.clone();
            proof {
                assert(k@ =~= self.pairs@[i as int].0@);
            }
            let v = match &self.pairs[i].1 {
                Some(b) => {
                    let c = b.clone();
                    proof {
                        assert(c@ =~= b@);
                    }
                    Some(c)
                },
                None => None,
            };
            proof {
                assert(opt_bytes_view(v) == opt_bytes_view(self.pairs@[i as int].1));
            }
            pairs.push((k, v));
            i += 1;
        }
        let r = TxtMap { pairs };
        proof {
            lemma_assoc_get_congruence(r.pairs@, self.pairs@);
            if self.wf() {
                assert forall|a: int, b: int|
                    0 <= a < b < r.pairs@.len() implies r.pairs@[a].0@ != r.pairs@[b].0@ by {
                    assert(opt_bytes_view(r.pairs@[a].1) == opt_bytes_view(self.pairs@[a].1));
                    assert(opt_bytes_view(r.pairs@[b].1) == opt_bytes_view(self.pairs@[b].1));
                    assert(r.pairs@[a].0@ == self.pairs@[a].0@);
                    assert(r.pairs@[b].0@ == self.pairs@[b].0@);
                }
            }
        }
        r
    }
}

/// The view of one attribute pair.
pub open spec fn pair_view() -> spec_fn((Vec<u8>, Option<Vec<u8>>)) -> (Seq<u8>, Option<Seq<u8>>) {
    |p: (Vec<u8>, Option<Vec<u8>>)| (p.0@, opt_bytes_view(p.1))
}

/// The views of an attribute pair sequence.
pub open spec fn view_pairs(s: Seq<(Vec<u8>, Option<Vec<u8>>)>) -> Seq<(Seq<u8>, Option<Seq<u8>>)> {
    s.map_values(pair_view())
}

/// Whether a key occurs in a view-level pair sequence.
pub open spec fn vhas_key(s: Seq<(Seq<u8>, Option<Seq<u8>>)>, k: Seq<u8>) -> bool {
    exists|i: int| 0 <= i < s.len() && s[i].0 == k
}

/// Index of the first view-level pair holding a key; the length when
/// there is none.
pub open spec fn vfirst_index(s: Seq<(Seq<u8>, Option<Seq<u8>>)>, k: Seq<u8>) -> int
    decreases s.len(),
{
    if s.len() == 0 {
        0
    } else if s[0].0 == k {
        0
    } else {
        1 + vfirst_index(s.drop_first(), k)
    }
}

/// Inserting at view level: the first pair with the key is overwritten, a
/// fresh key is appended.
pub open spec fn vinsert(
    s: Seq<(Seq<u8>, Option<Seq<u8>>)>,
    k: Seq<u8>,
    v: Option<Seq<u8>>,
) -> Seq<(Seq<u8>, Option<Seq<u8>>)> {
    if vhas_key(s, k) {
        s.update(vfirst_index(s, k), (k, v))
    } else {
        s.push((k, v))
    }
}

/// The view-level pairs after inserting a run of attribute pairs in
/// order, later values replacing earlier ones.
pub open spec fn vinsert_pairs(
    acc: Seq<(Seq<u8>, Option<Seq<u8>>)>,
    rest: Seq<(Vec<u8>, Option<Vec<u8>>)>,
) -> Seq<(Seq<u8>, Option<Seq<u8>>)>
    decreases rest.len(),
{
    if rest.len() == 0 {
        acc
    } else {
        vinsert_pairs(vinsert(acc, rest[0].0@, opt_bytes_view(rest[0].1)), rest.drop_first())
    }
}

/// `vfirst_index` points at the first pair with the key.
pub proof fn lemma_vfirst_index(s: Seq<(Seq<u8>, Option<Seq<u8>>)>, k: Seq<u8>)
    ensures
        0 <= vfirst_index(s, k) <= s.len(),
        vfirst_index(s, k) < s.len() ==> s[vfirst_index(s, k)].0 == k,
        forall|j: int| 0 <= j < vfirst_index(s, k) ==> s[j].0 != k,
        vhas_key(s, k) <==> vfirst_index(s, k) < s.len(),
    decreases s.len(),
{
    if s.len() > 0 && s[0].0 != k {
        lemma_vfirst_index(s.drop_first(), k);
        assert forall|j: int| 0 <= j < vfirst_index(s, k) implies s[j].0 != k by {
            if j > 0 {
                assert(s.drop_first()[j - 1] == s[j]);
            }
        }
        if vfirst_index(s, k) < s.len() {
            assert(s.drop_first()[vfirst_index(s.drop_first(), k)] == s[vfirst_index(s, k)]);
        }
        assert(vhas_key(s, k) <==> vfirst_index(s, k) < s.len()) by {
            if vhas_key(s, k) {
                let i = choose|i: int| 0 <= i < s.len() && s[i].0 == k;
                assert(s.drop_first()[i - 1] == s[i]);
                assert(vhas_key(s.drop_first(), k));
            }
            if vhas_key(s.drop_first(), k) {
                let i = choose|i: int|
                    0 <= i < s.drop_first().len() && s.drop_first()[i].0 == k;
                assert(s[i + 1] == s.drop_first()[i]);
                assert(vhas_key(s, k));
            }
        }
    }
}

/// The wire string carrying one attribute: the bare key for a flag, else
/// `key=value`.
pub open spec fn spec_emit_pair(k: Seq<u8>, v: Option<Seq<u8>>) -> Seq<u8> {
    match v {
        None => k,
        Some(val) => k + seq![EQUALS_BYTE] + val,
    }
}

/// Index of the first `=` byte, or the length when there is none.
pub open spec fn first_eq(s: Seq<u8>) -> int
    decreases s.len(),
{
    if s.len() == 0 {
        0
    } else if s[0] == EQUALS_BYTE {
        0
    } else {
        1 + first_eq(s.drop_first())
    }
}

/// `first_eq` points at the first `=` byte: nothing before it is `=`, and
/// it lies within the string exactly when the string holds an `=` at all.
pub proof fn lemma_first_eq_char(s: Seq<u8>)
    ensures
        0 <= first_eq(s) <= s.len(),
        first_eq(s) < s.len() ==> s[first_eq(s)] == EQUALS_BYTE,
        forall|j: int| 0 <= j < first_eq(s) ==> s[j] != EQUALS_BYTE,
    decreases s.len(),
{
    if s.len() > 0 && s[0] != EQUALS_BYTE {
        lemma_first_eq_char(s.drop_first());
        assert forall|j: int| 0 <= j < first_eq(s) implies s[j] != EQUALS_BYTE by {
            if j > 0 {
                assert(s.drop_first()[j - 1] == s[j]);
            }
        }
        if first_eq(s) < s.len() {
            assert(s.drop_first()[first_eq(s.drop_first())] == s[first_eq(s)]);
        }
    }
}

/// A position with `=` and nothing but other bytes before it is the first.
pub proof fn lemma_first_eq_at(s: Seq<u8>, m: int)
    requires
        0 <= m <= s.len(),
        m < s.len() ==> s[m] == EQUALS_BYTE,
        m == s.len() ==> (forall|j: int| 0 <= j < s.len() ==> s[j] != EQUALS_BYTE),
        forall|j: int| 0 <= j < m ==> s[j] != EQUALS_BYTE,
    ensures
        first_eq(s) == m,
{
    lemma_first_eq_char(s);
    if first_eq(s) < m {
        assert(s[first_eq(s)] == EQUALS_BYTE);
    } else if m < first_eq(s) {
        assert(s[m] != EQUALS_BYTE);
    }
}

/// What a received TXT wire string means: `None` for an entry without a
/// key, otherwise the key and the optional value split at the first `=`.
pub open spec fn spec_parse_pair(s: Seq<u8>) -> Option<(Seq<u8>, Option<Seq<u8>>)> {
    let i = first_eq(s);
    if i == 0 {
        None
    } else if i == s.len() {
        Some((s, None))
    } else {
        Some((s.take(i), Some(s.subrange(i + 1, s.len() as int))))
    }
}

/// Emitting an attribute and splitting the wire string again recovers key
/// and value byte for byte, for every key that is non-empty and free of
/// `=` bytes.
pub proof fn lemma_txt_pair_round_trip(k: Seq<u8>, v: Option<Seq<u8>>)
    requires
        k.len() > 0,
        forall|i: int| 0 <= i < k.len() ==> k[i] != EQUALS_BYTE,
    ensures
        spec_parse_pair(spec_emit_pair(k, v)) == Some((k, v)),
{
    let s = spec_emit_pair(k, v);
    match v {
        None => {
            lemma_first_eq_at(s, s.len() as int);
        },
        Some(val) => {
            assert(s.len() == k.len() + 1 + val.len());
            assert forall|j: int| 0 <= j < k.len() implies s[j] != EQUALS_BYTE by {
                assert(s[j] == k[j]);
            }
            assert(s[k.len() as int] == EQUALS_BYTE);
            lemma_first_eq_at(s, k.len() as int);
            assert(s.take(k.len() as int) =~= k);
            assert(s.subrange(k.len() as int + 1, s.len() as int) =~= val);
        },
    }
}

/// Builds the wire string for one attribute.
pub fn emit_pair(key: &Vec<u8>, value: &Option<Vec<u8>>) -> (r: Vec<u8>)
    ensures
        r@ == spec_emit_pair(key@, match value {
            Some(b) => Some(b@),
            None => None,
        }),
{
    let mut r = key.clone();
    proof {
        assert(r@ =~= key@);
    }
    match value {
        Some(val) => {
            r.push(EQUALS_BYTE);
            let mut i: usize = 0;
            while i < val.len()
                invariant
                    i <= val@.len(),
                    r@ == key@ + seq![EQUALS_BYTE] + val@.take(i as int),
                decreases val@.len() - i,
            {
                r.push(val[i]);
                proof {
                    assert(key@ + seq![EQUALS_BYTE] + val@.take(i as int) + seq![val@[i as int]]
                        =~= key@ + seq![EQUALS_BYTE] + val@.take(i + 1));
                }
                i += 1;
            }
            proof {
                assert(val@.take(val@.len() as int) =~= val@);
            }
        },
        None => {
            proof {
                assert(r@ =~= spec_emit_pair(key@, None));
            }
        },
    }
    r
}

/// Splits one received TXT wire string into key and optional value.
pub fn parse_pair(s: &Vec<u8>) -> (r: Option<(Vec<u8>, Option<Vec<u8>>)>)
    ensures
        match r {
            None => spec_parse_pair(s@) is None,
            Some(p) => spec_parse_pair(s@) == Some((p.0@, opt_bytes_view(p.1))),
        },
{
    proof {
        lemma_first_eq_char(s@);
    }
    let mut i: usize = 0;
    while i < s.len() && s[i] != EQUALS_BYTE
        invariant
            i <= s@.len(),
            forall|j: int| 0 <= j < i ==> s@[j] != EQUALS_BYTE,
        decreases s@.len() - i,
    {
        i += 1;
    }
    proof {
        if i < s@.len() {
            lemma_first_eq_at(s@, i as int);
        } else {
            lemma_first_eq_at(s@, s@.len() as int);
        }
    }
    if i == 0 {
        None
    } else if i == s.len() {
        let k = s.clone();
        proof {
            assert(k@ =~= s@);
        }
        Some((k, None))
    } else {
        let mut k: Vec<u8> = Vec::new();
        let mut j: usize = 0;
        while j < i
            invariant
                j <= i,
                i < s@.len(),
                k@ == s@.take(j as int),
            decreases i - j,
        {
            k.push(s[j]);
            proof {
                assert(s@.take(j as int).push(s@[j as int]) =~= s@.take(j + 1));
            }
            j += 1;
        }
        let mut v: Vec<u8> = Vec::new();
        let mut j: usize = i + 1;
        while j < s.len()
            invariant
                i + 1 <= j <= s@.len(),
                v@ == s@.subrange(i + 1, j as int),
            decreases s@.len() - j,
        {
            v.push(s[j]);
            proof {
                assert(s@.subrange(i + 1, j as int).push(s@[j as int]) =~= s@.subrange(
                    i + 1,
                    j + 1,
                ));
            }
            j += 1;
        }
        Some((k, Some(v)))
    }
}

/// Without the key anywhere, the lookup yields `None`.
pub proof fn lemma_assoc_get_absent(s: Seq<(Vec<u8>, Option<Vec<u8>>)>, k: Seq<u8>)
    requires
        forall|i: int| 0 <= i < s.len() ==> s[i].0@ != k,
    ensures
        assoc_get(s, k) is None,
    decreases s.len(),
{
    if s.len() > 0 {
        assert forall|i: int| 0 <= i < s.drop_first().len() implies s.drop_first()[i].0@ != k by {
            assert(s.drop_first()[i] == s[i + 1]);
        }
        lemma_assoc_get_absent(s.drop_first(), k);
    }
}

/// The lookup yields the value of the first pair holding the key.
pub proof fn lemma_assoc_get_first(s: Seq<(Vec<u8>, Option<Vec<u8>>)>, k: Seq<u8>, i: int)
    requires
        0 <= i < s.len(),
        s[i].0@ == k,
        forall|j: int| 0 <= j < i ==> s[j].0@ != k,
    ensures
        assoc_get(s, k) == Some(opt_bytes_view(s[i].1)),
    decreases i,
{
    if i == 0 {
    } else {
        assert(s[0].0@ != k);
        assert(s.drop_first()[i - 1] == s[i]);
        assert forall|j: int| 0 <= j < i - 1 implies s.drop_first()[j].0@ != k by {
            assert(s.drop_first()[j] == s[j + 1]);
        }
        lemma_assoc_get_first(s.drop_first(), k, i - 1);
    }
}

/// In a unique-key sequence, the pair holding a key is the only match, so
/// the lookup yields its value.
pub proof fn lemma_assoc_get_at(s: Seq<(Vec<u8>, Option<Vec<u8>>)>, k: Seq<u8>, i: int)
    requires
        keys_unique(s),
        0 <= i < s.len(),
        s[i].0@ == k,
    ensures
        assoc_get(s, k) == Some(opt_bytes_view(s[i].1)),
{
    assert forall|j: int| 0 <= j < i implies s[j].0@ != k by {
        assert(s[j].0@ != s[i].0@);
    }
    lemma_assoc_get_first(s, k, i);
}

/// Updating the pair that holds a key rewrites that key's value and leaves
/// every other key alone.
proof fn lemma_assoc_update(
    s: Seq<(Vec<u8>, Option<Vec<u8>>)>,
    t: Seq<(Vec<u8>, Option<Vec<u8>>)>,
    i: int,
    k: Seq<u8>,
)
    requires
        keys_unique(s),
        0 <= i < s.len(),
        s[i].0@ == k,
        t.len() == s.len(),
        t[i].0@ == k,
        forall|j: int| 0 <= j < s.len() && j != i ==> t[j] == s[j],
    ensures
        keys_unique(t),
        assoc_get(t, k) == Some(opt_bytes_view(t[i].1)),
        forall|q: Seq<u8>| q != k ==> assoc_get(t, q) == assoc_get(s, q),
{
    assert(keys_unique(t));
    lemma_assoc_get_at(t, k, i);
    assert forall|q: Seq<u8>| q != k implies assoc_get(t, q) == assoc_get(s, q) by {
        if exists|j: int| 0 <= j < s.len() && s[j].0@ == q {
            let j = choose|j: int| 0 <= j < s.len() && s[j].0@ == q;
            assert(j != i);
            assert(t[j] == s[j]);
            lemma_assoc_get_at(s, q, j);
            lemma_assoc_get_at(t, q, j);
        } else {
            assert forall|j: int| 0 <= j < s.len() implies s[j].0@ != q by {}
            assert forall|j: int| 0 <= j < t.len() implies t[j].0@ != q by {
                if j != i {
                    assert(t[j] == s[j]);
                }
            }
            lemma_assoc_get_absent(s, q);
            lemma_assoc_get_absent(t, q);
        }
    }
}

/// Appending a fresh key adds that binding and leaves every other key alone.
proof fn lemma_assoc_push(
    s: Seq<(Vec<u8>, Option<Vec<u8>>)>,
    t: Seq<(Vec<u8>, Option<Vec<u8>>)>,
    k: Seq<u8>,
)
    requires
        keys_unique(s),
        forall|i: int| 0 <= i < s.len() ==> s[i].0@ != k,
        t.len() == s.len() + 1,
        forall|j: int| 0 <= j < s.len() ==> t[j] == s[j],
        t[s.len() as int].0@ == k,
    ensures
        keys_unique(t),
        assoc_get(t, k) == Some(opt_bytes_view(t[s.len() as int].1)),
        forall|q: Seq<u8>| q != k ==> assoc_get(t, q) == assoc_get(s, q),
{
    assert forall|a: int, b: int| 0 <= a < b < t.len() implies t[a].0@ != t[b].0@ by {
        if b < s.len() {
            assert(t[a] == s[a] && t[b] == s[b]);
        } else {
            assert(t[a] == s[a]);
        }
    }
    lemma_assoc_get_first(t, k, s.len() as int);
    assert forall|q: Seq<u8>| q != k implies assoc_get(t, q) == assoc_get(s, q) by {
        if exists|j: int| 0 <= j < s.len() && s[j].0@ == q {
            let j = choose|j: int| 0 <= j < s.len() && s[j].0@ == q;
            assert(t[j] == s[j]);
            lemma_assoc_get_at(s, q, j);
            lemma_assoc_get_at(t, q, j);
        } else {
            assert forall|j: int| 0 <= j < t.len() implies t[j].0@ != q by {
                if j < s.len() {
                    assert(t[j] == s[j]);
                }
            }
            lemma_assoc_get_absent(s, q);
            lemma_assoc_get_absent(t, q);
        }
    }
}

/// Removing the pair that holds a key drops that binding and leaves every
/// other key alone.
proof fn lemma_assoc_remove(s: Seq<(Vec<u8>, Option<Vec<u8>>)>, i: int, k: Seq<u8>)
    requires
        keys_unique(s),
        0 <= i < s.len(),
        s[i].0@ == k,
    ensures
        keys_unique(s.remove(i)),
        assoc_get(s.remove(i), k) is None,
        forall|q: Seq<u8>| q != k ==> assoc_get(s.remove(i), q) == assoc_get(s, q),
{
    let t = s.remove(i);
    assert forall|a: int, b: int| 0 <= a < b < t.len() implies t[a].0@ != t[b].0@ by {
        let a0: int = if a < i { a } else { a + 1 };
        let b0: int = if b < i { b } else { b + 1 };
        assert(t[a] == s[a0] && t[b] == s[b0]);
    }
    assert forall|j: int| 0 <= j < t.len() implies t[j].0@ != k by {
        if j < i {
            assert(t[j] == s[j]);
            assert(s[j].0@ != s[i].0@);
        } else {
            assert(t[j] == s[j + 1]);
            assert(s[j + 1].0@ != s[i].0@);
        }
    }
    lemma_assoc_get_absent(t, k);
    assert forall|q: Seq<u8>| q != k implies assoc_get(t, q) == assoc_get(s, q) by {
        if exists|j: int| 0 <= j < s.len() && s[j].0@ == q {
            let j = choose|j: int| 0 <= j < s.len() && s[j].0@ == q;
            lemma_assoc_get_at(s, q, j);
            if j < i {
                assert(t[j] == s[j]);
                lemma_assoc_get_at(t, q, j);
            } else {
                assert(j != i);
                assert(t[j - 1] == s[j]);
                lemma_assoc_get_at(t, q, j - 1);
            }
        } else {
            assert forall|j: int| 0 <= j < t.len() implies t[j].0@ != q by {
                if j < i {
                    assert(t[j] == s[j]);
                } else {
                    assert(t[j] == s[j + 1]);
                }
            }
            lemma_assoc_get_absent(s, q);
            lemma_assoc_get_absent(t, q);
        }
    }
}

/// Two association sequences with pairwise equal views agree on every
/// lookup.
proof fn lemma_assoc_get_congruence(
    a: Seq<(Vec<u8>, Option<Vec<u8>>)>,
    b: Seq<(Vec<u8>, Option<Vec<u8>>)>,
)
    requires
        a.len() == b.len(),
        forall|i: int|
            0 <= i < a.len() ==> a[i].0@ == b[i].0@ && opt_bytes_view(#[trigger] a[i].1)
                == opt_bytes_view(b[i].1),
    ensures
        forall|k: Seq<u8>| #[trigger] assoc_get(a, k) == assoc_get(b, k),
    decreases a.len(),
{
    if a.len() > 0 {
        assert forall|i: int|
            0 <= i < a.drop_first().len() implies a.drop_first()[i].0@ == b.drop_first()[i].0@
            && opt_bytes_view(#[trigger] a.drop_first()[i].1) == opt_bytes_view(
            b.drop_first()[i].1,
        ) by {
            assert(a.drop_first()[i] == a[i + 1]);
            assert(b.drop_first()[i] == b[i + 1]);
        }
        lemma_assoc_get_congruence(a.drop_first(), b.drop_first());
        assert(opt_bytes_view(a[0].1) == opt_bytes_view(b[0].1));
        assert(a[0].0@ == b[0].0@);
        assert forall|k: Seq<u8>| #[trigger] assoc_get(a, k) == assoc_get(b, k) by {
            assert(assoc_get(a.drop_first(), k) == assoc_get(b.drop_first(), k));
        }
    } else {
        assert forall|k: Seq<u8>| #[trigger] assoc_get(a, k) == assoc_get(b, k) by {
            assert(assoc_get(a, k) is None);
            assert(assoc_get(b, k) is None);
        }
    }
}

/// A first match at the value level is a first match at the view level.
proof fn lemma_view_first(s: Seq<(Vec<u8>, Option<Vec<u8>>)>, k: Seq<u8>, i: int)
    requires
        0 <= i < s.len(),
        s[i].0@ == k,
        forall|j: int| 0 <= j < i ==> s[j].0@ != k,
    ensures
        vhas_key(view_pairs(s), k),
        vfirst_index(view_pairs(s), k) == i,
{
    let v = view_pairs(s);
    assert(v[i].0 == k);
    assert(vhas_key(v, k));
    lemma_vfirst_index(v, k);
    let f = vfirst_index(v, k);
    if f < i {
        assert(v[f].0 == k);
        assert(s[f].0@ == k);
    } else if f > i {
        assert(v[i].0 != k);
    }
}

/// A key absent at the value level is absent at the view level.
proof fn lemma_view_absent(s: Seq<(Vec<u8>, Option<Vec<u8>>)>, k: Seq<u8>)
    requires
        forall|j: int| 0 <= j < s.len() ==> s[j].0@ != k,
    ensures
        !vhas_key(view_pairs(s), k),
{
    let v = view_pairs(s);
    assert forall|j: int| 0 <= j < v.len() implies v[j].0 != k by {
        assert(v[j].0 == s[j].0@);
    }
}

/// The attribute pairs after absorbing a sequence of received TXT wire
/// strings, first first: each string is split at its first `=` and
/// inserted, strings without a key are skipped.
pub open spec fn spec_absorb_txt(
    acc: Seq<(Seq<u8>, Option<Seq<u8>>)>,
    rest: Seq<Seq<u8>>,
) -> Seq<(Seq<u8>, Option<Seq<u8>>)>
    decreases rest.len(),
{
    if rest.len() == 0 {
        acc
    } else {
        spec_absorb_txt(
            match spec_parse_pair(rest[0]) {
                None => acc,
                Some(p) => vinsert(acc, p.0, p.1),
            },
            rest.drop_first(),
        )
    }
}

impl TxtMap {
    /// Absorbs received TXT wire strings in order.
    pub fn absorb_strings(&mut self, strings: &Vec<Vec<u8>>)
        requires
            old(self).wf(),
        ensures
            final(self).wf(),
            final(self).view_of() == spec_absorb_txt(
                old(self).view_of(),
                crate::name::labels_view(strings@),
            ),
    {
        let ghost all = crate::name::labels_view(strings@);
        let mut i: usize = 0;
        proof {
            assert(all.subrange(0, all.len() as int) =~= all);
        }
        while i < strings.len()
            invariant
                i <= strings@.len(),
                all == crate::name::labels_view(strings@),
                self.wf(),
                spec_absorb_txt(self.view_of(), all.subrange(i as int, all.len() as int))
                    == spec_absorb_txt(old(self).view_of(), all),
            decreases strings@.len() - i,
        {
            proof {
                let rest = all.subrange(i as int, all.len() as int);
                assert(rest[0] == all[i as int]);
                assert(all[i as int] == strings@[i as int]@);
                assert(rest.drop_first() =~= all.subrange(i + 1, all.len() as int));
            }
            match parse_pair(&strings[i]) {
                Some(p) => {
                    let (k, v) = p;
                    self.insert(k, v);
                },
                None => {},
            }
            i += 1;
        }
        proof {
            assert(all.subrange(all.len() as int, all.len() as int) =~= Seq::<Seq<u8>>::empty());
        }
    }
}

/// The wire strings for a view-level pair sequence whose keys are all
/// non-empty: one per pair, in order.
pub open spec fn vemit(s: Seq<(Seq<u8>, Option<Seq<u8>>)>) -> Seq<Seq<u8>> {
    s.map_values(|p: (Seq<u8>, Option<Seq<u8>>)| spec_emit_pair(p.0, p.1))
}

/// A legal round-trip key: non-empty and free of `=` bytes.
pub open spec fn round_trip_key(k: Seq<u8>) -> bool {
    k.len() > 0 && (forall|i: int| 0 <= i < k.len() ==> k[i] != EQUALS_BYTE)
}

/// Attributes survive the trip onto the wire and back byte for byte:
/// emitting a pair sequence as TXT strings and absorbing those strings
/// into an empty map rebuilds exactly the same pairs, for every sequence
/// of distinct, non-empty keys free of `=` bytes.
pub proof fn lemma_txt_map_round_trip(s: Seq<(Seq<u8>, Option<Seq<u8>>)>)
    requires
        forall|i: int, j: int| 0 <= i < j < s.len() ==> s[i].0 != s[j].0,
        forall|i: int| 0 <= i < s.len() ==> round_trip_key(#[trigger] s[i].0),
    ensures
        spec_absorb_txt(Seq::empty(), vemit(s)) == s,
{
    lemma_txt_absorb_emit(Seq::empty(), s);
    assert(Seq::<(Seq<u8>, Option<Seq<u8>>)>::empty() + s =~= s);
}

/// Absorbing the emitted strings of fresh, legal keys appends the pairs.
proof fn lemma_txt_absorb_emit(
    acc: Seq<(Seq<u8>, Option<Seq<u8>>)>,
    s: Seq<(Seq<u8>, Option<Seq<u8>>)>,
)
    requires
        forall|i: int, j: int| 0 <= i < j < s.len() ==> s[i].0 != s[j].0,
        forall|i: int| 0 <= i < s.len() ==> round_trip_key(#[trigger] s[i].0),
        forall|a: int, i: int|
            #![trigger acc[a].0, s[i].0]
            0 <= a < acc.len() && 0 <= i < s.len() ==> acc[a].0 != s[i].0,
    ensures
        spec_absorb_txt(acc, vemit(s)) == acc + s,
    decreases s.len(),
{
    if s.len() == 0 {
        assert(vemit(s) =~= Seq::<Seq<u8>>::empty());
        assert(acc + s =~= acc);
    } else {
        let e = vemit(s);
        assert(e[0] == spec_emit_pair(s[0].0, s[0].1));
        lemma_txt_pair_round_trip(s[0].0, s[0].1);
        assert(spec_parse_pair(e[0]) == Some((s[0].0, s[0].1)));
        assert(!vhas_key(acc, s[0].0)) by {
            if vhas_key(acc, s[0].0) {
                let a = choose|a: int| 0 <= a < acc.len() && acc[a].0 == s[0].0;
                assert(acc[a].0 != s[0].0);
            }
        }
        let acc2 = vinsert(acc, s[0].0, s[0].1);
        assert(acc2 == acc.push((s[0].0, s[0].1)));
        assert(e.drop_first() =~= vemit(s.drop_first()));
        assert forall|i: int, j: int|
            0 <= i < j < s.drop_first().len() implies s.drop_first()[i].0 != s.drop_first()[j].0 by {
            assert(s.drop_first()[i] == s[i + 1] && s.drop_first()[j] == s[j + 1]);
        }
        assert forall|i: int|
            0 <= i < s.drop_first().len() implies round_trip_key(#[trigger] s.drop_first()[i].0) by {
            assert(s.drop_first()[i] == s[i + 1]);
        }
        assert forall|a: int, i: int|
            #![trigger acc2[a].0, s.drop_first()[i].0]
            0 <= a < acc2.len() && 0 <= i < s.drop_first().len() implies acc2[a].0
            != s.drop_first()[i].0 by {
            assert(s.drop_first()[i] == s[i + 1]);
            if a < acc.len() {
                assert(acc2[a] == acc[a]);
            } else {
                assert(acc2[a] == (s[0].0, s[0].1));
                assert(s[0].0 != s[i + 1].0);
            }
        }
        lemma_txt_absorb_emit(acc2, s.drop_first());
        assert(spec_absorb_txt(acc, e) == spec_absorb_txt(acc2, e.drop_first()));
        assert(acc2 + s.drop_first() =~= acc + s);
    }
}

} // verus!
