//! A storage container for client data.
//!
//! The coffer keeps typed values addressed by a `(shard, key)` pair.  A
//! shard collects the values of one client; the shard string is the
//! hex-encoded public key of that client.  Key uniqueness is per shard.

use vstd::prelude::*;

verus! {

/// Values supported by the coffer.
///
/// Floats are kept as the raw bits of an IEEE 754 single-precision
/// number, so that the rest of the crate never computes on them.
#[derive(Debug, PartialEq, Eq)]
pub enum CofferValue {
    /// A UTF-8 encoded string.
    Str(String),
    /// A 32-bit signed integer.
    Integer(i32),
    /// The bits of a 32-bit float.
    Float(u32),
    /// A boolean value.
    Boolean(bool),
}

/// The mathematical image of a `CofferValue`.
pub enum ValueView {
    Str(Seq<char>),
    Integer(int),
    Float(u32),
    Boolean(bool),
}

impl View for CofferValue {
    type V = ValueView;

    open spec fn view(&self) -> ValueView {
        match self {
            CofferValue::Str(s) => ValueView::Str(s@),
            CofferValue::Integer(i) => ValueView::Integer(*i as int),
            CofferValue::Float(bits) => ValueView::Float(*bits),
            CofferValue::Boolean(b) => ValueView::Boolean(*b),
        }
    }
}

impl Clone for CofferValue {
    /// A clone denotes the same value.
    fn clone(&self) -> (r: Self)
        ensures
            r@ == self@,
    {
        match self {
            CofferValue::Str(s) => CofferValue::Str(s.clone()),
            CofferValue::Integer(i) => CofferValue::Integer(*i),
            CofferValue::Float(bits) => CofferValue::Float(*bits),
            CofferValue::Boolean(b) => CofferValue::Boolean(*b),
        }
    }
}

/// A key into the coffer: the shard and the key within the shard.
#[derive(Debug)]
pub struct CofferKey {
    pub shard: String,
    pub key: String,
}

impl CofferKey {
    /// The pair of character sequences this key denotes.
    pub open spec fn view_pair(&self) -> (Seq<char>, Seq<char>) {
        (self.shard@, self.key@)
    }
}

impl Clone for CofferKey {
    /// A clone denotes the same key.
    fn clone(&self) -> (r: Self)
        ensures
            r.view_pair() == self.view_pair(),
    {
        CofferKey { shard: self.shard.clone(), key: self.key.clone() }
    }
}

/// One client's bundle: the `(key, value)` pairs of a single shard.
#[derive(Debug, PartialEq, Eq)]
pub struct CofferShard(pub Vec<(String, CofferValue)>);

/// The mathematical image of a sequence of `(key, value)` pairs.
pub open spec fn pairs_view(s: Seq<(String, CofferValue)>) -> Seq<(Seq<char>, ValueView)> {
    s.map_values(|p: (String, CofferValue)| (p.0@, p.1@))
}

impl View for CofferShard {
    type V = Seq<(Seq<char>, ValueView)>;

    open spec fn view(&self) -> Seq<(Seq<char>, ValueView)> {
        pairs_view(self.0@)
    }
}

/// Errors of the coffer and of its bootstrap loader.
#[derive(Clone, Copy, Debug, PartialEq, Eq, Structural)]
pub enum CofferError {
    /// `put` found a value already stored under the key.
    KeyExists,
    /// The bootstrap document could not be understood.
    Parse,
}

pub type CofferResult<T> = Result<T, CofferError>;

/// The image of one stored entry: `((shard, key), value)`.
pub type EntryView = ((Seq<char>, Seq<char>), ValueView);

/// The image of a whole store: its entries in insertion order.
pub type StoreView = Seq<EntryView>;

/// The value stored under `(shard, key)`, if any.
pub open spec fn store_lookup(m: StoreView, shard: Seq<char>, key: Seq<char>) -> Option<ValueView>
    decreases m.len(),
{
    if m.len() == 0 {
        None
    } else if m[0].0 == (shard, key) {
        Some(m[0].1)
    } else {
        store_lookup(m.drop_first(), shard, key)
    }
}

/// All `(key, value)` pairs of one shard, in insertion order.
pub open spec fn shard_pairs(m: StoreView, shard: Seq<char>) -> Seq<(Seq<char>, ValueView)>
    decreases m.len(),
{
    if m.len() == 0 {
        Seq::empty()
    } else {
        shard_pairs(m.drop_last(), shard) + if m.last().0.0 == shard {
            seq![(m.last().0.1, m.last().1)]
        } else {
            Seq::empty()
        }
    }
}

/// The store after an upsert of `(shard, key, v)`: the first entry
/// carrying the pair is replaced in place, otherwise the entry is
/// appended at the end.
pub open spec fn spec_push(m: StoreView, shard: Seq<char>, key: Seq<char>, v: ValueView) -> StoreView
    decreases m.len(),
{
    if m.len() == 0 {
        seq![(((shard, key), v))]
    } else if m[0].0 == (shard, key) {
        seq![(((shard, key), v))] + m.drop_first()
    } else {
        seq![m[0]] + spec_push(m.drop_first(), shard, key, v)
    }
}

/// No two entries share a `(shard, key)` pair.
pub open spec fn store_wf(m: StoreView) -> bool {
    forall|i: int, j: int| 0 <= i < j < m.len() ==> (#[trigger] m[i]).0 != (#[trigger] m[j]).0
}

/// A lookup misses exactly when no entry carries the pair.
pub proof fn lemma_lookup_none(m: StoreView, shard: Seq<char>, key: Seq<char>)
    ensures
        store_lookup(m, shard, key) is None <==> forall|i: int|
            0 <= i < m.len() ==> (#[trigger] m[i]).0 != (shard, key),
    decreases m.len(),
{
    if m.len() > 0 {
        let rest = m.drop_first();
        lemma_lookup_none(rest, shard, key);
        if m[0].0 == (shard, key) {
        } else if store_lookup(m, shard, key) is None {
            assert forall|i: int| 0 <= i < m.len() implies (#[trigger] m[i]).0 != (shard, key) by {
                if i > 0 {
                    assert(rest[i - 1] == m[i]);
                }
            }
        } else {
            let i = choose|i: int| 0 <= i < rest.len() && (#[trigger] rest[i]).0 == (shard, key);
            assert(m[i + 1] == rest[i]);
        }
    }
}

/// The first entry carrying a pair gives the lookup.
pub proof fn lemma_lookup_at(m: StoreView, i: int, shard: Seq<char>, key: Seq<char>)
    requires
        0 <= i < m.len(),
        m[i].0 == (shard, key),
        forall|j: int| 0 <= j < i ==> (#[trigger] m[j]).0 != (shard, key),
    ensures
        store_lookup(m, shard, key) == Some(m[i].1),
    decreases m.len(),
{
    if i > 0 {
        let rest = m.drop_first();
        assert(rest[i - 1] == m[i]);
        assert(forall|j: int| 0 <= j < i - 1 ==> #[trigger] rest[j] == m[j + 1]);
        lemma_lookup_at(rest, i - 1, shard, key);
    }
}

/// Appending an entry changes only the lookup of a pair that missed.
pub proof fn lemma_lookup_append(m: StoreView, e: EntryView, shard: Seq<char>, key: Seq<char>)
    ensures
        store_lookup(m.push(e), shard, key) == if store_lookup(m, shard, key) is Some {
            store_lookup(m, shard, key)
        } else if e.0 == (shard, key) {
            Some(e.1)
        } else {
            None
        },
    decreases m.len(),
{
    let p = m.push(e);
    if m.len() == 0 {
        assert(p[0] == e);
        assert(p.drop_first() =~= Seq::<EntryView>::empty());
        if e.0 == (shard, key) {
            assert(store_lookup(p, shard, key) == Some(e.1));
        } else {
            assert(store_lookup(p, shard, key) == store_lookup(p.drop_first(), shard, key));
        }
    } else {
        assert(p[0] == m[0]);
        assert(p.drop_first() =~= m.drop_first().push(e));
        lemma_lookup_append(m.drop_first(), e, shard, key);
        if m[0].0 == (shard, key) {
            assert(store_lookup(p, shard, key) == Some(m[0].1));
            assert(store_lookup(m, shard, key) == Some(m[0].1));
        } else {
            assert(store_lookup(p, shard, key) == store_lookup(m.drop_first().push(e), shard, key));
            assert(store_lookup(m, shard, key) == store_lookup(m.drop_first(), shard, key));
        }
    }
}

/// Replacing the first entry that carries `(shard, key)` is the upsert.
proof fn lemma_spec_push_at(m: StoreView, i: int, shard: Seq<char>, key: Seq<char>, v: ValueView)
    requires
        0 <= i < m.len(),
        m[i].0 == (shard, key),
        forall|j: int| 0 <= j < i ==> (#[trigger] m[j]).0 != (shard, key),
    ensures
        spec_push(m, shard, key, v) == m.update(i, ((shard, key), v)),
    decreases m.len(),
{
    if i == 0 {
        assert(spec_push(m, shard, key, v) =~= m.update(0, ((shard, key), v)));
    } else {
        let rest = m.drop_first();
        assert(rest[i - 1] == m[i]);
        assert(forall|j: int| 0 <= j < i - 1 ==> #[trigger] rest[j] == m[j + 1]);
        lemma_spec_push_at(rest, i - 1, shard, key, v);
        assert(spec_push(m, shard, key, v) =~= m.update(i, ((shard, key), v)));
    }
}

/// Appending a fresh entry is the upsert when the pair is absent.
proof fn lemma_spec_push_absent(m: StoreView, shard: Seq<char>, key: Seq<char>, v: ValueView)
    requires
        forall|i: int| 0 <= i < m.len() ==> (#[trigger] m[i]).0 != (shard, key),
    ensures
        spec_push(m, shard, key, v) == m.push(((shard, key), v)),
    decreases m.len(),
{
    if m.len() == 0 {
        assert(spec_push(m, shard, key, v) =~= m.push(((shard, key), v)));
    } else {
        let rest = m.drop_first();
        assert(forall|j: int| 0 <= j < rest.len() ==> #[trigger] rest[j] == m[j + 1]);
        lemma_spec_push_absent(rest, shard, key, v);
        assert(spec_push(m, shard, key, v) =~= m.push(((shard, key), v)));
    }
}

/// After an upsert the pair maps to the new value and nothing else moves.
pub proof fn lemma_push_lookup(m: StoreView, shard: Seq<char>, key: Seq<char>, v: ValueView)
    ensures
        store_lookup(spec_push(m, shard, key, v), shard, key) == Some(v),
        forall|s2: Seq<char>, k2: Seq<char>|
            (s2, k2) != (shard, key) ==> #[trigger] store_lookup(spec_push(m, shard, key, v), s2, k2)
                == store_lookup(m, s2, k2),
    decreases m.len(),
{
    let e = ((shard, key), v);
    let p = spec_push(m, shard, key, v);
    if m.len() == 0 {
        assert(p[0] == e);
        assert(p.drop_first() =~= Seq::<EntryView>::empty());
        assert forall|s2: Seq<char>, k2: Seq<char>| (s2, k2) != (shard, key) implies
        #[trigger] store_lookup(p, s2, k2) == store_lookup(m, s2, k2) by {
            assert(store_lookup(p, s2, k2) == store_lookup(p.drop_first(), s2, k2));
        }
    } else if m[0].0 == (shard, key) {
        assert(p[0] == e);
        assert(p.drop_first() =~= m.drop_first());
        assert forall|s2: Seq<char>, k2: Seq<char>| (s2, k2) != (shard, key) implies
        #[trigger] store_lookup(p, s2, k2) == store_lookup(m, s2, k2) by {
            if m[0].0 == (s2, k2) {
            } else {
                assert(store_lookup(p, s2, k2) == store_lookup(p.drop_first(), s2, k2));
                assert(store_lookup(m, s2, k2) == store_lookup(m.drop_first(), s2, k2));
            }
        }
    } else {
        lemma_push_lookup(m.drop_first(), shard, key, v);
        assert(p[0] == m[0]);
        assert(p.drop_first() =~= spec_push(m.drop_first(), shard, key, v));
        assert(store_lookup(p, shard, key) == store_lookup(p.drop_first(), shard, key));
        assert forall|s2: Seq<char>, k2: Seq<char>| (s2, k2) != (shard, key) implies
        #[trigger] store_lookup(p, s2, k2) == store_lookup(m, s2, k2) by {
            if m[0].0 == (s2, k2) {
                assert(store_lookup(p, s2, k2) == Some(m[0].1));
                assert(store_lookup(m, s2, k2) == Some(m[0].1));
            } else {
                assert(store_lookup(p, s2, k2) == store_lookup(p.drop_first(), s2, k2));
                assert(store_lookup(m, s2, k2) == store_lookup(m.drop_first(), s2, k2));
                assert(store_lookup(p.drop_first(), s2, k2) == store_lookup(
                    spec_push(m.drop_first(), shard, key, v),
                    s2,
                    k2,
                ));
            }
        }
    }
}

/// An upsert keeps key uniqueness.
pub proof fn lemma_push_wf(m: StoreView, shard: Seq<char>, key: Seq<char>, v: ValueView)
    requires
        store_wf(m),
    ensures
        store_wf(spec_push(m, shard, key, v)),
    decreases m.len(),
{
    let e = ((shard, key), v);
    let p = spec_push(m, shard, key, v);
    lemma_lookup_none(m, shard, key);
    if store_lookup(m, shard, key) is None {
        lemma_spec_push_absent(m, shard, key, v);
        assert forall|i: int, j: int| 0 <= i < j < p.len() implies (#[trigger] p[i]).0 != (
        #[trigger] p[j]).0 by {
            if j < m.len() as int {
            } else {
                assert(p[j] == e);
                assert(p[i] == m[i]);
            }
        }
    } else {
        lemma_lookup_none(m, shard, key);
        let i = choose|i: int|
            0 <= i < m.len() && (#[trigger] m[i]).0 == (shard, key) && forall|j: int|
                0 <= j < i ==> (#[trigger] m[j]).0 != (shard, key);
        lemma_first_match_exists(m, shard, key);
        lemma_spec_push_at(m, i, shard, key, v);
        assert forall|a: int, b: int| 0 <= a < b < p.len() implies (#[trigger] p[a]).0 != (
        #[trigger] p[b]).0 by {
            assert(m[a].0 != m[b].0);
            if a == i {
                assert(p[b] == m[b]);
                assert(m[b].0 != m[i].0);
            } else if b == i {
                assert(p[a] == m[a]);
                assert(m[a].0 != m[i].0);
            }
        }
    }
}

/// When some entry carries the pair there is a first one that does.
proof fn lemma_first_match_exists(m: StoreView, shard: Seq<char>, key: Seq<char>)
    requires
        exists|i: int| 0 <= i < m.len() && (#[trigger] m[i]).0 == (shard, key),
    ensures
        exists|i: int|
            0 <= i < m.len() && (#[trigger] m[i]).0 == (shard, key) && forall|j: int|
                0 <= j < i ==> (#[trigger] m[j]).0 != (shard, key),
    decreases m.len(),
{
    if m[0].0 == (shard, key) {
        assert(0 <= 0 < m.len() && m[0].0 == (shard, key) && forall|j: int|
            0 <= j < 0 ==> (#[trigger] m[j]).0 != (shard, key));
    } else {
        let rest = m.drop_first();
        let w = choose|i: int| 0 <= i < m.len() && (#[trigger] m[i]).0 == (shard, key);
        assert(rest[w - 1] == m[w]);
        lemma_first_match_exists(rest, shard, key);
        let i = choose|i: int|
            0 <= i < rest.len() && (#[trigger] rest[i]).0 == (shard, key) && forall|j: int|
                0 <= j < i ==> (#[trigger] rest[j]).0 != (shard, key);
        assert(m[i + 1] == rest[i]);
        assert forall|j: int| 0 <= j < i + 1 implies (#[trigger] m[j]).0 != (shard, key) by {
            if j > 0 {
                assert(rest[j - 1] == m[j]);
            }
        }
    }
}

/// A sharded key-value store, loaded once from a bootstrap document and
/// then shared read-only by all connections.
#[derive(Debug)]
pub struct CofferMap {
    entries: Vec<(CofferKey, CofferValue)>,
}

/// The image of one stored pair.
pub open spec fn entry_view(e: (CofferKey, CofferValue)) -> EntryView {
    ((e.0.shard@, e.0.key@), e.1@)
}

impl View for CofferMap {
    type V = StoreView;

    closed spec fn view(&self) -> StoreView {
        self.entries@.map_values(|e: (CofferKey, CofferValue)| entry_view(e))
    }
}

impl CofferMap {
    /// Key uniqueness holds.
    pub open spec fn wf(&self) -> bool {
        store_wf(self@)
    }

    /// An empty coffer.
    pub fn new() -> (r: CofferMap)
        ensures
            r@ == Seq::<EntryView>::empty(),
            r.wf(),
    {
        let r = CofferMap { entries: Vec::new() };
        proof {
            assert(r@ =~= Seq::<EntryView>::empty());
        }
        r
    }

    /// Index of the first entry holding `(shard, key)`, if any.
    fn find(&self, shard: &String, key: &String) -> (r: Option<usize>)
        ensures
            match r {
                Some(i) => i < self@.len() && self@[i as int].0 == (shard@, key@) && forall|j: int|
                    0 <= j < i ==> (#[trigger] self@[j]).0 != (shard@, key@),
                None => forall|i: int|
                    0 <= i < self@.len() ==> (#[trigger] self@[i]).0 != (shard@, key@),
            },
    {
        let n = self.entries.len();
        let mut i: usize = 0;
        while i < n
            invariant
                n == self@.len(),
                i <= n,
                forall|j: int| 0 <= j < i ==> (#[trigger] self@[j]).0 != (shard@, key@),
            decreases n - i,
        {
            proof {
                assert(self@[i as int] == entry_view(self.entries@[i as int]));
            }
            let hit = self.entries[i].0.shard.eq(shard) && self.entries[i].0.key.eq(key);
            if hit {
                return Some(i);
            }
            i = i + 1;
        }
        None
    }

    /// Store `value` at `key`; fails without changing anything if the
    /// key already holds a value.
    pub fn put(&mut self, key: CofferKey, value: CofferValue) -> (r: CofferResult<()>)
        requires
            old(self).wf(),
        ensures
            final(self).wf(),
            match r {
                Ok(()) => store_lookup(old(self)@, key.shard@, key.key@) is None && final(self)@
                    == old(self)@.push(((key.shard@, key.key@), value@)),
                Err(e) => e == CofferError::KeyExists && store_lookup(
                    old(self)@,
                    key.shard@,
                    key.key@,
                ) is Some && final(self)@ == old(self)@,
            },
    {
        proof {
            lemma_lookup_none(self@, key.shard@, key.key@);
        }
        match self.find(&key.shard, &key.key) {
            Some(i) => {
                proof {
                    lemma_lookup_at(self@, i as int, key.shard@, key.key@);
                }
                Err(CofferError::KeyExists)
            },
            None => {
                let ghost pre = self@;
                let ghost kv = (key.shard@, key.key@);
                let ghost vv = value@;
                self.entries.push((key, value));
                proof {
                    assert(self@ =~= pre.push((kv, vv)));
                    assert forall|a: int, b: int| 0 <= a < b < self@.len() implies (
                    #[trigger] self@[a]).0 != (#[trigger] self@[b]).0 by {
                        if b < pre.len() as int {
                            assert(self@[a] == pre[a] && self@[b] == pre[b]);
                        } else {
                            assert(self@[b].0 == kv);
                            assert(self@[a] == pre[a]);
                        }
                    }
                }
                Ok(())
            },
        }
    }

    /// Upsert `value` at `key`: replaces an existing value, creates the
    /// entry otherwise.
    pub fn push(&mut self, key: CofferKey, value: CofferValue)
        requires
            old(self).wf(),
        ensures
            final(self).wf(),
            final(self)@ == spec_push(old(self)@, key.shard@, key.key@, value@),
            store_lookup(final(self)@, key.shard@, key.key@) == Some(value@),
            forall|s2: Seq<char>, k2: Seq<char>|
                (s2, k2) != (key.shard@, key.key@) ==> #[trigger] store_lookup(final(self)@, s2, k2)
                    == store_lookup(old(self)@, s2, k2),
    {
        let ghost pre = self@;
        let ghost kv = (key.shard@, key.key@);
        let ghost vv = value@;
        proof {
            lemma_push_wf(pre, kv.0, kv.1, vv);
            lemma_push_lookup(pre, kv.0, kv.1, vv);
        }
        match self.find(&key.shard, &key.key) {
            Some(i) => {
                self.entries.remove(i);
                self.entries.insert(i, (key, value));
                proof {
                    assert(self@ =~= pre.update(i as int, (kv, vv)));
                    lemma_spec_push_at(pre, i as int, kv.0, kv.1, vv);
                }
            },
            None => {
                self.entries.push((key, value));
                proof {
                    assert(self@ =~= pre.push((kv, vv)));
                    lemma_spec_push_absent(pre, kv.0, kv.1, vv);
                }
            },
        }
    }

    /// The value at `key`, if any.
    pub fn get(&self, key: &CofferKey) -> (r: Option<CofferValue>)
        ensures
            match r {
                Some(v) => store_lookup(self@, key.shard@, key.key@) == Some(v@),
                None => store_lookup(self@, key.shard@, key.key@) is None,
            },
    {
        proof {
            lemma_lookup_none(self@, key.shard@, key.key@);
        }
        match self.find(&key.shard, &key.key) {
            Some(i) => {
                proof {
                    lemma_lookup_at(self@, i as int, key.shard@, key.key@);
                    assert(self@[i as int] == entry_view(self.entries@[i as int]));
                }
                Some(self.entries[i].1.clone())
            },
            None => None,
        }
    }

    /// A snapshot of one shard's pairs, in insertion order; `None` when
    /// the store holds nothing under the shard.
    pub fn get_shard(&self, shard: &String) -> (r: Option<CofferShard>)
        ensures
            match r {
                Some(s) => s@ == shard_pairs(self@, shard@) && s@.len() > 0,
                None => shard_pairs(self@, shard@).len() == 0,
            },
    {
        let mut out: Vec<(String, CofferValue)> = Vec::new();
        let n = self.entries.len();
        let mut i: usize = 0;
        while i < n
            invariant
                n == self@.len(),
                i <= n,
                out@.map_values(|p: (String, CofferValue)| (p.0@, p.1@)) == shard_pairs(
                    self@.take(i as int),
                    shard@,
                ),
            decreases n - i,
        {
            let ghost pre = out@;
            proof {
                assert(self@[i as int] == entry_view(self.entries@[i as int]));
                assert(self@.take(i as int + 1).drop_last() =~= self@.take(i as int));
                assert(self@.take(i as int + 1).last() == self@[i as int]);
            }
            if self.entries[i].0.shard.eq(shard) {
                out.push((self.entries[i].0.key.clone(), self.entries[i].1.clone()));
                proof {
                    assert(out@.map_values(|p: (String, CofferValue)| (p.0@, p.1@)) =~= pre
                        .map_values(|p: (String, CofferValue)| (p.0@, p.1@)) + seq![
                        (self@[i as int].0.1, self@[i as int].1),
                    ]);
                }
            }
            i = i + 1;
        }
        proof {
            assert(self@.take(n as int) =~= self@);
        }
        if out.len() == 0 {
            None
        } else {
            Some(CofferShard(out))
        }
    }
}

impl Default for CofferMap {
    /// The default coffer is empty.
    fn default() -> (r: CofferMap)
        ensures
            r@ == Seq::<EntryView>::empty(),
            r.wf(),
    {
        CofferMap::new()
    }
}

/// Put exclusivity: when `put` succeeds for a pair, the pair afterwards
/// holds that value, so a second `put` of the same pair is refused with
/// `KeyExists` and a `get` still answers the first value.
pub proof fn lemma_put_exclusive(m: StoreView, shard: Seq<char>, key: Seq<char>, v: ValueView)
    requires
        store_lookup(m, shard, key) is None,
    ensures
        store_lookup(m.push(((shard, key), v)), shard, key) == Some(v),
{
    lemma_lookup_append(m, ((shard, key), v), shard, key);
}

/// Push idempotence: two upserts of the same pair leave the second
/// value, whatever was stored before.
pub proof fn lemma_push_idempotent(
    m: StoreView,
    shard: Seq<char>,
    key: Seq<char>,
    v1: ValueView,
    v2: ValueView,
)
    ensures
        store_lookup(spec_push(spec_push(m, shard, key, v1), shard, key, v2), shard, key) == Some(
            v2,
        ),
{
    lemma_push_lookup(spec_push(m, shard, key, v1), shard, key, v2);
}

} // verus!
