//! Append-and-index record store: records kept by key, each indexed under its
//! user at the next insertion sequence, so a user's records page back
//! newest first.
use vstd::prelude::*;
use crate::identity::UserId;
use crate::ids::{CursorNotFound, OrderId, SeqMarker, Sequence, TradeId};
use crate::assoc::{lemma_lookup_absent, lemma_lookup_at, lemma_lookup_insert, lemma_lookup_update, lookup, unique_keys};

verus! {

broadcast use {UserId::lemma_view_injective, Sequence::lemma_view_injective};

/// A key of a [`History`]: compared for equality and ordered.
pub trait HistoryKey: Copy + Sized {
    spec fn key_lt(a: Self, b: Self) -> bool;

    /// `key_lt` is a strict total order.
    proof fn lemma_key_order(a: Self, b: Self, c: Self)
        ensures
            !Self::key_lt(a, a),
            Self::key_lt(a, b) && Self::key_lt(b, c) ==> Self::key_lt(a, c),
            a != b ==> Self::key_lt(a, b) || Self::key_lt(b, a),
    ;

    fn same_key(&self, other: &Self) -> (r: bool)
        ensures
            r <==> *self == *other,
    ;

    fn key_before(&self, other: &Self) -> (r: bool)
        ensures
            r <==> Self::key_lt(*self, *other),
    ;
}

impl<M: SeqMarker> HistoryKey for Sequence<M> {
    open spec fn key_lt(a: Self, b: Self) -> bool {
        a@ < b@
    }

    proof fn lemma_key_order(a: Self, b: Self, c: Self) {
    }

    fn same_key(&self, other: &Self) -> (r: bool) {
        self.get() == other.get()
    }

    fn key_before(&self, other: &Self) -> (r: bool) {
        self.get() < other.get()
    }
}

/// Order ids by book, then by sequence.
pub open spec fn order_id_lt(a: OrderId, b: OrderId) -> bool {
    a.spec_book_id()@ < b.spec_book_id()@ || (a.spec_book_id()@ == b.spec_book_id()@ && a.spec_seq()@ < b.spec_seq()@)
}

impl HistoryKey for OrderId {
    open spec fn key_lt(a: Self, b: Self) -> bool {
        order_id_lt(a, b)
    }

    proof fn lemma_key_order(a: Self, b: Self, c: Self) {
        OrderId::lemma_fields_injective(a, b);
    }

    fn same_key(&self, other: &Self) -> (r: bool) {
        *self == *other
    }

    fn key_before(&self, other: &Self) -> (r: bool) {
        let (a, b) = (self.book_id().get(), self.seq().get());
        let (c, d) = (other.book_id().get(), other.seq().get());
        a < c || (a == c && b < d)
    }
}

impl HistoryKey for TradeId {
    open spec fn key_lt(a: Self, b: Self) -> bool {
        order_id_lt(a.spec_order_id(), b.spec_order_id()) || (a.spec_order_id() == b.spec_order_id()
            && a.spec_seq()@ < b.spec_seq()@)
    }

    proof fn lemma_key_order(a: Self, b: Self, c: Self) {
        OrderId::lemma_fields_injective(a.spec_order_id(), b.spec_order_id());
        OrderId::lemma_fields_injective(b.spec_order_id(), c.spec_order_id());
        OrderId::lemma_fields_injective(a.spec_order_id(), c.spec_order_id());
        TradeId::lemma_parts_injective(a, b);
    }

    fn same_key(&self, other: &Self) -> (r: bool) {
        *self == *other
    }

    fn key_before(&self, other: &Self) -> (r: bool) {
        let (x, y) = (self.order_id(), other.order_id());
        let (a, b) = (x.book_id().get(), x.seq().get());
        let (c, d) = (y.book_id().get(), y.seq().get());
        proof {
            OrderId::lemma_fields_injective(x, y);
        }
        a < c || (a == c && b < d) || (a == c && b == d && self.seq().get() < other.seq().get())
    }
}

/// The upper end of a key range: the key itself included, or not.
#[derive(Debug, Clone, Copy, PartialEq, Eq)]
pub enum RangeEnd<K> {
    Included(K),
    Excluded(K),
}

/// `k` lies in `[lower, upper]` (or `[lower, upper)`).
pub open spec fn in_range<K: HistoryKey>(k: K, lower: K, upper: RangeEnd<K>) -> bool {
    &&& !K::key_lt(k, lower)
    &&& match upper {
        RangeEnd::Included(u) => !K::key_lt(u, k),
        RangeEnd::Excluded(u) => K::key_lt(k, u),
    }
}

/// The keys of `user`'s records among the first `below` of the index,
/// newest first.
pub open spec fn newest_first<K>(index: Seq<(UserId, K)>, user: UserId, below: int) -> Seq<K>
    decreases below,
{
    if below <= 0 {
        Seq::empty()
    } else if index[below - 1].0 == user {
        seq![index[below - 1].1] + newest_first(index, user, below - 1)
    } else {
        newest_first(index, user, below - 1)
    }
}

/// The entries among the first `end` of `entries` whose keys lie in the
/// range, last first.
pub open spec fn range_desc<K: HistoryKey, V>(entries: Seq<(K, V)>, lower: K, upper: RangeEnd<K>, end: int) -> Seq<(K, V)>
    decreases end,
{
    if end <= 0 {
        Seq::empty()
    } else if in_range(entries[end - 1].0, lower, upper) {
        seq![entries[end - 1]] + range_desc(entries, lower, upper, end - 1)
    } else {
        range_desc(entries, lower, upper, end - 1)
    }
}

/// `r` lists index entry `e`, inserted at sequence `t`.
pub open spec fn lists_entry<K>(r: Seq<(UserId, u64, K)>, e: (UserId, K), t: int) -> bool {
    exists|a: int| 0 <= a < r.len() && #[trigger] r[a] == (e.0, t as u64, e.1)
}

/// Index entries ordered by user, then by insertion sequence.
pub open spec fn by_user_lt<K>(a: (UserId, u64, K), b: (UserId, u64, K)) -> bool {
    a.0@ < b.0@ || (a.0@ == b.0@ && a.1 < b.1)
}

/// At most the first `n` elements of `s`.
pub open spec fn first_n<A>(s: Seq<A>, n: nat) -> Seq<A> {
    if n < s.len() {
        s.take(n as int)
    } else {
        s
    }
}

/// A store of records of type `V` under keys of type `K`: a primary list in
/// key order, each entry stamped with its insertion sequence, and an index
/// holding, at each sequence, the user and key inserted then.
pub struct History<K, V> {
    primary: Vec<(K, u64, V)>,
    by_user: Vec<(UserId, K)>,
}

impl<K: HistoryKey, V: Copy> History<K, V> {
    /// The records as `(key, record)`, in key order.
    pub closed spec fn entries(&self) -> Seq<(K, V)> {
        self.primary@.map_values(|e: (K, u64, V)| (e.0, e.2))
    }

    /// Who inserted which key, in insertion order.
    pub closed spec fn index(&self) -> Seq<(UserId, K)> {
        self.by_user@
    }

    /// The record stored under `k`.
    pub open spec fn record_of(&self, k: K) -> Option<V> {
        lookup(self.entries(), k)
    }

    pub closed spec fn wf(&self) -> bool {
        &&& self.primary@.len() == self.by_user@.len()
        &&& forall|i: int, j: int| 0 <= i < j < self.primary@.len() ==> K::key_lt(#[trigger] self.primary@[i].0, #[trigger] self.primary@[j].0)
        &&& forall|i: int| 0 <= i < self.primary@.len() ==> (#[trigger] self.primary@[i]).1 < self.by_user@.len()
            && self.by_user@[self.primary@[i].1 as int].1 == self.primary@[i].0
        &&& forall|s: int| 0 <= s < self.by_user@.len() ==> exists|i: int| 0 <= i < self.primary@.len()
            && (#[trigger] self.primary@[i]).0 == (#[trigger] self.by_user@[s]).1 && self.primary@[i].1 == s
    }

    /// An empty store.
    pub fn new() -> (h: History<K, V>)
        ensures
            h.wf(),
            h.entries() == Seq::<(K, V)>::empty(),
            h.index() == Seq::<(UserId, K)>::empty(),
    {
        let h = History { primary: Vec::new(), by_user: Vec::new() };
        proof {
            assert(h.entries() =~= Seq::<(K, V)>::empty());
        }
        h
    }

    /// The number of records.
    pub fn len(&self) -> (n: u64)
        requires
            self.wf(),
        ensures
            n == self.index().len(),
            n == self.entries().len(),
    {
        self.by_user.len() as u64
    }

    proof fn lemma_entry_lookup(&self, i: int)
        requires
            self.wf(),
            0 <= i < self.primary@.len(),
        ensures
            self.record_of(self.primary@[i].0) == Some(self.primary@[i].2),
    {
        self.lemma_unique();
        assert(self.entries()[i] == (self.primary@[i].0, self.primary@[i].2));
        lemma_lookup_at(self.entries(), i);
    }

    proof fn lemma_unique(&self)
        requires
            self.wf(),
        ensures
            unique_keys(self.entries()),
    {
        assert forall|i: int, j: int| 0 <= i < j < self.entries().len() implies #[trigger] self.entries()[i].0
            != #[trigger] self.entries()[j].0 by {
            assert(K::key_lt(self.primary@[i].0, self.primary@[j].0));
            K::lemma_key_order(self.primary@[i].0, self.primary@[i].0, self.primary@[i].0);
        }
    }

    /// Where `key` is, or would go, in the primary list.
    fn position(&self, key: &K) -> (r: (usize, bool))
        requires
            self.wf(),
        ensures
            r.0 <= self.primary@.len(),
            forall|j: int| 0 <= j < r.0 ==> K::key_lt(#[trigger] self.primary@[j].0, *key),
            r.1 <==> r.0 < self.primary@.len() && self.primary@[r.0 as int].0 == *key,
            !r.1 ==> forall|j: int| r.0 <= j < self.primary@.len() ==> K::key_lt(*key, #[trigger] self.primary@[j].0),
            !r.1 ==> self.record_of(*key) is None,
    {
        let mut i: usize = 0;
        let mut done = false;
        while !done && i < self.primary.len()
            invariant
                self.wf(),
                i <= self.primary@.len(),
                forall|j: int| 0 <= j < i ==> K::key_lt(#[trigger] self.primary@[j].0, *key),
                done ==> i < self.primary@.len() && !K::key_lt(self.primary@[i as int].0, *key),
            decreases self.primary@.len() - i + (if done { 0int } else { 1int }),
        {
            if !self.primary[i].0.key_before(key) {
                done = true;
            } else {
                i = i + 1;
            }
        }
        let found = i < self.primary.len() && self.primary[i].0.same_key(key);
        proof {
            if !found {
                if i < self.primary@.len() {
                    K::lemma_key_order(self.primary@[i as int].0, *key, *key);
                }
                assert forall|j: int| i <= j < self.primary@.len() implies K::key_lt(*key, #[trigger] self.primary@[j].0) by {
                    if j > i {
                        assert(K::key_lt(self.primary@[i as int].0, self.primary@[j].0));
                        K::lemma_key_order(*key, self.primary@[i as int].0, self.primary@[j].0);
                    }
                }
                assert forall|j: int| 0 <= j < self.entries().len() implies #[trigger] self.entries()[j].0 != *key by {
                    assert(self.entries()[j].0 == self.primary@[j].0);
                    K::lemma_key_order(*key, *key, *key);
                }
                lemma_lookup_absent(self.entries(), *key);
            }
        }
        (i, found)
    }

    /// A copy of the record stored under `key`, or `None`.
    pub fn get(&self, key: &K) -> (r: Option<V>)
        requires
            self.wf(),
        ensures
            r == self.record_of(*key),
    {
        let (i, found) = self.position(key);
        if found {
            proof {
                self.lemma_entry_lookup(i as int);
            }
            Some(self.primary[i].2)
        } else {
            None
        }
    }

    /// Whether a record is stored under `key`.
    pub fn contains_key(&self, key: &K) -> (r: bool)
        requires
            self.wf(),
        ensures
            r <==> self.record_of(*key) is Some,
    {
        let (i, found) = self.position(key);
        proof {
            if found {
                self.lemma_entry_lookup(i as int);
            }
        }
        found
    }

    /// Insert a new record under `key`, which must be new to the store, and
    /// index it under `user` at the next insertion sequence.
    pub fn insert_once(&mut self, user: UserId, key: K, record: V)
        requires
            old(self).wf(),
            old(self).record_of(key) is None,
            old(self).index().len() < u64::MAX,
        ensures
            final(self).wf(),
            final(self).index() == old(self).index().push((user, key)),
            final(self).record_of(key) == Some(record),
            forall|k: K| k != key ==> #[trigger] final(self).record_of(k) == old(self).record_of(k),
    {
        let ghost p0 = self.primary@;
        let ghost u0 = self.by_user@;
        let ghost e0 = self.entries();
        let (i, found) = self.position(&key);
        proof {
            self.lemma_unique();
            if found {
                self.lemma_entry_lookup(i as int);
            }
            assert forall|j: int| 0 <= j < e0.len() implies #[trigger] e0[j].0 != key by {
                assert(e0[j].0 == p0[j].0);
                K::lemma_key_order(key, key, key);
            }
        }
        let seq = self.by_user.len() as u64;
        self.primary.insert(i, (key, seq, record));
        self.by_user.push((user, key));
        proof {
            let p = self.primary@;
            let u = self.by_user@;
            assert(p =~= p0.insert(i as int, (key, seq, record)));
            assert(u =~= u0.push((user, key)));
            assert forall|a: int, b: int| 0 <= a < b < p.len() implies K::key_lt(#[trigger] p[a].0, #[trigger] p[b].0) by {
                if b < i {
                    assert(p[a] == p0[a] && p[b] == p0[b]);
                } else if b == i {
                    assert(p[a] == p0[a]);
                } else if a < i {
                    assert(p[a] == p0[a] && p[b] == p0[b - 1]);
                    K::lemma_key_order(p0[a].0, key, p0[b - 1].0);
                } else if a == i {
                    assert(p[b] == p0[b - 1]);
                } else {
                    assert(p[a] == p0[a - 1] && p[b] == p0[b - 1]);
                }
            }
            assert forall|a: int| 0 <= a < p.len() implies (#[trigger] p[a]).1 < u.len() && u[p[a].1 as int].1 == p[a].0 by {
                if a < i {
                    assert(p[a] == p0[a]);
                } else if a > i {
                    assert(p[a] == p0[a - 1]);
                }
            }
            assert forall|s: int| 0 <= s < u.len() implies exists|a: int| 0 <= a < p.len() && (#[trigger] p[a]).0 == (
            #[trigger] u[s]).1 && p[a].1 == s by {
                if s == u0.len() {
                    assert(p[i as int].0 == u[s].1 && p[i as int].1 == s);
                } else {
                    assert(u[s] == u0[s]);
                    let a0 = choose|a: int| 0 <= a < p0.len() && (#[trigger] p0[a]).0 == (#[trigger] u0[s]).1 && p0[a].1 == s;
                    if a0 < i {
                        assert(p[a0] == p0[a0]);
                    } else {
                        assert(p[a0 + 1] == p0[a0]);
                    }
                }
            }
            assert(self.entries() =~= e0.insert(i as int, (key, record)));
            lemma_lookup_insert(e0, i as int, key, record, key);
            assert forall|k: K| k != key implies #[trigger] self.record_of(k) == old(self).record_of(k) by {
                lemma_lookup_insert(e0, i as int, key, record, k);
            }
        }
    }

    /// Every indexed key has its record.
    pub proof fn lemma_indexed_key_recorded(&self, s: int)
        requires
            self.wf(),
            0 <= s < self.index().len(),
        ensures
            self.record_of(self.index()[s].1) is Some,
    {
        let a = choose|a: int| 0 <= a < self.primary@.len() && (#[trigger] self.primary@[a]).0 == (#[trigger] self.by_user@[s]).1
            && self.primary@[a].1 == s;
        self.lemma_entry_lookup(a);
    }

    /// Each key is indexed once.
    proof fn lemma_index_unique(&self, s1: int, s2: int)
        requires
            self.wf(),
            0 <= s1 < self.by_user@.len(),
            0 <= s2 < self.by_user@.len(),
            self.by_user@[s1].1 == self.by_user@[s2].1,
        ensures
            s1 == s2,
    {
        let i1 = choose|a: int| 0 <= a < self.primary@.len() && (#[trigger] self.primary@[a]).0 == self.by_user@[s1].1
            && self.primary@[a].1 == s1;
        let i2 = choose|a: int| 0 <= a < self.primary@.len() && (#[trigger] self.primary@[a]).0 == self.by_user@[s2].1
            && self.primary@[a].1 == s2;
        assert(self.primary@[i1] == self.primary@[i1]);
        assert(self.by_user@[s1] == self.by_user@[s1]);
        assert(self.by_user@[s2] == self.by_user@[s2]);
        if i1 < i2 {
            assert(K::key_lt(self.primary@[i1].0, self.primary@[i2].0));
            K::lemma_key_order(self.primary@[i1].0, self.primary@[i1].0, self.primary@[i1].0);
        } else if i2 < i1 {
            assert(K::key_lt(self.primary@[i2].0, self.primary@[i1].0));
            K::lemma_key_order(self.primary@[i2].0, self.primary@[i2].0, self.primary@[i2].0);
        }
    }

    /// The page of `user`'s keys that `page_by_user` returns: up to `length`
    /// of them newest first, from the newest or from just below the cursor,
    /// which must be one of `user`'s own records.
    pub open spec fn page_spec(&self, user: UserId, after: Option<K>, length: nat) -> Result<Seq<K>, CursorNotFound> {
        match after {
            None => Ok(first_n(newest_first(self.index(), user, self.index().len() as int), length)),
            Some(c) => if exists|s: int| 0 <= s < self.index().len() && #[trigger] self.index()[s] == (user, c) {
                Ok(
                    first_n(
                        newest_first(
                            self.index(),
                            user,
                            choose|s: int| 0 <= s < self.index().len() && #[trigger] self.index()[s] == (user, c),
                        ),
                        length,
                    ),
                )
            } else {
                Err(CursorNotFound)
            },
        }
    }

    /// The keys of `user`'s records below sequence `below`, newest first, at
    /// most `length` of them.
    fn scan_user(&self, user: UserId, below: usize, length: usize) -> (r: Vec<K>)
        requires
            below <= self.by_user@.len(),
        ensures
            r@ == first_n(newest_first(self.index(), user, below as int), length as nat),
    {
        let ghost idx = self.by_user@;
        let mut out: Vec<K> = Vec::new();
        let mut t: usize = below;
        proof {
            assert(out@ + newest_first(idx, user, t as int) =~= newest_first(idx, user, below as int));
        }
        while t > 0 && out.len() < length
            invariant
                t <= below <= idx.len(),
                idx == self.by_user@,
                out@.len() <= length,
                out@ + newest_first(idx, user, t as int) == newest_first(idx, user, below as int),
            decreases t,
        {
            let ghost before = out@;
            t = t - 1;
            if self.by_user[t].0 == user {
                out.push(self.by_user[t].1);
                proof {
                    assert(out@ + newest_first(idx, user, t as int) =~= before + newest_first(idx, user, t + 1));
                }
            } else {
                proof {
                    assert(newest_first(idx, user, t + 1) == newest_first(idx, user, t as int));
                }
            }
        }
        proof {
            let full = newest_first(idx, user, below as int);
            if t == 0 {
                assert(newest_first(idx, user, 0) == Seq::<K>::empty());
                assert(out@ =~= full);
            } else {
                assert(full.take(length as int) =~= out@);
                if length as nat >= full.len() {
                    assert(out@ =~= full);
                }
            }
        }
        out
    }

    /// Up to `length` of `user`'s keys, newest first. With `after: None` the
    /// page starts at the newest record; otherwise `after` is the last key of
    /// the previous page and the page continues with the next older one. An
    /// `after` that names no record, or another user's record, is
    /// [`CursorNotFound`]; a valid cursor with nothing older gives an empty
    /// page.
    pub fn page_by_user(&self, user: UserId, after: Option<K>, length: usize) -> (r: Result<Vec<K>, CursorNotFound>)
        requires
            self.wf(),
        ensures
            match r {
                Ok(page) => self.page_spec(user, after, length as nat) == Ok::<Seq<K>, CursorNotFound>(page@),
                Err(e) => self.page_spec(user, after, length as nat) == Err::<Seq<K>, CursorNotFound>(e),
            },
    {
        match after {
            None => Ok(self.scan_user(user, self.by_user.len(), length)),
            Some(cursor) => {
                let (i, found) = self.position(&cursor);
                if !found {
                    proof {
                        assert forall|s: int| 0 <= s < self.index().len() implies #[trigger] self.index()[s] != (user, cursor) by {
                            if self.index()[s] == (user, cursor) {
                                let a = choose|a: int| 0 <= a < self.primary@.len() && (#[trigger] self.primary@[a]).0
                                    == (#[trigger] self.by_user@[s]).1 && self.primary@[a].1 == s;
                                self.lemma_entry_lookup(a);
                            }
                        }
                    }
                    return Err(CursorNotFound);
                }
                let n = self.by_user.len();
                proof {
                    assert(self.primary@[i as int] == self.primary@[i as int]);
                    assert(self.primary@[i as int].1 < n);
                }
                let s = self.primary[i].1 as usize;
                proof {
                    assert(s as int == self.primary@[i as int].1 as int);
                    assert(self.primary@[i as int].0 == cursor);
                    assert(self.by_user@[s as int].1 == cursor);
                }
                if !(self.by_user[s].0 == user && self.by_user[s].1.same_key(&cursor)) {
                    proof {
                        assert forall|t: int| 0 <= t < self.index().len() implies #[trigger] self.index()[t] != (user, cursor) by {
                            if self.index()[t] == (user, cursor) {
                                self.lemma_index_unique(s as int, t);
                            }
                        }
                    }
                    return Err(CursorNotFound);
                }
                proof {
                    assert(self.index()[s as int] == (user, cursor));
                    let c = choose|t: int| 0 <= t < self.index().len() && #[trigger] self.index()[t] == (user, cursor);
                    self.lemma_index_unique(s as int, c);
                }
                Ok(self.scan_user(user, s, length))
            },
        }
    }

    /// Read-modify-write the record under `key`, which must exist: `f` takes
    /// the record and gives back the new one and whether it changed; only a
    /// changed record is written back.
    pub fn modify<F: FnOnce(V) -> (V, bool)>(&mut self, key: &K, f: F)
        requires
            old(self).wf(),
            old(self).record_of(*key) is Some,
            f.requires((old(self).record_of(*key)->Some_0,)),
        ensures
            final(self).wf(),
            final(self).index() == old(self).index(),
            exists|r: (V, bool)|
                f.ensures((old(self).record_of(*key)->Some_0,), r) && #[trigger] final(self).record_of(*key) == Some(
                    if r.1 {
                        r.0
                    } else {
                        old(self).record_of(*key)->Some_0
                    },
                ),
            forall|k: K| k != *key ==> #[trigger] final(self).record_of(k) == old(self).record_of(k),
    {
        let ghost e0 = self.entries();
        let ghost p0 = self.primary@;
        proof {
            self.lemma_unique();
        }
        let (i, found) = self.position(key);
        proof {
            self.lemma_entry_lookup(i as int);
        }
        let v = self.primary[i].2;
        let r = f(v);
        let (nv, changed) = r;
        if changed {
            let k = self.primary[i].0;
            let seq = self.primary[i].1;
            self.primary.set(i, (k, seq, nv));
            proof {
                let p = self.primary@;
                assert(p =~= p0.update(i as int, (k, seq, nv)));
                assert forall|a: int, b: int| 0 <= a < b < p.len() implies K::key_lt(#[trigger] p[a].0, #[trigger] p[b].0) by {
                    assert(p[a].0 == p0[a].0 && p[b].0 == p0[b].0);
                }
                assert forall|a: int| 0 <= a < p.len() implies (#[trigger] p[a]).1 < self.by_user@.len() && self.by_user@[p[a].1 as int].1 == p[a].0 by {
                    assert(p[a].0 == p0[a].0 && p[a].1 == p0[a].1);
                }
                assert forall|t: int| 0 <= t < self.by_user@.len() implies exists|a: int| 0 <= a < p.len() && (#[trigger] p[a]).0 == (
                #[trigger] self.by_user@[t]).1 && p[a].1 == t by {
                    let a0 = choose|a: int| 0 <= a < p0.len() && (#[trigger] p0[a]).0 == (#[trigger] self.by_user@[t]).1 && p0[a].1 == t;
                    assert(p[a0].0 == p0[a0].0 && p[a0].1 == p0[a0].1);
                }
                assert(self.entries() =~= e0.update(i as int, (e0[i as int].0, nv)));
                lemma_lookup_update(e0, i as int, nv, *key);
                assert forall|k: K| k != *key implies #[trigger] self.record_of(k) == old(self).record_of(k) by {
                    lemma_lookup_update(e0, i as int, nv, k);
                }
            }
        }
    }

    /// Up to `length` records with keys in `[lower, upper]` (or
    /// `[lower, upper)`), in descending key order.
    pub fn range_primary(&self, lower: K, upper: RangeEnd<K>, length: usize) -> (r: Vec<(K, V)>)
        requires
            self.wf(),
        ensures
            r@ == first_n(range_desc(self.entries(), lower, upper, self.entries().len() as int), length as nat),
    {
        let ghost es = self.entries();
        let ghost n = es.len() as int;
        let mut out: Vec<(K, V)> = Vec::new();
        let mut t: usize = self.primary.len();
        proof {
            assert(out@ + range_desc(es, lower, upper, t as int) =~= range_desc(es, lower, upper, n));
        }
        while t > 0 && out.len() < length
            invariant
                t <= self.primary@.len(),
                es == self.entries(),
                n == es.len(),
                out@.len() <= length,
                out@ + range_desc(es, lower, upper, t as int) == range_desc(es, lower, upper, n),
            decreases t,
        {
            let ghost before = out@;
            t = t - 1;
            let k = self.primary[t].0;
            let inside = !k.key_before(&lower) && match upper {
                RangeEnd::Included(u) => !u.key_before(&k),
                RangeEnd::Excluded(u) => k.key_before(&u),
            };
            proof {
                assert(es[t as int] == (k, self.primary@[t as int].2));
                assert(inside == in_range(k, lower, upper));
            }
            if inside {
                out.push((k, self.primary[t].2));
                proof {
                    assert(out@ + range_desc(es, lower, upper, t as int) =~= before + range_desc(es, lower, upper, t + 1));
                }
            }
        }
        proof {
            let full = range_desc(es, lower, upper, n);
            if t == 0 {
                assert(range_desc(es, lower, upper, 0) == Seq::<(K, V)>::empty());
                assert(out@ =~= full);
            } else {
                assert(full.take(length as int) =~= out@);
                if length as nat >= full.len() {
                    assert(out@ =~= full);
                }
            }
        }
        out
    }

    /// Every record as `(key, record)`, in key order.
    pub fn iter_primary(&self) -> (r: Vec<(K, V)>)
        ensures
            r@ == self.entries(),
    {
        let mut out: Vec<(K, V)> = Vec::new();
        let mut i: usize = 0;
        while i < self.primary.len()
            invariant
                i <= self.primary@.len(),
                out@ == self.entries().take(i as int),
            decreases self.primary@.len() - i,
        {
            out.push((self.primary[i].0, self.primary[i].2));
            i = i + 1;
            proof {
                assert(out@ =~= self.entries().take(i as int));
            }
        }
        proof {
            assert(self.entries().take(i as int) =~= self.entries());
        }
        out
    }

    /// The index as `(user, insertion sequence, key)`, ordered by user and
    /// then by sequence.
    pub fn iter_by_user(&self) -> (r: Vec<(UserId, u64, K)>)
        requires
            self.wf(),
        ensures
            r@.len() == self.index().len(),
            forall|a: int, b: int| 0 <= a < b < r@.len() ==> by_user_lt(#[trigger] r@[a], #[trigger] r@[b]),
            forall|a: int| 0 <= a < r@.len() ==> (#[trigger] r@[a]).1 < self.index().len() && self.index()[r@[a].1 as int] == (
            r@[a].0, r@[a].2),
            forall|t: int| 0 <= t < self.index().len() ==> #[trigger] lists_entry(r@, self.index()[t], t),
    {
        let ghost idx = self.by_user@;
        let mut out: Vec<(UserId, u64, K)> = Vec::new();
        let mut s: usize = 0;
        while s < self.by_user.len()
            invariant
                idx == self.by_user@,
                s <= idx.len(),
                out@.len() == s,
                forall|a: int, b: int| 0 <= a < b < out@.len() ==> by_user_lt(#[trigger] out@[a], #[trigger] out@[b]),
                forall|a: int| 0 <= a < out@.len() ==> (#[trigger] out@[a]).1 < s && idx[out@[a].1 as int] == (out@[a].0, out@[a].2),
                forall|t: int| 0 <= t < s ==> #[trigger] lists_entry(out@, idx[t], t),
            decreases idx.len() - s,
        {
            let (u, k) = self.by_user[s];
            let seq = s as u64;
            let mut p: usize = 0;
            while p < out.len() && out[p].0.get() <= u.get()
                invariant
                    p <= out@.len(),
                    forall|a: int| 0 <= a < p ==> (#[trigger] out@[a]).0@ <= u@,
                decreases out@.len() - p,
            {
                p = p + 1;
            }
            let ghost o0 = out@;
            out.insert(p, (u, seq, k));
            proof {
                let o = out@;
                assert(o =~= o0.insert(p as int, (u, seq, k)));
                assert forall|a: int, b: int| 0 <= a < b < o.len() implies by_user_lt(#[trigger] o[a], #[trigger] o[b]) by {
                    if b < p {
                        assert(o[a] == o0[a] && o[b] == o0[b]);
                    } else if b == p {
                        assert(o[a] == o0[a]);
                        assert(o0[a].1 < s);
                    } else if a < p {
                        assert(o[a] == o0[a] && o[b] == o0[b - 1]);
                        if b - 1 > p {
                            assert(by_user_lt(o0[p as int], o0[b - 1]));
                        }
                        assert(o0[p as int].0@ > u@);
                    } else if a == p {
                        assert(o[b] == o0[b - 1]);
                        if b - 1 > p {
                            assert(by_user_lt(o0[p as int], o0[b - 1]));
                        }
                        assert(o0[p as int].0@ > u@);
                    } else {
                        assert(o[a] == o0[a - 1] && o[b] == o0[b - 1]);
                    }
                }
                assert forall|a: int| 0 <= a < o.len() implies (#[trigger] o[a]).1 < s + 1 && idx[o[a].1 as int] == (o[a].0, o[a].2) by {
                    if a < p {
                        assert(o[a] == o0[a]);
                    } else if a > p {
                        assert(o[a] == o0[a - 1]);
                    }
                }
                assert forall|t: int| 0 <= t < s + 1 implies #[trigger] lists_entry(o, idx[t], t) by {
                    if t == s {
                        assert(o[p as int] == (idx[t].0, t as u64, idx[t].1));
                    } else {
                        assert(lists_entry(o0, idx[t], t));
                        let a0 = choose|a: int| 0 <= a < o0.len() && #[trigger] o0[a] == (idx[t].0, t as u64, idx[t].1);
                        if a0 < p {
                            assert(o[a0] == o0[a0]);
                        } else {
                            assert(o[a0 + 1] == o0[a0]);
                        }
                    }
                }
            }
            s = s + 1;
        }
        proof {
            assert(self.index() == idx);
        }
        out
    }

    /// Paging continues where the previous page stopped: after a full page
    /// of `n` records, the page that starts after its last key holds the next
    /// older records, so the two pages together are the first `n + m`.
    pub proof fn lemma_pages_continue(&self, user: UserId, n: nat, m: nat)
        requires
            self.wf(),
            n > 0,
            self.page_spec(user, None, n) matches Ok(p) && p.len() == n,
        ensures
            self.page_spec(user, None, n) matches Ok(p) && self.page_spec(user, Some(p.last()), m) matches Ok(q) && p + q
                == self.page_spec(user, None, n + m)->Ok_0,
    {
        let idx = self.index();
        let all = newest_first(idx, user, idx.len() as int);
        let p = first_n(all, n);
        assert(n <= all.len());
        assert(p =~= all.take(n as int));
        let c = all[n - 1];
        assert(p.last() == c);
        let pos = lemma_newest_first_suffix(idx, user, idx.len() as int, n - 1);
        assert(idx[pos] == (user, c));
        let s = choose|s: int| 0 <= s < idx.len() && #[trigger] idx[s] == (user, c);
        self.lemma_index_unique(pos, s);
        let q = first_n(newest_first(idx, user, pos), m);
        assert(newest_first(idx, user, pos) == all.skip(n as int));
        assert(p + q =~= first_n(all, n + m));
    }
}

/// The `j`-th key of a user's newest-first list sits at some position `p` of
/// the index, and what follows it in the list is the list below `p`.
pub proof fn lemma_newest_first_suffix<K>(index: Seq<(UserId, K)>, user: UserId, below: int, j: int) -> (p: int)
    requires
        0 <= below <= index.len(),
        0 <= j < newest_first(index, user, below).len(),
    ensures
        0 <= p < below,
        index[p] == (user, newest_first(index, user, below)[j]),
        newest_first(index, user, below).skip(j + 1) == newest_first(index, user, p),
    decreases below,
{
    let nf = newest_first(index, user, below);
    if index[below - 1].0 == user {
        if j == 0 {
            assert(nf.skip(1) =~= newest_first(index, user, below - 1));
            below - 1
        } else {
            let p = lemma_newest_first_suffix(index, user, below - 1, j - 1);
            assert(nf.skip(j + 1) =~= newest_first(index, user, below - 1).skip(j));
            p
        }
    } else {
        lemma_newest_first_suffix(index, user, below - 1, j)
    }
}

} // verus!
