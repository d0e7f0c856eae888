//! Per-side order storage: price levels in ascending key order, each a FIFO
//! queue of values, and a walk over all values level by level.
use vstd::prelude::*;
use vstd::laws_cmp::obeys_cmp;
use vstd::laws_eq::obeys_concrete_eq;
use vstd::std_specs::cmp::{OrdSpec, PartialEqSpec, PartialOrdIs, PartialOrdSpec};

verus! {

/// A list of levels with each queue taken by its contents.
pub open spec fn level_views<K, V>(levels: Seq<(K, Vec<V>)>) -> Seq<(K, Seq<V>)> {
    levels.map_values(|l: (K, Vec<V>)| (l.0, l.1@))
}

/// The `(key, value)` pairs of one level, oldest first.
pub open spec fn level_pairs<K, V>(level: (K, Seq<V>)) -> Seq<(K, V)> {
    level.1.map_values(|v: V| (level.0, v))
}

/// All `(key, value)` pairs of a list of levels, level after level.
pub open spec fn flat_pairs<K, V>(levels: Seq<(K, Seq<V>)>) -> Seq<(K, V)>
    decreases levels.len(),
{
    if levels.len() == 0 {
        Seq::empty()
    } else {
        flat_pairs(levels.drop_last()) + level_pairs(levels.last())
    }
}

proof fn lemma_flat_pairs_push<K, V>(levels: Seq<(K, Seq<V>)>, l: (K, Seq<V>))
    ensures
        flat_pairs(levels.push(l)) == flat_pairs(levels) + level_pairs(l),
{
    assert(levels.push(l).drop_last() =~= levels);
}

/// The pairs of a concatenation are the concatenation of the pairs.
proof fn lemma_flat_pairs_concat<K, V>(a: Seq<(K, Seq<V>)>, b: Seq<(K, Seq<V>)>)
    ensures
        flat_pairs(a + b) == flat_pairs(a) + flat_pairs(b),
    decreases b.len(),
{
    if b.len() == 0 {
        assert(a + b =~= a);
        assert(flat_pairs(a) + flat_pairs(b) =~= flat_pairs(a));
    } else {
        lemma_flat_pairs_concat(a, b.drop_last());
        assert((a + b).drop_last() =~= a + b.drop_last());
        assert((a + b).last() == b.last());
        assert(flat_pairs(a) + flat_pairs(b) =~= flat_pairs(a) + flat_pairs(b.drop_last()) + level_pairs(b.last()));
    }
}

/// A walk over the values of a list of levels: level after level, oldest
/// value first within a level, skipping empty levels.
pub struct OrderIter<'a, K, V> {
    levels: &'a Vec<(K, Vec<V>)>,
    outer: usize,
    inner: usize,
}

/// The walk over an [`OrderQueue`]'s values.
pub type OrderQueueIter<'a, K, V> = OrderIter<'a, K, V>;

impl<'a, K, V> OrderIter<'a, K, V> {
    pub closed spec fn spec_levels(&self) -> Seq<(K, Seq<V>)> {
        level_views(self.levels@)
    }

    /// How many values the walk has handed out.
    pub closed spec fn spec_pos(&self) -> nat {
        flat_pairs(self.spec_levels().take(self.outer as int)).len() + self.inner as nat
    }

    pub closed spec fn wf(&self) -> bool {
        &&& self.outer <= self.levels@.len()
        &&& self.outer < self.levels@.len() ==> self.inner <= self.levels@[self.outer as int].1@.len()
        &&& self.outer == self.levels@.len() ==> self.inner == 0
    }

    /// The values still to come.
    pub open spec fn remaining(&self) -> Seq<(K, V)> {
        flat_pairs(self.spec_levels()).skip(self.spec_pos() as int)
    }

    pub fn new(levels: &'a Vec<(K, Vec<V>)>) -> (it: OrderIter<'a, K, V>)
        ensures
            it.wf(),
            it.spec_levels() == level_views(levels@),
            it.remaining() == flat_pairs(level_views(levels@)),
    {
        let it = OrderIter { levels, outer: 0, inner: 0 };
        proof {
            assert(level_views(levels@).take(0) =~= Seq::<(K, Seq<V>)>::empty());
            assert(flat_pairs(level_views(levels@)).skip(0) =~= flat_pairs(level_views(levels@)));
        }
        it
    }

    /// The next value with its level's key, or `None` once every value has
    /// been handed out (and on every call after that).
    pub fn next(&mut self) -> (r: Option<(&'a K, &'a V)>)
        requires
            old(self).wf(),
        ensures
            final(self).wf(),
            final(self).spec_levels() == old(self).spec_levels(),
            old(self).remaining().len() == 0 ==> r is None && final(self).remaining().len() == 0,
            old(self).remaining().len() > 0 ==> (r matches Some((k, v)) && *k == old(self).remaining()[0].0 && *v
                == old(self).remaining()[0].1) && final(self).remaining() == old(self).remaining().drop_first(),
    {
        let ghost ls = self.spec_levels();
        loop
            invariant
                self.wf(),
                self.spec_levels() == ls,
                ls.len() == self.levels@.len(),
                ls == old(self).spec_levels(),
                self.remaining() == old(self).remaining(),
            decreases ls.len() - self.outer,
        {
            proof {
                lemma_iter_position(ls, self.outer as int, self.inner as int);
            }
            if self.outer >= self.levels.len() {
                return None;
            }
            let level = &self.levels[self.outer];
            if self.inner < level.1.len() {
                let v = &level.1[self.inner];
                let k = &level.0;
                let ghost o = self.outer as int;
                let ghost i = self.inner as int;
                let ghost before = self.remaining();
                self.inner = self.inner + 1;
                proof {
                    lemma_iter_position(ls, o, i + 1);
                    lemma_iter_index(ls, o, i);
                    assert(self.remaining() =~= before.drop_first());
                }
                return Some((k, v));
            }
            proof {
                lemma_iter_advance(ls, self.outer as int);
            }
            self.outer = self.outer + 1;
            self.inner = 0;
        }
    }

    /// Every value still to come, with its level's key, in walk order.
    pub fn rest(&mut self) -> (r: Vec<(&'a K, &'a V)>)
        requires
            old(self).wf(),
        ensures
            final(self).wf(),
            final(self).remaining().len() == 0,
            r@.len() == old(self).remaining().len(),
            forall|j: int| 0 <= j < r@.len() ==> *(#[trigger] r@[j]).0 == old(self).remaining()[j].0 && *r@[j].1
                == old(self).remaining()[j].1,
    {
        let ghost start = self.remaining();
        let mut out: Vec<(&'a K, &'a V)> = Vec::new();
        loop
            invariant
                self.wf(),
                self.spec_levels() == old(self).spec_levels(),
                start == old(self).remaining(),
                out@.len() + self.remaining().len() == start.len(),
                self.remaining() == start.skip(out@.len() as int),
                forall|j: int| 0 <= j < out@.len() ==> *(#[trigger] out@[j]).0 == start[j].0 && *out@[j].1 == start[j].1,
            ensures
                self.wf(),
                self.remaining().len() == 0,
                out@.len() == start.len(),
                forall|j: int| 0 <= j < out@.len() ==> *(#[trigger] out@[j]).0 == start[j].0 && *out@[j].1 == start[j].1,
            decreases self.remaining().len(),
        {
            let ghost before = self.remaining();
            match self.next() {
                Some(p) => {
                    proof {
                        assert(before[0] == start[out@.len() as int]);
                        assert(start.skip(out@.len() as int + 1) =~= before.drop_first());
                    }
                    out.push(p);
                },
                None => {
                    break;
                },
            }
        }
        out
    }
}

/// Number of pairs before level `o`, and where the walk stands.
proof fn lemma_iter_position<K, V>(ls: Seq<(K, Seq<V>)>, o: int, i: int)
    requires
        0 <= o <= ls.len(),
        o < ls.len() ==> 0 <= i <= ls[o].1.len(),
        o == ls.len() ==> i == 0,
    ensures
        flat_pairs(ls.take(o)).len() + i <= flat_pairs(ls).len(),
        o == ls.len() ==> flat_pairs(ls.take(o)).len() + i == flat_pairs(ls).len(),
        o < ls.len() && i == ls[o].1.len() ==> flat_pairs(ls.take(o)).len() + i == flat_pairs(ls.take(o + 1)).len(),
{
    if o == ls.len() {
        assert(ls.take(o) =~= ls);
    } else {
        lemma_flat_pairs_concat(ls.take(o + 1), ls.skip(o + 1));
        assert(ls.take(o + 1) + ls.skip(o + 1) =~= ls);
        assert(ls.take(o + 1) =~= ls.take(o).push(ls[o]));
        lemma_flat_pairs_push(ls.take(o), ls[o]);
    }
}

/// The pair at the walk's position inside level `o`.
proof fn lemma_iter_index<K, V>(ls: Seq<(K, Seq<V>)>, o: int, i: int)
    requires
        0 <= o < ls.len(),
        0 <= i < ls[o].1.len(),
    ensures
        flat_pairs(ls)[flat_pairs(ls.take(o)).len() + i] == (ls[o].0, ls[o].1[i]),
{
    lemma_flat_pairs_concat(ls.take(o + 1), ls.skip(o + 1));
    assert(ls.take(o + 1) + ls.skip(o + 1) =~= ls);
    assert(ls.take(o + 1) =~= ls.take(o).push(ls[o]));
    lemma_flat_pairs_push(ls.take(o), ls[o]);
}

/// Moving past an exhausted level does not move the position.
proof fn lemma_iter_advance<K, V>(ls: Seq<(K, Seq<V>)>, o: int)
    requires
        0 <= o < ls.len(),
    ensures
        flat_pairs(ls.take(o + 1)).len() == flat_pairs(ls.take(o)).len() + ls[o].1.len(),
{
    assert(ls.take(o + 1) =~= ls.take(o).push(ls[o]));
    lemma_flat_pairs_push(ls.take(o), ls[o]);
}

/// `a` is below `b` in the key order.
pub open spec fn key_lt<K: PartialOrd>(a: K, b: K) -> bool {
    a.is_lt(&b)
}

/// Keys of type `K` are totally ordered by `<`, and `==` is equality.
pub open spec fn ordered_keys<K: Ord>() -> bool {
    obeys_cmp::<K>() && obeys_concrete_eq::<K>()
}

/// What a totally ordered key type gives: `<` and `==` compute the spec
/// order and equality, and the order is strict, transitive and total.
proof fn lemma_ordered_keys<K: Ord>()
    requires
        ordered_keys::<K>(),
    ensures
        K::obeys_partial_cmp_spec(),
        K::obeys_eq_spec(),
        forall|x: K, y: K| #[trigger] x.eq_spec(&y) <==> x == y,
        forall|x: K, y: K| #[trigger] key_lt(x, y) ==> x != y,
        forall|x: K, y: K, z: K| #[trigger] key_lt(x, y) && #[trigger] key_lt(y, z) ==> key_lt(x, z),
        forall|x: K, y: K| !(#[trigger] key_lt(x, y)) && x != y ==> key_lt(y, x),
{
    reveal(vstd::laws_cmp::obeys_cmp_partial_ord);
    reveal(vstd::laws_cmp::obeys_partial_cmp_spec_properties);
    reveal(vstd::laws_cmp::obeys_cmp_ord);
    reveal(vstd::laws_eq::obeys_eq_spec_properties);
    reveal(vstd::laws_eq::obeys_concrete_eq);
    assert forall|x: K, y: K| !(#[trigger] key_lt(x, y)) && x != y implies key_lt(y, x) by {
        assert(x.partial_cmp_spec(&y) == Some(x.cmp_spec(&y)));
        assert(y.partial_cmp_spec(&x) == Some(y.cmp_spec(&x)));
    }
}

/// Keys strictly ascend along the levels.
pub open spec fn keys_ascending<K: PartialOrd, V>(levels: Seq<(K, Seq<V>)>) -> bool {
    forall|i: int, j: int| 0 <= i < j < levels.len() ==> key_lt((#[trigger] levels[i].0), (#[trigger] levels[j].0))
}

/// Index of the level with key `key`, if any.
pub open spec fn key_index<K, V>(levels: Seq<(K, Seq<V>)>, key: K) -> Option<nat>
    decreases levels.len(),
{
    if levels.len() == 0 {
        None
    } else if levels[0].0 == key {
        Some(0)
    } else {
        match key_index(levels.drop_first(), key) {
            Some(i) => Some(i + 1),
            None => None,
        }
    }
}

/// Number of leading levels whose key is below `key`: where a new level goes.
pub open spec fn key_pos<K: PartialOrd, V>(levels: Seq<(K, Seq<V>)>, key: K) -> nat
    decreases levels.len(),
{
    if levels.len() == 0 || !key_lt(levels[0].0, key) {
        0
    } else {
        1 + key_pos(levels.drop_first(), key)
    }
}

/// The levels after appending `value` at level `key` (a new level if there is none).
pub open spec fn pushed<K: PartialOrd, V>(levels: Seq<(K, Seq<V>)>, key: K, value: V) -> Seq<(K, Seq<V>)> {
    match key_index(levels, key) {
        Some(i) => levels.update(i as int, (key, levels[i as int].1.push(value))),
        None => levels.insert(key_pos(levels, key) as int, (key, seq![value])),
    }
}

/// The levels after taking value `j` out of level `i`, dropping the level if it empties.
pub open spec fn taken<K, V>(levels: Seq<(K, Seq<V>)>, i: int, j: int) -> Seq<(K, Seq<V>)> {
    if levels[i].1.len() == 1 {
        levels.remove(i)
    } else {
        levels.update(i, (levels[i].0, levels[i].1.remove(j)))
    }
}

/// Levels of values in ascending key order, each a FIFO queue. No level is
/// ever empty: an operation that empties a level removes it.
#[derive(Clone, Debug)]
pub struct OrderQueue<K, V> {
    levels: Vec<(K, Vec<V>)>,
}

impl<K: Ord + Copy, V> OrderQueue<K, V> {
    /// The levels, each queue by its contents.
    pub closed spec fn spec_levels(&self) -> Seq<(K, Seq<V>)> {
        level_views(self.levels@)
    }

    /// Keys ascend and no level is empty.
    pub open spec fn wf(&self) -> bool {
        &&& keys_ascending(self.spec_levels())
        &&& forall|i: int| 0 <= i < self.spec_levels().len() ==> (#[trigger] self.spec_levels()[i]).1.len() > 0
    }

    pub fn new() -> (q: OrderQueue<K, V>)
        ensures
            q.wf(),
            q.spec_levels() == Seq::<(K, Seq<V>)>::empty(),
    {
        let q = OrderQueue { levels: Vec::new() };
        proof {
            assert(q.spec_levels() =~= Seq::<(K, Seq<V>)>::empty());
        }
        q
    }

    /// A queue of the given levels (keys ascending), dropping every empty level.
    pub fn from_levels(levels: Vec<(K, Vec<V>)>) -> (q: OrderQueue<K, V>)
        requires
            keys_ascending(level_views(levels@)),
        ensures
            q.wf(),
            q.spec_levels() == level_views(levels@).filter(|l: (K, Seq<V>)| l.1.len() > 0),
    {
        let ghost src = level_views(levels@);
        let mut out: Vec<(K, Vec<V>)> = Vec::new();
        let total = levels.len();
        let mut rest = levels;
        let ghost n = src.len();
        assert(n == total);
        let mut i: usize = 0;
        proof {
            assert(src.take(0).filter(|l: (K, Seq<V>)| l.1.len() > 0) =~= Seq::<(K, Seq<V>)>::empty());
            assert(level_views(out@) =~= Seq::<(K, Seq<V>)>::empty());
        }
        while rest.len() > 0
            invariant
                i <= n,
                n == src.len(),
                keys_ascending(src),
                level_views(rest@) == src.skip(i as int),
                level_views(out@) == src.take(i as int).filter(|l: (K, Seq<V>)| l.1.len() > 0),
                keys_ascending(level_views(out@)),
                rest@.len() + i == n,
                n <= usize::MAX,
                forall|a: int, j: int| 0 <= a < out@.len() && i <= j < n ==> key_lt(
                    (#[trigger] level_views(out@)[a].0),
                    (#[trigger] src[j]).0,
                ),
                forall|a: int| 0 <= a < out@.len() ==> (#[trigger] level_views(out@)[a]).1.len() > 0,
            decreases rest@.len(),
        {
            let ghost out0 = level_views(out@);
            let ghost r0 = rest@;
            let level = rest.remove(0);
            proof {
                assert(level_views(r0)[0] == (r0[0].0, r0[0].1@));
                assert(src.skip(i as int)[0] == src[i as int]);
                assert(level == r0[0]);
                assert((level.0, level.1@) == src[i as int]);
                assert(rest@ =~= r0.drop_first());
                assert(level_views(r0) == src.skip(i as int));
                assert forall|k: int| 0 <= k < rest@.len() implies #[trigger] level_views(rest@)[k] == src.skip(i + 1)[k] by {
                    assert(rest@[k] == r0[k + 1]);
                    assert(level_views(r0)[k + 1] == src.skip(i as int)[k + 1]);
                }
                assert(level_views(rest@) =~= src.skip(i + 1));
                assert(src.take(i + 1) =~= src.take(i as int).push(src[i as int]));
                reveal(Seq::filter);
                assert(src.take(i + 1).drop_last() =~= src.take(i as int));
            }
            if level.1.len() > 0 {
                out.push(level);
                proof {
                    assert(level_views(out@) =~= out0.push(src[i as int]));
                }
            }
            i = i + 1;
        }
        proof {
            assert(src.take(i as int) =~= src);
        }
        OrderQueue { levels: out }
    }

    /// The levels, in ascending key order.
    pub fn levels(&self) -> (r: &Vec<(K, Vec<V>)>)
        ensures
            level_views(r@) == self.spec_levels(),
    {
        &self.levels
    }

    pub fn is_empty(&self) -> (r: bool)
        ensures
            r <==> self.spec_levels().len() == 0,
    {
        self.levels.len() == 0
    }

    /// Number of levels.
    pub fn len(&self) -> (r: usize)
        ensures
            r == self.spec_levels().len(),
    {
        self.levels.len()
    }

    /// A walk over every value, level by level, oldest first within a level.
    pub fn iter(&self) -> (it: OrderQueueIter<'_, K, V>)
        ensures
            it.wf(),
            it.spec_levels() == self.spec_levels(),
            it.remaining() == flat_pairs(self.spec_levels()),
    {
        OrderIter::new(&self.levels)
    }

    /// Take the oldest value of the first level, removing the level if it empties.
    pub fn pop_front(&mut self) -> (r: Option<(K, V)>)
        requires
            old(self).wf(),
        ensures
            old(self).spec_levels().len() == 0 ==> r is None && final(self).spec_levels() == old(self).spec_levels(),
            old(self).spec_levels().len() > 0 ==> r == Some((old(self).spec_levels()[0].0, old(self).spec_levels()[0].1[0]))
                && final(self).spec_levels() == taken(old(self).spec_levels(), 0, 0),
    {
        if self.levels.len() == 0 {
            return None;
        }
        let ghost l0 = self.spec_levels();
        let mut level = self.levels.remove(0);
        let ghost mid = self.spec_levels();
        proof {
            assert(mid =~= l0.remove(0));
            assert((level.0, level.1@) == l0[0]);
        }
        let value = level.1.remove(0);
        let key = level.0;
        if level.1.len() > 0 {
            self.levels.insert(0, level);
            proof {
                assert(self.spec_levels() =~= l0.update(0, (l0[0].0, l0[0].1.remove(0))));
                assert forall|a: int, b: int| 0 <= a < b < self.spec_levels().len() implies key_lt((#[trigger] self.spec_levels()[a].0), (#[trigger] self.spec_levels()[b].0)) by {
                    assert(self.spec_levels()[a].0 == l0[a].0);
                    assert(self.spec_levels()[b].0 == l0[b].0);
                }
                assert forall|a: int| 0 <= a < self.spec_levels().len() implies (#[trigger] self.spec_levels()[a]).1.len() > 0 by {
                    if a > 0 {
                        assert(self.spec_levels()[a] == l0[a]);
                    }
                }
            }
        } else {
            proof {
                assert forall|a: int, b: int| 0 <= a < b < self.spec_levels().len() implies key_lt((#[trigger] self.spec_levels()[a].0), (#[trigger] self.spec_levels()[b].0)) by {
                    assert(self.spec_levels()[a] == l0[a + 1]);
                    assert(self.spec_levels()[b] == l0[b + 1]);
                }
                assert forall|a: int| 0 <= a < self.spec_levels().len() implies (#[trigger] self.spec_levels()[a]).1.len() > 0 by {
                    assert(self.spec_levels()[a] == l0[a + 1]);
                }
            }
        }
        Some((key, value))
    }

    /// The key of the first level and its oldest value, to change in place;
    /// the structure of the queue is left as it is.
    pub fn front_mut(&mut self) -> (r: Option<(K, &mut V)>)
        requires
            old(self).wf(),
        ensures
            old(self).spec_levels().len() == 0 ==> r is None && final(self).spec_levels() == old(self).spec_levels(),
            old(self).spec_levels().len() > 0 ==> (r matches Some((k, v)) && k == old(self).spec_levels()[0].0 && *v
                == old(self).spec_levels()[0].1[0] && final(self).spec_levels() == old(self).spec_levels().update(
                0,
                (k, old(self).spec_levels()[0].1.update(0, *final(v))),
            )),
    {
        if self.levels.len() == 0 {
            return None;
        }
        proof {
            assert(self.spec_levels()[0].1.len() > 0);
            assert(self.spec_levels()[0] == (self.levels@[0].0, self.levels@[0].1@));
        }
        let level = &mut self.levels[0];
        let k = level.0;
        let v = &mut level.1[0];
        Some((k, v))
    }

    /// Append `value` at level `key`, starting the level if there is none.
    pub fn push_back(&mut self, key: K, value: V)
        requires
            old(self).wf(),
            ordered_keys::<K>(),
        ensures
            final(self).wf(),
            final(self).spec_levels() == pushed(old(self).spec_levels(), key, value),
    {
        let ghost l0 = self.spec_levels();
        proof {
            lemma_ordered_keys::<K>();
        }
        let mut i: usize = 0;
        while i < self.levels.len()
            invariant
                i <= l0.len(),
                self.spec_levels() == l0,
                ordered_keys::<K>(),
                forall|j: int| 0 <= j < i ==> key_lt((#[trigger] l0[j]).0, key),
            ensures
                i <= l0.len(),
                forall|j: int| 0 <= j < i ==> key_lt((#[trigger] l0[j]).0, key),
                i < l0.len() ==> !key_lt(l0[i as int].0, key),
            decreases l0.len() - i,
        {
            proof {
                lemma_ordered_keys::<K>();
            }
            if !(self.levels[i].0 < key) {
                break;
            }
            i = i + 1;
        }
        proof {
            lemma_key_pos_scan(l0, key, i as int);
            lemma_key_index_scan(l0, key, i as int);
        }
        if i < self.levels.len() && self.levels[i].0 == key {
            let mut level = self.levels.remove(i);
            level.1.push(value);
            self.levels.insert(i, level);
            proof {
                assert(self.spec_levels() =~= l0.update(i as int, (key, l0[i as int].1.push(value))));
                assert forall|a: int, b: int| 0 <= a < b < self.spec_levels().len() implies key_lt((#[trigger] self.spec_levels()[a].0), (#[trigger] self.spec_levels()[b].0)) by {
                    assert(self.spec_levels()[a].0 == l0[a].0);
                    assert(self.spec_levels()[b].0 == l0[b].0);
                }
                assert forall|a: int| 0 <= a < self.spec_levels().len() implies (#[trigger] self.spec_levels()[a]).1.len() > 0 by {
                    if a != i {
                        assert(self.spec_levels()[a] == l0[a]);
                    }
                }
            }
        } else {
            let mut fresh: Vec<V> = Vec::new();
            fresh.push(value);
            self.levels.insert(i, (key, fresh));
            proof {
                let t = self.spec_levels();
                assert(t =~= l0.insert(i as int, (key, seq![value])));
                assert forall|a: int, b: int| 0 <= a < b < t.len() implies key_lt((#[trigger] t[a].0), (#[trigger] t[b].0)) by {
                    if b < i {
                        assert(t[a] == l0[a] && t[b] == l0[b]);
                    } else if b == i {
                        assert(t[a] == l0[a]);
                    } else if a == i {
                        assert(t[b] == l0[b - 1]);
                        assert(!key_lt(l0[i as int].0, key));
                        assert(l0[i as int].0 != key);
                        if b - 1 > i {
                            assert(key_lt(l0[i as int].0, l0[b - 1].0));
                        }
                    } else if a < i {
                        assert(t[a] == l0[a] && t[b] == l0[b - 1]);
                    } else {
                        assert(t[a] == l0[a - 1] && t[b] == l0[b - 1]);
                    }
                }
                assert forall|a: int| 0 <= a < t.len() implies (#[trigger] t[a]).1.len() > 0 by {
                    if a < i {
                        assert(t[a] == l0[a]);
                    } else if a > i {
                        assert(t[a] == l0[a - 1]);
                    }
                }
            }
        }
    }
    /// Index of the level with key `key`, if any.
    fn find_level(&self, key: &K) -> (r: Option<usize>)
        requires
            self.wf(),
            ordered_keys::<K>(),
        ensures
            match r {
                Some(i) => key_index(self.spec_levels(), *key) == Some(i as nat) && i < self.spec_levels().len(),
                None => key_index(self.spec_levels(), *key) is None,
            },
    {
        let ghost l0 = self.spec_levels();
        let mut i: usize = 0;
        while i < self.levels.len()
            invariant
                i <= l0.len(),
                self.spec_levels() == l0,
                ordered_keys::<K>(),
                forall|j: int| 0 <= j < i ==> key_lt((#[trigger] l0[j]).0, *key),
            ensures
                i <= l0.len(),
                forall|j: int| 0 <= j < i ==> key_lt((#[trigger] l0[j]).0, *key),
                i < l0.len() ==> !key_lt(l0[i as int].0, *key),
            decreases l0.len() - i,
        {
            proof {
                lemma_ordered_keys::<K>();
            }
            if !(self.levels[i].0 < *key) {
                break;
            }
            i = i + 1;
        }
        proof {
            lemma_ordered_keys::<K>();
            lemma_key_index_scan(l0, *key, i as int);
        }
        if i < self.levels.len() && self.levels[i].0 == *key {
            Some(i)
        } else {
            None
        }
    }

    /// Take out the first value of level `key` (oldest first) that
    /// `predicate` accepts, removing the level if it empties. `None`, with
    /// the queue unchanged, if there is no such level or no value is accepted.
    pub fn remove<F: Fn(&V) -> bool>(&mut self, key: K, predicate: F) -> (r: Option<V>)
        requires
            old(self).wf(),
            ordered_keys::<K>(),
            forall|v: &V| #[trigger] predicate.requires((v,)),
        ensures
            final(self).wf(),
            match key_index(old(self).spec_levels(), key) {
                None => r is None && final(self).spec_levels() == old(self).spec_levels(),
                Some(i) => {
                    let q = old(self).spec_levels()[i as int].1;
                    match r {
                        Some(v) => exists|j: int|
                            0 <= j < q.len() && q[j] == v && #[trigger] predicate.ensures((&q[j],), true) && (forall|m: int|
                                0 <= m < j ==> predicate.ensures((&q[m],), false)) && final(self).spec_levels() == taken(
                                old(self).spec_levels(),
                                i as int,
                                j,
                            ),
                        None => (forall|m: int| 0 <= m < q.len() ==> predicate.ensures((&q[m],), false))
                            && final(self).spec_levels() == old(self).spec_levels(),
                    }
                },
            },
    {
        let ghost l0 = self.spec_levels();
        let i = match self.find_level(&key) {
            Some(i) => i,
            None => {
                return None;
            },
        };
        let mut level = self.levels.remove(i);
        let ghost q = level.1@;
        proof {
            assert(l0[i as int] == (level.0, q));
        }
        let mut j: usize = 0;
        while j < level.1.len()
            invariant
                j <= q.len(),
                level.1@ == q,
                forall|v: &V| #[trigger] predicate.requires((v,)),
                forall|m: int| 0 <= m < j ==> predicate.ensures((&q[m],), false),
            ensures
                j <= q.len(),
                forall|m: int| 0 <= m < j ==> predicate.ensures((&q[m],), false),
                j < q.len() ==> predicate.ensures((&q[j as int],), true),
            decreases q.len() - j,
        {
            if predicate(&level.1[j]) {
                break;
            }
            j = j + 1;
        }
        if j == level.1.len() {
            self.levels.insert(i, level);
            proof {
                assert(self.spec_levels() =~= l0);
            }
            return None;
        }
        let value = level.1.remove(j);
        if level.1.len() > 0 {
            self.levels.insert(i, level);
            proof {
                let t = self.spec_levels();
                assert(t =~= l0.update(i as int, (l0[i as int].0, l0[i as int].1.remove(j as int))));
                assert forall|a: int, b: int| 0 <= a < b < t.len() implies key_lt((#[trigger] t[a].0), (#[trigger] t[b].0)) by {
                    assert(t[a].0 == l0[a].0);
                    assert(t[b].0 == l0[b].0);
                }
                assert forall|a: int| 0 <= a < t.len() implies (#[trigger] t[a]).1.len() > 0 by {
                    if a != i {
                        assert(t[a] == l0[a]);
                    }
                }
            }
        } else {
            proof {
                let t = self.spec_levels();
                assert(t =~= l0.remove(i as int));
                assert forall|a: int, b: int| 0 <= a < b < t.len() implies key_lt((#[trigger] t[a].0), (#[trigger] t[b].0)) by {
                    assert(t[a] == l0[if a < i { a } else { a + 1 }]);
                    assert(t[b] == l0[if b < i { b } else { b + 1 }]);
                }
                assert forall|a: int| 0 <= a < t.len() implies (#[trigger] t[a]).1.len() > 0 by {
                    assert(t[a] == l0[if a < i { a } else { a + 1 }]);
                }
            }
        }
        proof {
            assert(q[j as int] == value);
        }
        Some(value)
    }
}

/// Changing the oldest value of the first level, as [`OrderQueue::front_mut`]
/// lets a caller do, keeps the queue well formed.
pub proof fn lemma_front_update_keeps_wf<K: Ord + Copy, V>(before: OrderQueue<K, V>, after: OrderQueue<K, V>, v: V)
    requires
        before.wf(),
        before.spec_levels().len() > 0,
        after.spec_levels() == before.spec_levels().update(
            0,
            (before.spec_levels()[0].0, before.spec_levels()[0].1.update(0, v)),
        ),
    ensures
        after.wf(),
{
    let a = after.spec_levels();
    let b = before.spec_levels();
    assert forall|i: int, j: int| 0 <= i < j < a.len() implies key_lt((#[trigger] a[i].0), (#[trigger] a[j].0)) by {
        assert(a[i].0 == b[i].0 && a[j].0 == b[j].0);
    }
    assert forall|i: int| 0 <= i < a.len() implies (#[trigger] a[i]).1.len() > 0 by {
        assert(a[i].1.len() == b[i].1.len());
    }
}

impl<K: Ord + Copy, V> Default for OrderQueue<K, V> {
    fn default() -> (q: OrderQueue<K, V>)
        ensures
            q.wf(),
            q.spec_levels() == Seq::<(K, Seq<V>)>::empty(),
    {
        OrderQueue::new()
    }
}

proof fn lemma_key_pos_scan<K: PartialOrd, V>(s: Seq<(K, Seq<V>)>, key: K, i: int)
    requires
        0 <= i <= s.len(),
        forall|j: int| 0 <= j < i ==> key_lt((#[trigger] s[j]).0, key),
        i < s.len() ==> !key_lt(s[i].0, key),
    ensures
        key_pos(s, key) == i,
    decreases i,
{
    if s.len() > 0 && i > 0 {
        assert forall|j: int| 0 <= j < i - 1 implies key_lt((#[trigger] s.drop_first()[j]).0, key) by {
            assert(s.drop_first()[j] == s[j + 1]);
        }
        lemma_key_pos_scan(s.drop_first(), key, i - 1);
    }
}

/// In ascending levels, a key is at the scan position or nowhere.
proof fn lemma_key_index_scan<K: Ord, V>(s: Seq<(K, Seq<V>)>, key: K, i: int)
    requires
        0 <= i <= s.len(),
        ordered_keys::<K>(),
        keys_ascending(s),
        forall|j: int| 0 <= j < i ==> key_lt((#[trigger] s[j]).0, key),
        i < s.len() ==> !key_lt(s[i].0, key),
    ensures
        i < s.len() && s[i].0 == key ==> key_index(s, key) == Some(i as nat),
        !(i < s.len() && s[i].0 == key) ==> key_index(s, key) is None,
    decreases s.len(),
{
    lemma_ordered_keys::<K>();
    if s.len() > 0 {
        let t = s.drop_first();
        assert forall|a: int, b: int| 0 <= a < b < t.len() implies key_lt((#[trigger] t[a].0), (#[trigger] t[b].0)) by {
            assert(t[a] == s[a + 1] && t[b] == s[b + 1]);
        }
        if i > 0 {
            assert(key_lt(s[0].0, key));
            assert(s[0].0 != key);
            assert forall|j: int| 0 <= j < i - 1 implies key_lt((#[trigger] t[j]).0, key) by {
                assert(t[j] == s[j + 1]);
            }
            lemma_key_index_scan(t, key, i - 1);
        } else {
            if s[0].0 != key {
                // every later key is above s[0], which is not below key and not key
                assert forall|j: int| 0 <= j < t.len() implies (#[trigger] t[j]).0 != key by {
                    assert(t[j] == s[j + 1]);
                    assert(key_lt(s[0].0, s[j + 1].0));
                }
                lemma_key_index_absent(t, key);
            }
        }
    }
}

proof fn lemma_key_index_absent<K, V>(s: Seq<(K, Seq<V>)>, key: K)
    requires
        forall|j: int| 0 <= j < s.len() ==> (#[trigger] s[j]).0 != key,
    ensures
        key_index(s, key) is None,
    decreases s.len(),
{
    if s.len() > 0 {
        assert forall|j: int| 0 <= j < s.drop_first().len() implies (#[trigger] s.drop_first()[j]).0 != key by {
            assert(s.drop_first()[j] == s[j + 1]);
        }
        lemma_key_index_absent(s.drop_first(), key);
    }
}

} // verus!
