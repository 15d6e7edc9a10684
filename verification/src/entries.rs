//! Insertion-ordered maps: a key keeps the place it was first inserted at, and
//! rolling back means restoring places or cutting the end.

use crate::names::{IdTable, lemma_position, lemma_with, NameTable, position};
use vstd::prelude::*;

verus! {

/// What an insertion-ordered map holds.
#[verifier::ext_equal]
pub struct Entries<K, V> {
    pub keys: Seq<K>,
    pub vals: Seq<V>,
}

impl<K, V> Entries<K, V> {
    pub open spec fn wf(self) -> bool {
        self.keys.no_duplicates() && self.keys.len() == self.vals.len()
    }

    pub open spec fn len(self) -> nat {
        self.keys.len()
    }

    pub open spec fn has(self, k: K) -> bool {
        self.keys.contains(k)
    }

    pub open spec fn get(self, k: K) -> Option<V> {
        match position(self.keys, k) {
            Some(i) => Some(self.vals[i as int]),
            None => None,
        }
    }

    /// The value of `k` replaced in place, or `k` added at the end.
    pub open spec fn put(self, k: K, v: V) -> Self {
        match position(self.keys, k) {
            Some(i) => Entries { keys: self.keys, vals: self.vals.update(i as int, v) },
            None => Entries { keys: self.keys.push(k), vals: self.vals.push(v) },
        }
    }

    pub open spec fn set_at(self, i: int, v: V) -> Self {
        Entries { keys: self.keys, vals: self.vals.update(i, v) }
    }

    pub open spec fn drop_last(self) -> Self {
        Entries { keys: self.keys.drop_last(), vals: self.vals.drop_last() }
    }

    /// At most the first `n` entries.
    pub open spec fn cut(self, n: int) -> Self {
        if n < self.keys.len() {
            Entries { keys: self.keys.take(n), vals: self.vals.take(n) }
        } else {
            self
        }
    }

    /// One mutation of `k` undone: an overwritten value put back, or a new key
    /// taken off the end.
    pub open spec fn undo(self, k: K, prev: Option<V>) -> Self {
        match prev {
            Some(v) => self.put(k, v),
            None => self.drop_last(),
        }
    }

    /// The mutation of `k` that [`undo`](Self::undo) undoes was the last one
    /// of its kind.
    pub open spec fn undoable(self, k: K, prev: Option<V>) -> bool {
        match prev {
            Some(v) => self.has(k),
            None => self.keys.len() > 0 && self.keys.last() == k,
        }
    }

    /// As [`undo`](Self::undo), by place.
    pub open spec fn undo_at(self, i: int, prev: Option<V>) -> Self {
        match prev {
            Some(v) => self.set_at(i, v),
            None => self.drop_last(),
        }
    }

    pub open spec fn undoable_at(self, i: int, prev: Option<V>) -> bool {
        match prev {
            Some(v) => 0 <= i < self.keys.len(),
            None => i + 1 == self.keys.len(),
        }
    }
}

/// What looking up says.
pub proof fn lemma_get<K, V>(m: Entries<K, V>, k: K, i: int)
    requires
        m.wf(),
        0 <= i < m.keys.len(),
        m.keys[i] == k,
    ensures
        m.has(k),
        m.get(k) == Some(m.vals[i]),
        position(m.keys, k) == Some(i as nat),
{
    lemma_position(m.keys, k, i);
}

/// Putting keeps the map in order, and undoing it gives the map back.
pub proof fn lemma_put<K, V>(m: Entries<K, V>, k: K, v: V)
    requires
        m.wf(),
    ensures
        m.put(k, v).wf(),
        m.put(k, v).has(k),
        m.put(k, v).get(k) == Some(v),
        m.has(k) ==> m.put(k, v).keys == m.keys,
        !m.has(k) ==> m.put(k, v).keys == m.keys.push(k),
        m.put(k, v).undo(k, m.get(k)) == m,
        m.put(k, v).undoable(k, m.get(k)),
        forall|j: K| #[trigger] m.put(k, v).has(j) <==> m.has(j) || j == k,
{
    lemma_with(m.keys, k);
    let p = m.put(k, v);
    if m.has(k) {
        let i = m.keys.index_of(k);
        lemma_get(m, k, i);
        lemma_get(p, k, i);
        assert(p.undo(k, m.get(k)).vals =~= m.vals);
    } else {
        let n = m.keys.len() as int;
        assert(p.keys[n] == k);
        lemma_get(p, k, n);
        assert(p.drop_last().keys =~= m.keys);
        assert(p.drop_last().vals =~= m.vals);
        assert forall|j: K| #[trigger] p.has(j) <==> m.has(j) || j == k by {
            if m.has(j) {
                let i = m.keys.index_of(j);
                assert(p.keys[i] == j);
            }
            if p.has(j) && j != k {
                let i = p.keys.index_of(j);
                assert(m.keys[i] == j);
            }
        }
    }
}

/// A new key goes on whatever happens to the keys before it.
pub proof fn lemma_put_then_new<K, V>(m: Entries<K, V>, j: K, w: V, k: K, v: V)
    requires
        m.wf(),
        m.has(j),
        !m.has(k),
    ensures
        m.put(k, v).put(j, w) == m.put(j, w).put(k, v),
        !m.put(j, w).has(k),
{
    lemma_put(m, j, w);
    lemma_put(m, k, v);
    let i = m.keys.index_of(j);
    lemma_get(m, j, i);
    let p = m.put(k, v);
    assert(p.keys[i] == j);
    lemma_get(p, j, i);
    assert(p.put(j, w).vals =~= m.put(j, w).put(k, v).vals);
}

/// Cutting below a new key forgets it.
pub proof fn lemma_cut_new<K, V>(m: Entries<K, V>, k: K, v: V, n: int)
    requires
        m.wf(),
        !m.has(k),
        0 <= n <= m.keys.len(),
    ensures
        m.put(k, v).cut(n) == m.cut(n),
{
    lemma_put(m, k, v);
    assert(m.put(k, v).cut(n).keys =~= m.cut(n).keys);
    assert(m.put(k, v).cut(n).vals =~= m.cut(n).vals);
}

/// Undo records replayed, newest first.
pub open spec fn undone<K, V>(m: Entries<K, V>, log: Seq<(K, Option<V>)>) -> Entries<K, V>
    decreases log.len(),
{
    if log.len() == 0 {
        m
    } else {
        undone(m.undo(log.last().0, log.last().1), log.drop_last())
    }
}

/// Each record undoes the mutation that was last when it is its turn.
pub open spec fn replays<K, V>(m: Entries<K, V>, log: Seq<(K, Option<V>)>) -> bool
    decreases log.len(),
{
    log.len() == 0 || (m.undoable(log.last().0, log.last().1) && replays(
        m.undo(log.last().0, log.last().1),
        log.drop_last(),
    ))
}

/// As [`undone`], by place.
pub open spec fn undone_at<K, V>(m: Entries<K, V>, log: Seq<(usize, Option<V>)>) -> Entries<K, V>
    decreases log.len(),
{
    if log.len() == 0 {
        m
    } else {
        undone_at(m.undo_at(log.last().0 as int, log.last().1), log.drop_last())
    }
}

pub open spec fn replays_at<K, V>(m: Entries<K, V>, log: Seq<(usize, Option<V>)>) -> bool
    decreases log.len(),
{
    log.len() == 0 || (m.undoable_at(log.last().0 as int, log.last().1) && replays_at(
        m.undo_at(log.last().0 as int, log.last().1),
        log.drop_last(),
    ))
}

/// Overwritten values put back, newest first.
pub open spec fn put_back<K, V>(m: Entries<K, V>, log: Seq<(K, V)>) -> Entries<K, V>
    decreases log.len(),
{
    if log.len() == 0 {
        m
    } else {
        put_back(m.put(log.last().0, log.last().1), log.drop_last())
    }
}

/// Every key of the log is in the map.
pub open spec fn covers<K, V>(m: Entries<K, V>, log: Seq<(K, V)>) -> bool {
    forall|i: int| 0 <= i < log.len() ==> m.has((#[trigger] log[i]).0)
}

/// How many records take a new key off.
pub open spec fn insertions<K, V>(log: Seq<(K, Option<V>)>) -> nat
    decreases log.len(),
{
    if log.len() == 0 {
        0
    } else {
        insertions(log.drop_last()) + if log.last().1 is None {
            1nat
        } else {
            0nat
        }
    }
}

/// One undone step keeps the map in order.
pub proof fn lemma_undo_wf<K, V>(m: Entries<K, V>, k: K, prev: Option<V>)
    requires
        m.wf(),
        m.undoable(k, prev),
    ensures
        m.undo(k, prev).wf(),
        m.undo(k, prev).len() == m.len() - (if prev is None {
            1int
        } else {
            0
        }),
{
    match prev {
        Some(v) => {
            lemma_put(m, k, v);
        },
        None => {},
    }
}

pub proof fn lemma_undone<K, V>(m: Entries<K, V>, log: Seq<(K, Option<V>)>)
    requires
        m.wf(),
        replays(m, log),
    ensures
        undone(m, log).wf(),
        undone(m, log).len() == m.len() - insertions(log),
        insertions(log) <= m.len(),
    decreases log.len(),
{
    if log.len() > 0 {
        lemma_undo_wf(m, log.last().0, log.last().1);
        lemma_undone(m.undo(log.last().0, log.last().1), log.drop_last());
    }
}

pub proof fn lemma_undone_at<K, V>(m: Entries<K, V>, log: Seq<(usize, Option<V>)>)
    requires
        m.wf(),
        replays_at(m, log),
    ensures
        undone_at(m, log).wf(),
        undone_at(m, log).len() == m.len() - insertions(log),
        insertions(log) <= m.len(),
    decreases log.len(),
{
    if log.len() > 0 {
        lemma_undone_at(m.undo_at(log.last().0 as int, log.last().1), log.drop_last());
    }
}

/// Replaying in two parts is replaying the whole.
pub proof fn lemma_undone_split<K, V>(m: Entries<K, V>, log: Seq<(K, Option<V>)>, n: int)
    requires
        0 <= n <= log.len(),
    ensures
        undone(m, log) == undone(undone(m, log.skip(n)), log.take(n)),
        replays(m, log) <==> replays(m, log.skip(n)) && replays(
            undone(m, log.skip(n)),
            log.take(n),
        ),
    decreases log.len(),
{
    if n == log.len() {
        assert(log.skip(n) =~= Seq::empty());
        assert(log.take(n) =~= log);
    } else {
        let m1 = m.undo(log.last().0, log.last().1);
        lemma_undone_split(m1, log.drop_last(), n);
        assert(log.skip(n).drop_last() =~= log.drop_last().skip(n));
        assert(log.skip(n).last() == log.last());
        assert(log.drop_last().take(n) =~= log.take(n));
    }
}

pub proof fn lemma_undone_at_split<K, V>(m: Entries<K, V>, log: Seq<(usize, Option<V>)>, n: int)
    requires
        0 <= n <= log.len(),
    ensures
        undone_at(m, log) == undone_at(undone_at(m, log.skip(n)), log.take(n)),
        replays_at(m, log) <==> replays_at(m, log.skip(n)) && replays_at(
            undone_at(m, log.skip(n)),
            log.take(n),
        ),
    decreases log.len(),
{
    if n == log.len() {
        assert(log.skip(n) =~= Seq::empty());
        assert(log.take(n) =~= log);
    } else {
        let m1 = m.undo_at(log.last().0 as int, log.last().1);
        lemma_undone_at_split(m1, log.drop_last(), n);
        assert(log.skip(n).drop_last() =~= log.drop_last().skip(n));
        assert(log.skip(n).last() == log.last());
        assert(log.drop_last().take(n) =~= log.take(n));
    }
}

/// A logged mutation changes nothing about what replaying gives.
pub proof fn lemma_logged_put<K, V>(m: Entries<K, V>, log: Seq<(K, Option<V>)>, k: K, v: V)
    requires
        m.wf(),
    ensures
        undone(m.put(k, v), log.push((k, m.get(k)))) == undone(m, log),
        replays(m.put(k, v), log.push((k, m.get(k)))) == replays(m, log),
{
    lemma_put(m, k, v);
    let l2 = log.push((k, m.get(k)));
    assert(l2.drop_last() =~= log);
    assert(l2.last() == (k, m.get(k)));
}

/// The same, by place.
pub proof fn lemma_logged_put_at<K, V>(
    m: Entries<K, V>,
    log: Seq<(usize, Option<V>)>,
    k: K,
    v: V,
    i: usize,
)
    requires
        m.wf(),
        match position(m.keys, k) {
            Some(j) => i == j,
            None => i == m.keys.len(),
        },
    ensures
        undone_at(m.put(k, v), log.push((i, m.get(k)))) == undone_at(m, log),
        replays_at(m.put(k, v), log.push((i, m.get(k)))) == replays_at(m, log),
{
    lemma_put(m, k, v);
    let l2 = log.push((i, m.get(k)));
    assert(l2.drop_last() =~= log);
    assert(l2.last() == (i, m.get(k)));
    let p = m.put(k, v);
    if m.has(k) {
        assert(p.undo_at(i as int, m.get(k)).vals =~= m.vals);
    } else {
        assert(p.drop_last().keys =~= m.keys);
        assert(p.drop_last().vals =~= m.vals);
    }
}

pub proof fn lemma_put_back<K, V>(m: Entries<K, V>, log: Seq<(K, V)>)
    requires
        m.wf(),
        covers(m, log),
    ensures
        put_back(m, log).wf(),
        put_back(m, log).keys == m.keys,
    decreases log.len(),
{
    if log.len() > 0 {
        let (k, v) = log.last();
        assert(m.has(log[log.len() - 1].0));
        lemma_put(m, k, v);
        let m1 = m.put(k, v);
        assert(covers(m1, log.drop_last())) by {
            assert forall|i: int| 0 <= i < log.drop_last().len() implies m1.has(
                (#[trigger] log.drop_last()[i]).0,
            ) by {
                assert(m.has(log[i].0));
            }
        }
        lemma_put_back(m1, log.drop_last());
    }
}

/// A journaled overwrite changes nothing about what rolling back gives.
pub proof fn lemma_journaled_put<K, V>(m: Entries<K, V>, log: Seq<(K, V)>, k: K, v: V)
    requires
        m.wf(),
        m.has(k),
    ensures
        m.get(k) is Some,
        put_back(m.put(k, v), log.push((k, m.get(k)->0))) == put_back(m, log),
{
    lemma_put(m, k, v);
    let old = m.get(k)->0;
    let l2 = log.push((k, old));
    assert(l2.drop_last() =~= log);
    assert(l2.last() == (k, old));
}

/// A new key changes nothing about what rolling back to before it gives.
pub proof fn lemma_new_put<K, V>(m: Entries<K, V>, log: Seq<(K, V)>, k: K, v: V, n: int)
    requires
        m.wf(),
        !m.has(k),
        covers(m, log),
        0 <= n <= m.len(),
    ensures
        put_back(m.put(k, v), log).cut(n) == put_back(m, log).cut(n),
{
    lemma_new_put_back(m, log, k, v);
    lemma_put_back(m, log);
    lemma_cut_new(put_back(m, log), k, v, n);
}

proof fn lemma_new_put_back<K, V>(m: Entries<K, V>, log: Seq<(K, V)>, k: K, v: V)
    requires
        m.wf(),
        !m.has(k),
        covers(m, log),
    ensures
        put_back(m.put(k, v), log) == put_back(m, log).put(k, v),
        !put_back(m, log).has(k),
    decreases log.len(),
{
    if log.len() > 0 {
        let (j, w) = log.last();
        assert(m.has(log[log.len() - 1].0));
        lemma_put(m, j, w);
        lemma_put_then_new(m, j, w, k, v);
        let m1 = m.put(j, w);
        assert(covers(m1, log.drop_last())) by {
            assert forall|i: int| 0 <= i < log.drop_last().len() implies m1.has(
                (#[trigger] log.drop_last()[i]).0,
            ) by {
                assert(m.has(log[i].0));
            }
        }
        lemma_new_put_back(m1, log.drop_last(), k, v);
    }
}

/// A map from names, in insertion order: an `indexmap` set of the names and
/// the values beside it.
pub struct NameMap<V> {
    keys: NameTable,
    vals: Vec<V>,
}

impl<V> NameMap<V> {
    pub closed spec fn view(&self) -> Entries<Seq<char>, V> {
        Entries { keys: self.keys@, vals: self.vals@ }
    }

    pub closed spec fn inv(&self) -> bool {
        self.keys.wf() && self@.wf()
    }

    pub open spec fn wf(&self) -> bool {
        self.inv() && self@.wf()
    }

    pub fn new() -> (r: NameMap<V>)
        ensures
            r.wf(),
            r@.keys == Seq::<Seq<char>>::empty(),
            r@.vals == Seq::<V>::empty(),
    {
        NameMap { keys: NameTable::new(), vals: Vec::new() }
    }

    pub fn len(&self) -> (r: usize)
        requires
            self.wf(),
        ensures
            r == self@.len(),
    {
        self.vals.len()
    }

    /// The place of a key.
    pub fn index_of(&self, name: &str) -> (r: Option<usize>)
        requires
            self.wf(),
        ensures
            match r {
                Some(i) => i < self@.len() && position(self@.keys, name@) == Some(i as nat)
                    && self@.keys[i as int] == name@,
                None => !self@.has(name@),
            },
    {
        self.keys.index_of(name)
    }

    pub fn key_at(&self, i: usize) -> (r: &str)
        requires
            self.wf(),
            i < self@.len(),
        ensures
            r@ == self@.keys[i as int],
    {
        self.keys.get(i)
    }

    pub fn val_at(&self, i: usize) -> (r: &V)
        requires
            self.wf(),
            i < self@.len(),
        ensures
            *r == self@.vals[i as int],
    {
        &self.vals[i]
    }

    pub fn get(&self, name: &str) -> (r: Option<&V>)
        requires
            self.wf(),
        ensures
            match r {
                Some(v) => self@.get(name@) == Some(*v),
                None => self@.get(name@) is None,
            },
    {
        match self.index_of(name) {
            Some(i) => Some(&self.vals[i]),
            None => None,
        }
    }

    pub fn put(&mut self, name: &str, v: V)
        requires
            old(self).wf(),
        ensures
            final(self).wf(),
            final(self)@ == old(self)@.put(name@, v),
    {
        proof {
            lemma_put(self@, name@, v);
            lemma_with(self@.keys, name@);
        }
        match self.index_of(name) {
            Some(i) => {
                self.vals.set(i, v);
            },
            None => {
                self.keys.intern(name);
                self.vals.push(v);
            },
        }
    }

    pub fn set_at(&mut self, i: usize, v: V)
        requires
            old(self).wf(),
            i < old(self)@.len(),
        ensures
            final(self).wf(),
            final(self)@ == old(self)@.set_at(i as int, v),
    {
        self.vals.set(i, v);
    }

    /// Take the last entry off.
    pub fn pop(&mut self)
        requires
            old(self).wf(),
            old(self)@.len() > 0,
        ensures
            final(self).wf(),
            final(self)@ == old(self)@.drop_last(),
    {
        let n: usize = self.vals.len();
        self.truncate(n - 1);
        proof {
            assert(self@.keys =~= old(self)@.drop_last().keys);
            assert(self@.vals =~= old(self)@.drop_last().vals);
        }
    }

    pub fn truncate(&mut self, n: usize)
        requires
            old(self).wf(),
        ensures
            final(self).wf(),
            final(self)@ == old(self)@.cut(n as int),
    {
        self.keys.truncate(n);
        self.vals.truncate(n);
        proof {
            assert(self@.keys =~= old(self)@.cut(n as int).keys);
            assert(self@.vals =~= old(self)@.cut(n as int).vals);
        }
    }
}

/// A map from ids, in insertion order.
pub struct IdMap<V> {
    keys: IdTable,
    vals: Vec<V>,
}

impl<V> IdMap<V> {
    pub closed spec fn view(&self) -> Entries<i32, V> {
        Entries { keys: self.keys@, vals: self.vals@ }
    }

    pub closed spec fn inv(&self) -> bool {
        self.keys.wf() && self@.wf()
    }

    pub open spec fn wf(&self) -> bool {
        self.inv() && self@.wf()
    }

    pub fn new() -> (r: IdMap<V>)
        ensures
            r.wf(),
            r@.keys == Seq::<i32>::empty(),
            r@.vals == Seq::<V>::empty(),
    {
        IdMap { keys: IdTable::new(), vals: Vec::new() }
    }

    pub fn len(&self) -> (r: usize)
        requires
            self.wf(),
        ensures
            r == self@.len(),
    {
        self.vals.len()
    }

    pub fn get(&self, id: i32) -> (r: Option<&V>)
        requires
            self.wf(),
        ensures
            match r {
                Some(v) => self@.get(id) == Some(*v),
                None => self@.get(id) is None,
            },
    {
        match self.keys.index_of(id) {
            Some(i) => Some(&self.vals[i]),
            None => None,
        }
    }

    pub fn put(&mut self, id: i32, v: V)
        requires
            old(self).wf(),
        ensures
            final(self).wf(),
            final(self)@ == old(self)@.put(id, v),
    {
        proof {
            lemma_put(self@, id, v);
            lemma_with(self@.keys, id);
        }
        match self.keys.index_of(id) {
            Some(i) => {
                self.vals.set(i, v);
            },
            None => {
                self.keys.insert(id);
                self.vals.push(v);
            },
        }
    }

    pub fn truncate(&mut self, n: usize)
        requires
            old(self).wf(),
        ensures
            final(self).wf(),
            final(self)@ == old(self)@.cut(n as int),
    {
        self.keys.truncate(n);
        self.vals.truncate(n);
        proof {
            assert(self@.keys =~= old(self)@.cut(n as int).keys);
            assert(self@.vals =~= old(self)@.cut(n as int).vals);
        }
    }
}

} // verus!
