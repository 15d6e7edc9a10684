//! Insertion-ordered sets of names and of ids.
//!
//! Both are `indexmap` sets: an item keeps the index it was first inserted
//! at, and is found by what it holds.

use indexmap::IndexSet;
use vstd::prelude::*;

verus! {

/// `indexmap::IndexSet`.
#[verifier::external_type_specification]
#[verifier::external_body]
#[verifier::reject_recursive_types(T)]
#[verifier::reject_recursive_types(S)]
pub struct ExIndexSet<T, S>(indexmap::IndexSet<T, S>);

/// The texts a set of strings holds, in insertion order.
pub uninterp spec fn name_seq(s: IndexSet<String>) -> Seq<Seq<char>>;

/// The ids a set of ids holds, in insertion order.
pub uninterp spec fn id_seq(s: IndexSet<i32>) -> Seq<i32>;

/// `IndexSet::new`: an empty set.
#[verifier::external_body]
fn name_set_new() -> (r: IndexSet<String>)
    ensures
        name_seq(r) == Seq::<Seq<char>>::empty(),
{
    IndexSet::new()
}

/// `IndexSet::len`: how many strings the set holds.
#[verifier::external_body]
fn name_set_len(s: &IndexSet<String>) -> (r: usize)
    ensures
        r == name_seq(*s).len(),
{
    s.len()
}

/// `IndexSet::get_index_of`: the index of an equal string, if there is one.
#[verifier::external_body]
fn name_set_index_of(s: &IndexSet<String>, name: &str) -> (r: Option<usize>)
    ensures
        match r {
            Some(i) => i < name_seq(*s).len() && name_seq(*s)[i as int] == name@,
            None => !name_seq(*s).contains(name@),
        },
{
    s.get_index_of(name)
}

/// `IndexSet::insert_full`: the index of an equal string when the set holds
/// one, else the string is added at the end.
#[verifier::external_body]
fn name_set_insert(s: &mut IndexSet<String>, name: String) -> (r: usize)
    ensures
        if name_seq(*old(s)).contains(name@) {
            name_seq(*final(s)) == name_seq(*old(s)) && r < name_seq(*old(s)).len()
                && name_seq(*old(s))[r as int] == name@
        } else {
            name_seq(*final(s)) == name_seq(*old(s)).push(name@) && r == name_seq(*old(s)).len()
        },
{
    s.insert_full(name).0
}

/// Indexing an `IndexSet`: the string at a position the set has.
#[verifier::external_body]
fn name_set_get(s: &IndexSet<String>, i: usize) -> (r: &str)
    requires
        i < name_seq(*s).len(),
    ensures
        r@ == name_seq(*s)[i as int],
{
    &s[i]
}

/// `IndexSet::truncate`: the first `n` strings stay.
#[verifier::external_body]
fn name_set_truncate(s: &mut IndexSet<String>, n: usize)
    ensures
        name_seq(*final(s)) == if n < name_seq(*old(s)).len() {
            name_seq(*old(s)).take(n as int)
        } else {
            name_seq(*old(s))
        },
{
    s.truncate(n)
}

/// `IndexSet::new`: an empty set.
#[verifier::external_body]
fn id_set_new() -> (r: IndexSet<i32>)
    ensures
        id_seq(r) == Seq::<i32>::empty(),
{
    IndexSet::new()
}

/// `IndexSet::len`: how many ids the set holds.
#[verifier::external_body]
fn id_set_len(s: &IndexSet<i32>) -> (r: usize)
    ensures
        r == id_seq(*s).len(),
{
    s.len()
}

/// `IndexSet::get_index_of`: the index of an equal id, if there is one.
#[verifier::external_body]
fn id_set_index_of(s: &IndexSet<i32>, id: i32) -> (r: Option<usize>)
    ensures
        match r {
            Some(i) => i < id_seq(*s).len() && id_seq(*s)[i as int] == id,
            None => !id_seq(*s).contains(id),
        },
{
    s.get_index_of(&id)
}

/// `IndexSet::insert`: an id the set does not hold is added at the end.
#[verifier::external_body]
fn id_set_insert(s: &mut IndexSet<i32>, id: i32)
    ensures
        id_seq(*final(s)) == if id_seq(*old(s)).contains(id) {
            id_seq(*old(s))
        } else {
            id_seq(*old(s)).push(id)
        },
{
    s.insert(id);
}

/// Indexing an `IndexSet`: the id at a position the set has.
#[verifier::external_body]
fn id_set_get(s: &IndexSet<i32>, i: usize) -> (r: i32)
    requires
        i < id_seq(*s).len(),
    ensures
        r == id_seq(*s)[i as int],
{
    s[i]
}

/// `IndexSet::truncate`: the first `n` ids stay.
#[verifier::external_body]
fn id_set_truncate(s: &mut IndexSet<i32>, n: usize)
    ensures
        id_seq(*final(s)) == if n < id_seq(*old(s)).len() {
            id_seq(*old(s)).take(n as int)
        } else {
            id_seq(*old(s))
        },
{
    s.truncate(n)
}

/// `items` with `x` at its end unless it is there already: what inserting
/// into an insertion-ordered set does.
pub open spec fn with<T>(items: Seq<T>, x: T) -> Seq<T> {
    if items.contains(x) {
        items
    } else {
        items.push(x)
    }
}

/// The position of `x`, or `None` when it is not there.
pub open spec fn position<T>(items: Seq<T>, x: T) -> Option<nat> {
    if items.contains(x) {
        Some(items.index_of(x) as nat)
    } else {
        None
    }
}

/// In a sequence without repeats an item's position is the only place it is at.
pub proof fn lemma_position<T>(items: Seq<T>, x: T, i: int)
    requires
        items.no_duplicates(),
        0 <= i < items.len(),
        items[i] == x,
    ensures
        position(items, x) == Some(i as nat),
{
    assert(items.contains(x));
    assert(items[items.index_of(x)] == x);
}

/// Inserting keeps the items that were there, and their positions.
pub proof fn lemma_with<T>(items: Seq<T>, x: T)
    requires
        items.no_duplicates(),
    ensures
        with(items, x).no_duplicates(),
        with(items, x).contains(x),
        items.is_prefix_of(with(items, x)),
        position(with(items, x), x) matches Some(i) && i < with(items, x).len() && with(
            items,
            x,
        )[i as int] == x && i <= items.len() && (items.contains(x) ==> i < items.len()) && (
        !items.contains(x) ==> i == items.len()),
{
    let w = with(items, x);
    if items.contains(x) {
    } else {
        assert(w[items.len() as int] == x);
    }
    assert(w.contains(x));
    assert(w[w.index_of(x)] == x);
    if !items.contains(x) {
        lemma_position(w, x, items.len() as int);
    }
}

/// A set of names, each at the index it was first inserted at.
pub struct NameTable {
    set: IndexSet<String>,
}

impl NameTable {
    pub closed spec fn view(&self) -> Seq<Seq<char>> {
        name_seq(self.set)
    }

    /// No name is in the table twice.
    pub open spec fn wf(&self) -> bool {
        self@.no_duplicates()
    }

    pub fn new() -> (r: NameTable)
        ensures
            r@ == Seq::<Seq<char>>::empty(),
            r.wf(),
    {
        NameTable { set: name_set_new() }
    }

    pub fn len(&self) -> (r: usize)
        ensures
            r == self@.len(),
    {
        name_set_len(&self.set)
    }

    pub fn index_of(&self, name: &str) -> (r: Option<usize>)
        requires
            self.wf(),
        ensures
            match r {
                Some(i) => position(self@, name@) == Some(i as nat) && i < self@.len()
                    && self@[i as int] == name@,
                None => position(self@, name@) is None,
            },
    {
        let r = name_set_index_of(&self.set, name);
        proof {
            if let Some(i) = r {
                lemma_position(self@, name@, i as int);
            }
        }
        r
    }

    /// The index of `name`, which joins the table when it is not in it yet.
    pub fn intern(&mut self, name: &str) -> (r: usize)
        requires
            old(self).wf(),
        ensures
            final(self).wf(),
            final(self)@ == with(old(self)@, name@),
            position(final(self)@, name@) == Some(r as nat),
            r < final(self)@.len(),
            final(self)@[r as int] == name@,
    {
        proof {
            lemma_with(self@, name@);
        }
        match self.index_of(name) {
            Some(i) => i,
            None => {
                let owned = name.to_owned();
                name_set_insert(&mut self.set, owned)
            },
        }
    }

    pub fn get(&self, i: usize) -> (r: &str)
        requires
            i < self@.len(),
        ensures
            r@ == self@[i as int],
    {
        name_set_get(&self.set, i)
    }

    pub fn truncate(&mut self, n: usize)
        requires
            old(self).wf(),
        ensures
            final(self).wf(),
            final(self)@ == (if n < old(self)@.len() {
                old(self)@.take(n as int)
            } else {
                old(self)@
            }),
    {
        name_set_truncate(&mut self.set, n);
    }
}

/// A set of ids, each at the index it was first inserted at.
pub struct IdTable {
    set: IndexSet<i32>,
}

impl IdTable {
    pub closed spec fn view(&self) -> Seq<i32> {
        id_seq(self.set)
    }

    /// No id is in the table twice.
    pub open spec fn wf(&self) -> bool {
        self@.no_duplicates()
    }

    pub fn new() -> (r: IdTable)
        ensures
            r@ == Seq::<i32>::empty(),
            r.wf(),
    {
        IdTable { set: id_set_new() }
    }

    pub fn len(&self) -> (r: usize)
        ensures
            r == self@.len(),
    {
        id_set_len(&self.set)
    }

    pub fn index_of(&self, id: i32) -> (r: Option<usize>)
        requires
            self.wf(),
        ensures
            match r {
                Some(i) => position(self@, id) == Some(i as nat) && i < self@.len()
                    && self@[i as int] == id,
                None => position(self@, id) is None,
            },
    {
        let r = id_set_index_of(&self.set, id);
        proof {
            if let Some(i) = r {
                lemma_position(self@, id, i as int);
            }
        }
        r
    }

    pub fn insert(&mut self, id: i32)
        requires
            old(self).wf(),
        ensures
            final(self).wf(),
            final(self)@ == with(old(self)@, id),
    {
        proof {
            lemma_with(self@, id);
        }
        id_set_insert(&mut self.set, id);
    }

    pub fn get(&self, i: usize) -> (r: i32)
        requires
            i < self@.len(),
        ensures
            r == self@[i as int],
    {
        id_set_get(&self.set, i)
    }

    pub fn truncate(&mut self, n: usize)
        requires
            old(self).wf(),
        ensures
            final(self).wf(),
            final(self)@ == (if n < old(self)@.len() {
                old(self)@.take(n as int)
            } else {
                old(self)@
            }),
    {
        id_set_truncate(&mut self.set, n);
    }
}

} // verus!
