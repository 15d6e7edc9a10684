//! Short lists kept in place: `smallvec` vectors of machine words, of types, and
//! of the values that walks over them still have to visit.

use crate::types::node::Ty;
use crate::vm::bytecode::object::Value;
use smallvec::SmallVec;
use vstd::prelude::*;

verus! {

/// A list of words, a `smallvec::SmallVec` with room for one in place.
#[verifier::external_body]
pub struct WordList {
    words: SmallVec<[u64; 1]>,
}

/// The words a list holds, in order.
pub uninterp spec fn word_seq(l: WordList) -> Seq<u64>;

impl WordList {
    /// `SmallVec::new`: an empty list.
    #[verifier::external_body]
    pub(crate) fn new() -> (r: WordList)
        ensures
            word_seq(r) == Seq::<u64>::empty(),
    {
        WordList { words: SmallVec::new() }
    }

    /// `SmallVec::len`: how many words the list holds.
    #[verifier::external_body]
    pub(crate) fn len(&self) -> (r: usize)
        ensures
            r == word_seq(*self).len(),
    {
        self.words.len()
    }

    /// `SmallVec::push`: one more word, at the end.
    #[verifier::external_body]
    pub(crate) fn push(&mut self, w: u64)
        ensures
            word_seq(*final(self)) == word_seq(*old(self)).push(w),
    {
        self.words.push(w)
    }

    /// Indexing a `SmallVec`: the word at a position the list has.
    #[verifier::external_body]
    pub(crate) fn get(&self, i: usize) -> (r: u64)
        requires
            i < word_seq(*self).len(),
        ensures
            r == word_seq(*self)[i as int],
    {
        self.words[i]
    }

    /// Indexing a `SmallVec` for writing: the word at one position is replaced.
    #[verifier::external_body]
    pub(crate) fn set(&mut self, i: usize, w: u64)
        requires
            i < word_seq(*old(self)).len(),
        ensures
            word_seq(*final(self)) == word_seq(*old(self)).update(i as int, w),
    {
        self.words[i] = w;
    }
}

/// A list of types, a `smallvec::SmallVec` with room for four in place.
#[verifier::external_body]
pub struct TyList {
    types: SmallVec<[Ty; 4]>,
}

/// The types a list holds, in order.
pub uninterp spec fn ty_seq(l: TyList) -> Seq<Ty>;

impl TyList {
    pub open spec fn view(&self) -> Seq<Ty> {
        ty_seq(*self)
    }

    /// `SmallVec::new`: an empty list.
    #[verifier::external_body]
    pub(crate) fn new() -> (r: TyList)
        ensures
            ty_seq(r) == Seq::<Ty>::empty(),
    {
        TyList { types: SmallVec::new() }
    }

    /// `SmallVec::push`: one more type, at the end.
    #[verifier::external_body]
    pub(crate) fn push(&mut self, t: Ty)
        ensures
            ty_seq(*final(self)) == ty_seq(*old(self)).push(t),
    {
        self.types.push(t)
    }

    /// `SmallVec::as_slice`: the types as a slice.
    #[verifier::external_body]
    pub fn as_slice(&self) -> (r: &[Ty])
        ensures
            r@ == ty_seq(*self),
    {
        self.types.as_slice()
    }
}

/// Vector nodes with the place of their next child, a `smallvec::SmallVec` with
/// room for seven in place.
#[verifier::external_body]
pub struct NodeStack {
    nodes: SmallVec<[(Value, usize); 7]>,
}

/// The nodes of a stack, the top one last.
pub uninterp spec fn node_seq(l: NodeStack) -> Seq<(Value, usize)>;

impl NodeStack {
    /// `SmallVec::new`: an empty stack.
    #[verifier::external_body]
    pub(crate) fn new() -> (r: NodeStack)
        ensures
            node_seq(r) == Seq::<(Value, usize)>::empty(),
    {
        NodeStack { nodes: SmallVec::new() }
    }

    /// `SmallVec::push`: one more on top.
    #[verifier::external_body]
    pub(crate) fn push(&mut self, v: Value, next: usize)
        ensures
            node_seq(*final(self)) == node_seq(*old(self)).push((v, next)),
    {
        self.nodes.push((v, next))
    }

    /// `SmallVec::pop`: the top one off, or `None` of an empty stack.
    #[verifier::external_body]
    pub(crate) fn pop(&mut self) -> (r: Option<(Value, usize)>)
        ensures
            r == if node_seq(*old(self)).len() == 0 {
                None
            } else {
                Some(node_seq(*old(self)).last())
            },
            node_seq(*final(self)) == if node_seq(*old(self)).len() == 0 {
                node_seq(*old(self))
            } else {
                node_seq(*old(self)).drop_last()
            },
    {
        self.nodes.pop()
    }
}

/// Pairs of values, a `smallvec::SmallVec` with room for sixteen in place.
#[verifier::external_body]
pub struct PairStack {
    pairs: SmallVec<[(Value, Value); 16]>,
}

/// The pairs of a stack, the top one last.
pub uninterp spec fn pair_seq(l: PairStack) -> Seq<(Value, Value)>;

impl PairStack {
    /// `SmallVec::new`: an empty stack.
    #[verifier::external_body]
    pub(crate) fn new() -> (r: PairStack)
        ensures
            pair_seq(r) == Seq::<(Value, Value)>::empty(),
    {
        PairStack { pairs: SmallVec::new() }
    }

    /// `SmallVec::push`: one more on top.
    #[verifier::external_body]
    pub(crate) fn push(&mut self, x: Value, y: Value)
        ensures
            pair_seq(*final(self)) == pair_seq(*old(self)).push((x, y)),
    {
        self.pairs.push((x, y))
    }

    /// `SmallVec::pop`: the top one off, or `None` of an empty stack.
    #[verifier::external_body]
    pub(crate) fn pop(&mut self) -> (r: Option<(Value, Value)>)
        ensures
            r == if pair_seq(*old(self)).len() == 0 {
                None
            } else {
                Some(pair_seq(*old(self)).last())
            },
            pair_seq(*final(self)) == if pair_seq(*old(self)).len() == 0 {
                pair_seq(*old(self))
            } else {
                pair_seq(*old(self)).drop_last()
            },
    {
        self.pairs.pop()
    }
}

} // verus!
