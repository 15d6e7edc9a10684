//! Walking an array front to back.

use crate::small::{node_seq, NodeStack};
use crate::vm::bytecode::object::{Body, Value};
use crate::vm::bytecode::seq::{array, array_elems, root_parts};
use crate::vm::bytecode::sound::{
    elems, elems_all, lemma_elems_add, lemma_elems_one, lemma_nil_is_no_object, node,
};
use crate::vm::bytecode::tree::{branch_parts, leaf_elems, slots};
use crate::vm::bytecode::value::SeqRef;
use crate::vm::bytecode::word::HDR_NIL;
use vstd::prelude::*;

verus! {

/// An array's elements still to come. It keeps the nodes it still needs.
pub struct SeqIter {
    head: Value,
    tree: Value,
    tail: Value,
    section: usize,
    stack: NodeStack,
    cur: Value,
    pos: usize,
    remaining: usize,
}

/// How high a node is.
pub open spec fn height(v: Value) -> nat {
    match v.body() {
        Some(Body::SeqBranch(b)) => (b.shift / 5) as nat,
        _ => 0,
    }
}

proof fn lemma_height(v: Value, h: nat)
    requires
        node(v, h),
    ensures
        height(v) == h,
        h > 0 ==> nodes_below(v),
        h > 0 ==> elems(v) == elems_all(slots(v)),
{
    if h > 0 {
        assert(v.body()->Some_0->SeqBranch_0.shift == 5 * h);
    }
}

/// The children of a branch are nodes.
spec fn nodes_below(v: Value) -> bool {
    forall|i: int|
        0 <= i < slots(v).len() ==> node(#[trigger] slots(v)[i], (height(v) - 1) as nat)
}

/// A branch and the place of its next child.
spec fn waiting(p: (Value, usize)) -> bool {
    node(p.0, height(p.0)) && height(p.0) > 0 && p.1 <= slots(p.0).len()
}

/// The elements under what is stacked, from the top down.
spec fn stacked(ps: Seq<(Value, usize)>) -> Seq<Value>
    decreases ps.len(),
{
    if ps.len() == 0 {
        Seq::empty()
    } else {
        elems_all(slots(ps.last().0).skip(ps.last().1 as int)) + stacked(ps.drop_last())
    }
}

spec fn part(v: Value) -> bool {
    v.sound() && (v.bits == HDR_NIL || node(v, height(v)))
}

impl SeqIter {
    spec fn sections(self) -> Seq<Value> {
        if self.section == 0 {
            elems(self.head) + elems(self.tree) + elems(self.tail)
        } else if self.section == 1 {
            elems(self.tree) + elems(self.tail)
        } else if self.section == 2 {
            elems(self.tail)
        } else {
            Seq::empty()
        }
    }

    spec fn now(self) -> Seq<Value> {
        elems(self.cur).skip(self.pos as int)
    }

    /// The elements to come.
    pub closed spec fn rest(self) -> Seq<Value> {
        self.now() + stacked(node_seq(self.stack)) + self.sections()
    }

    spec fn shaped(self) -> bool {
        &&& part(self.head) && part(self.tree) && part(self.tail)
        &&& self.section <= 3
        &&& self.cur.sound() && (self.cur.bits == HDR_NIL || node(self.cur, 0))
        &&& self.pos <= elems(self.cur).len()
        &&& forall|i: int|
            0 <= i < node_seq(self.stack).len() ==> waiting(#[trigger] node_seq(self.stack)[i])
    }

    pub closed spec fn ok(self) -> bool {
        self.shaped() && self.remaining == self.rest().len()
    }

    /// All elements of an array.
    pub fn new(root: &Value) -> (r: SeqIter)
        requires
            array(*root),
        ensures
            r.ok(),
            r.rest() == array_elems(*root),
    {
        let s = root_parts(root);
        proof {
            lemma_nil_is_no_object(s.head);
            lemma_nil_is_no_object(s.tree);
            lemma_nil_is_no_object(s.tail);
            if s.head.bits != HDR_NIL {
                lemma_height(s.head, 0);
            }
            if s.tail.bits != HDR_NIL {
                lemma_height(s.tail, 0);
            }
            if s.tree.bits != HDR_NIL {
                lemma_height(s.tree, (s.shift / 5) as nat);
            }
        }
        let r = SeqIter {
            head: s.head.clone(),
            tree: s.tree.clone(),
            tail: s.tail.clone(),
            section: 0,
            stack: NodeStack::new(),
            cur: Value::nil(),
            pos: 0,
            remaining: s.len,
        };
        proof {
            lemma_nil_is_no_object(r.cur);
            assert(r.now() =~= Seq::empty());
            assert(r.rest() =~= array_elems(*root));
        }
        r
    }

    /// How many elements are to come.
    pub fn len(&self) -> (r: usize)
        requires
            self.ok(),
        ensures
            r == self.rest().len(),
    {
        self.remaining
    }

    /// Go down to the first leaf under a node.
    fn enter(&mut self, n: Value)
        requires
            old(self).shaped(),
            node(n, height(n)),
        ensures
            final(self).shaped(),
            node(final(self).cur, 0),
            final(self).pos == 0,
            final(self).now() + stacked(node_seq(final(self).stack)) == elems(n) + stacked(
                node_seq(old(self).stack),
            ),
            final(self).sections() == old(self).sections(),
            final(self).remaining == old(self).remaining,
            final(self).section == old(self).section,
        decreases height(n),
    {
        let leaf = match &n.obj {
            Some(o) => match &o.body {
                Body::SeqLeaf(_) => true,
                _ => false,
            },
            None => false,
        };
        if leaf {
            self.cur = n;
            self.pos = 0;
            proof {
                assert(self.now() =~= elems(n));
            }
            return;
        }
        proof {
            lemma_height(n, height(n));
        }
        let ghost cs = slots(n);
        let first = branch_parts(&n, Ghost(height(n))).children[0].clone();
        proof {
            assert(node(cs[0], (height(n) - 1) as nat));
            lemma_height(cs[0], (height(n) - 1) as nat);
            assert(cs =~= seq![cs[0]] + cs.skip(1));
            lemma_elems_add(seq![cs[0]], cs.skip(1));
            lemma_elems_one(cs[0]);
        }
        let ghost before = node_seq(self.stack);
        let ghost n0 = n;
        self.stack.push(n, 1);
        proof {
            let after = node_seq(self.stack);
            assert(after.drop_last() =~= before);
            assert(after.last() == (n0, 1usize));
            assert(elems(cs[0]) + stacked(after) =~= elems(n0) + stacked(before));
        }
        self.enter(first);
    }

    /// Go to the next leaf, if there is one.
    fn advance(&mut self) -> (r: bool)
        requires
            old(self).shaped(),
            old(self).now().len() == 0,
        ensures
            final(self).shaped(),
            final(self).remaining == old(self).remaining,
            final(self).rest() == old(self).rest(),
            r ==> node(final(self).cur, 0) && final(self).pos == 0,
            !r ==> final(self).rest().len() == 0,
    {
        let ghost all = self.rest();
        let ghost secs = self.sections();
        proof {
            assert(all =~= stacked(node_seq(self.stack)) + secs);
        }
        loop
            invariant_except_break
                self.shaped(),
                self.remaining == old(self).remaining,
                self.now().len() == 0,
                stacked(node_seq(self.stack)) + self.sections() == all,
                self.sections() == secs,
                all == old(self).rest(),
            ensures
                self.shaped(),
                self.remaining == old(self).remaining,
                self.now().len() == 0,
                node_seq(self.stack).len() == 0,
                self.sections() == all,
            decreases node_seq(self.stack).len(),
        {
            let ghost before = node_seq(self.stack);
            match self.stack.pop() {
                None => {
                    proof {
                        assert(stacked(before) =~= Seq::empty());
                        assert(self.sections() =~= all);
                    }
                    break ;
                },
                Some(p) => {
                    let (n, idx) = p;
                    proof {
                        assert(waiting(before[before.len() - 1]));
                        assert forall|i: int| 0 <= i < before.drop_last().len() implies waiting(
                            #[trigger] before.drop_last()[i],
                        ) by {
                            assert(waiting(before[i]));
                        }
                        lemma_height(n, height(n));
                    }
                    let ghost cs = slots(n);
                    let next = {
                        let b = branch_parts(&n, Ghost(height(n)));
                        if idx < b.children.len() {
                            Some(b.children[idx].clone())
                        } else {
                            None
                        }
                    };
                    match next {
                        Some(child) => {
                            let ghost rest = before.drop_last();
                            let ghost n0 = n;
                            proof {
                                assert(node(cs[idx as int], (height(n) - 1) as nat));
                                lemma_height(cs[idx as int], (height(n) - 1) as nat);
                                assert(cs.skip(idx as int) =~= seq![cs[idx as int]] + cs.skip(
                                    idx + 1,
                                ));
                                lemma_elems_add(seq![cs[idx as int]], cs.skip(idx + 1));
                                lemma_elems_one(cs[idx as int]);
                            }
                            self.stack.push(n, idx + 1);
                            proof {
                                let after = node_seq(self.stack);
                                assert(after.drop_last() =~= rest);
                                assert(after.last() == (n0, (idx + 1) as usize));
                                assert forall|i: int| 0 <= i < after.len() implies waiting(
                                    #[trigger] after[i],
                                ) by {
                                    if i < rest.len() {
                                        assert(waiting(rest[i]));
                                    }
                                }
                                assert(stacked(before) =~= elems(child) + stacked(after));
                            }
                            self.enter(child);
                            proof {
                                assert(self.rest() =~= all);
                            }
                            return true;
                        },
                        None => {
                            proof {
                                assert(cs.skip(idx as int) =~= Seq::empty());
                                assert(elems_all(cs.skip(idx as int)) =~= Seq::empty());
                                assert(stacked(before) =~= stacked(before.drop_last()));
                            }
                        },
                    }
                },
            }
        }
        while self.section < 3
            invariant
                self.shaped(),
                self.remaining == old(self).remaining,
                self.now().len() == 0,
                node_seq(self.stack).len() == 0,
                self.sections() == all,
                all == old(self).rest(),
            decreases 3 - self.section,
        {
            let v = if self.section == 0 {
                self.head.clone()
            } else if self.section == 1 {
                self.tree.clone()
            } else {
                self.tail.clone()
            };
            self.section = self.section + 1;
            proof {
                lemma_nil_is_no_object(v);
                assert(all =~= elems(v) + self.sections());
            }
            if !v.is_nil() {
                self.enter(v);
                proof {
                    assert(stacked(Seq::<(Value, usize)>::empty()) =~= Seq::empty());
                    assert(self.rest() =~= all);
                }
                return true;
            }
            proof {
                assert(elems(v) =~= Seq::empty());
                assert(self.sections() =~= all);
            }
        }
        proof {
            assert(self.now() =~= Seq::empty());
            assert(stacked(node_seq(self.stack)) =~= Seq::empty());
            assert(self.rest() =~= all);
        }
        false
    }

    /// The next element, or `None` at the end.
    pub fn next(&mut self) -> (r: Option<Value>)
        requires
            old(self).ok(),
        ensures
            final(self).ok(),
            match r {
                Some(v) => old(self).rest().len() > 0 && v == old(self).rest()[0]
                    && final(self).rest() == old(self).rest().skip(1),
                None => old(self).rest().len() == 0 && final(self).rest() == old(self).rest(),
            },
    {
        proof {
            lemma_nil_is_no_object(self.cur);
        }
        let ready = if self.cur.is_nil() {
            false
        } else {
            self.pos < leaf_elems(&self.cur).len()
        };
        if !ready {
            if !self.advance() {
                return None;
            }
        }
        let ghost all = self.rest();
        let v = leaf_elems(&self.cur)[self.pos].clone();
        proof {
            assert(self.now()[0] == v);
            assert(self.now().skip(1) =~= elems(self.cur).skip(self.pos + 1));
        }
        self.pos = self.pos + 1;
        self.remaining = self.remaining - 1;
        proof {
            assert(self.rest() =~= all.skip(1));
        }
        Some(v)
    }
}

impl<'a> SeqRef<'a> {
    /// The elements, front to back.
    pub fn iter(&self) -> (r: SeqIter)
        requires
            array(*self.root),
        ensures
            r.ok(),
            r.rest() == array_elems(*self.root),
    {
        SeqIter::new(self.root)
    }
}

} // verus!
