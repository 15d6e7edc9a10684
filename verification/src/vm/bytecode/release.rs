//! Giving values up. A value's object goes with its last reference, and with it
//! the objects that only it referred to; a worklist takes a long chain of them
//! apart one by one.

use crate::vm::bytecode::object::{Body, Value};
use crate::vm::bytecode::tree::take_apart;
use crate::vm::bytecode::value::children_of;
use crate::vm::bytecode::weight::{lemma_weight_kids, lemma_weights_add, weight, weights};
use vstd::prelude::*;

verus! {

/// Objects freed: since they were last taken account of, and before that; and
/// the mailboxes whose owning handles went, still to be closed.
pub struct Freed {
    pub pending: u64,
    pub total: u64,
    pub closed: Vec<u64>,
}

/// What a [`Freed`] counts, and the mailboxes it has to close, in order.
pub struct Tally {
    pub pending: nat,
    pub total: nat,
    pub closed: Seq<u64>,
}

impl Freed {
    pub open spec fn view(&self) -> Tally {
        Tally {
            pending: self.pending as nat,
            total: self.total as nat,
            closed: self.closed@,
        }
    }

    pub fn new() -> (r: Freed)
        ensures
            r.pending == 0,
            r.total == 0,
            r.closed@ == Seq::<u64>::empty(),
    {
        Freed { pending: 0, total: 0, closed: Vec::new() }
    }
}

/// The objects freed since the last call.
pub fn take_freed_objects(f: &mut Freed) -> (r: u64)
    requires
        old(f).total + old(f).pending <= u64::MAX,
    ensures
        r == old(f).pending,
        final(f).pending == 0,
        final(f).total == old(f).total + old(f).pending,
        final(f).closed@ == old(f).closed@,
{
    let n: u64 = f.pending;
    f.pending = 0;
    f.total = f.total + n;
    n
}

/// The objects freed since [`take_freed_objects`], which stay pending.
pub fn freed_objects_pending(f: &Freed) -> (r: u64)
    ensures
        r == f.pending,
{
    f.pending
}

/// Every object freed since the last reset.
pub fn freed_objects_total(f: &Freed) -> (r: u64)
    requires
        f.total + f.pending <= u64::MAX,
    ensures
        r == f.total + f.pending,
{
    f.total + f.pending
}

/// Count from zero again.
pub fn reset_freed_objects_total(f: &mut Freed)
    ensures
        final(f).pending == 0,
        final(f).total == 0,
        final(f).closed@ == old(f).closed@,
{
    f.total = 0;
    f.pending = 0;
}

/// Every value of a list can be taken apart.
pub open spec fn all_sound(vs: Seq<Value>) -> bool {
    forall|i: int| 0 <= i < vs.len() ==> deep_sound(#[trigger] vs[i])
}

/// A value and everything under it is well formed.
pub open spec fn deep_sound(v: Value) -> bool
    decreases weight(v),
{
    &&& v.sound()
    &&& match v.body() {
        Some(b) => {
            let kids = b.kids();
            forall|i: int|
                0 <= i < kids.len() && weight(kids[i]) < weight(v) ==> deep_sound(#[trigger] kids[i])
        },
        None => true,
    }
}

pub proof fn lemma_kids_sound(v: Value)
    requires
        deep_sound(v),
        v.obj is Some,
    ensures
        all_sound(v.body()->Some_0.kids()),
        weight(v) == 1 + weights(v.body()->Some_0.kids()),
{
    lemma_weight_kids(v);
    let kids = v.body()->Some_0.kids();
    assert forall|i: int| 0 <= i < kids.len() implies deep_sound(#[trigger] kids[i]) by {
        crate::vm::bytecode::weight::lemma_weights_at(kids, i);
    }
}

/// A value that is an object with a count of its own.
pub open spec fn mortal(v: Value) -> bool {
    v.obj is Some && !v.obj->Some_0.immortal
}

/// The objects that go when references are given up: the mortal ones of which
/// `lasts` says that this reference was the last.
pub open spec fn orphans(vs: Seq<Value>, lasts: Seq<bool>) -> Seq<Body>
    decreases vs.len(),
{
    if vs.len() == 0 {
        Seq::empty()
    } else {
        let before = orphans(vs.drop_last(), lasts.drop_last());
        if mortal(vs.last()) && lasts.last() {
            before.push(vs.last().body()->Some_0)
        } else {
            before
        }
    }
}

/// The account of one more object freed: it counts once, and an owning handle's
/// mailbox is to be closed.
pub open spec fn counted(t: Tally, b: Body) -> Tally {
    Tally {
        pending: t.pending + 1,
        total: t.total,
        closed: match b {
            Body::Subject(id) => t.closed.push(id),
            _ => t.closed,
        },
    }
}

/// A release under way: the account so far, the objects without a reference
/// that are still to be freed, the next one last, and whether each object so far
/// left at most one behind.
pub struct Fall {
    pub tally: Tally,
    pub dying: Seq<Body>,
    pub straight: bool,
}

/// The next object freed. Of the first that leaves several behind, the first of
/// these goes next; after that, whichever came last.
pub open spec fn fell(s: Fall, lasts: Seq<bool>) -> Fall {
    let b = s.dying.last();
    let left = orphans(b.kids(), lasts);
    Fall {
        tally: counted(s.tally, b),
        dying: if s.straight && left.len() > 1 {
            left.skip(1).push(left[0])
        } else {
            s.dying.drop_last() + left
        },
        straight: s.straight && left.len() <= 1,
    }
}

/// As many objects freed as there are answers, each saying which of the
/// references that an object held were the last ones.
pub open spec fn after(s: Fall, answers: Seq<Seq<bool>>) -> Fall
    decreases answers.len(),
{
    if answers.len() == 0 {
        s
    } else {
        fell(after(s, answers.drop_last()), answers.last())
    }
}

/// There was an object to free each time, and an answer for each reference it
/// held.
pub open spec fn told(s: Fall, answers: Seq<Seq<bool>>) -> bool
    decreases answers.len(),
{
    answers.len() == 0 || {
        let now = after(s, answers.drop_last());
        &&& told(s, answers.drop_last())
        &&& now.dying.len() > 0
        &&& answers.last().len() == now.dying.last().kids().len()
    }
}

/// From the account `t` to `u`, an object is freed and everything that goes with
/// it, by the answers.
pub open spec fn freed_by(t: Tally, b: Body, answers: Seq<Seq<bool>>, u: Tally) -> bool {
    let s = Fall { tally: t, dying: seq![b], straight: true };
    &&& told(s, answers)
    &&& after(s, answers).dying.len() == 0
    &&& after(s, answers).tally == u
}

/// From the account `t` to `u`, a reference is given up: nothing changes, or its
/// object is freed, which is then a mortal one.
pub open spec fn gave_up(t: Tally, v: Value, u: Tally) -> bool {
    t == u || mortal(v) && exists|answers: Seq<Seq<bool>>| #[trigger]
        freed_by(t, v.body()->Some_0, answers, u)
}

/// From the account `t` to `u`, references are given up one after another.
pub open spec fn gave_up_each(t: Tally, vs: Seq<Value>, u: Tally) -> bool
    decreases vs.len(),
{
    if vs.len() == 0 {
        t == u
    } else {
        exists|mid: Tally| #[trigger]
            gave_up(mid, vs.last(), u) && gave_up_each(t, vs.drop_last(), mid)
    }
}

/// What objects weigh together.
spec fn load(bs: Seq<Body>) -> nat
    decreases bs.len(),
{
    if bs.len() == 0 {
        0
    } else {
        load(bs.drop_last()) + 1 + weights(bs.last().kids())
    }
}

/// Everything that objects hold is well formed.
spec fn all_held(bs: Seq<Body>) -> bool {
    forall|i: int| 0 <= i < bs.len() ==> all_sound((#[trigger] bs[i]).kids())
}

proof fn lemma_load_add(a: Seq<Body>, b: Seq<Body>)
    ensures
        load(a + b) == load(a) + load(b),
    decreases b.len(),
{
    if b.len() == 0 {
        assert(a + b =~= a);
    } else {
        lemma_load_add(a, b.drop_last());
        assert((a + b).drop_last() =~= a + b.drop_last());
    }
}

proof fn lemma_load_one(b: Body)
    ensures
        load(seq![b]) == 1 + weights(b.kids()),
{
    assert(seq![b].drop_last() =~= Seq::empty());
    assert(load(Seq::<Body>::empty()) == 0);
}

/// Free one object that nothing refers to: it is counted, and its mailbox noted
/// if it owns one. The references it held are the caller's to give up.
pub fn free_object(body: Body, f: &mut Freed) -> (r: Vec<Value>)
    requires
        old(f).pending < u64::MAX,
    ensures
        r@ == body.kids(),
        final(f)@ == counted(old(f)@, body),
{
    f.pending = f.pending + 1;
    if let Body::Subject(id) = &body {
        f.closed.push(*id);
    }
    children_of(&body)
}

/// The last first.
fn reversed(vs: Vec<Value>) -> (r: Vec<Value>)
    ensures
        r@ == vs@.reverse(),
{
    let ghost all = vs@;
    let mut vs = vs;
    let mut out: Vec<Value> = Vec::new();
    proof {
        assert(all.take(all.len() as int) =~= all);
        assert(out@ =~= all.skip(all.len() as int).reverse());
    }
    while vs.len() > 0
        invariant
            vs@.len() <= all.len(),
            vs@ == all.take(vs@.len() as int),
            out@ == all.skip(vs@.len() as int).reverse(),
        decreases vs@.len(),
    {
        let ghost n = vs@.len() - 1;
        match vs.pop() {
            Some(x) => {
                out.push(x);
                proof {
                    assert(vs@ =~= all.take(n));
                    assert(out@ =~= all.skip(n).reverse());
                }
            },
            None => {},
        }
    }
    proof {
        assert(all.skip(0) =~= all);
    }
    out
}

/// Give up references, in order. The objects of which one was the last come
/// back.
fn give_up_all(vs: Vec<Value>) -> (r: (Vec<Body>, Ghost<Seq<bool>>))
    requires
        all_sound(vs@),
    ensures
        r.1@.len() == vs@.len(),
        r.0@ == orphans(vs@, r.1@),
        all_held(r.0@),
        load(r.0@) <= weights(vs@),
{
    let ghost all = vs@;
    // The first on top, so that each is moved out in turn.
    let mut todo = reversed(vs);
    let mut out: Vec<Body> = Vec::new();
    let ghost mut lasts: Seq<bool> = Seq::empty();
    let ghost mut k: int = 0;
    proof {
        assert(all.take(0) =~= Seq::empty());
        assert(todo@ =~= all.skip(0).reverse());
    }
    while todo.len() > 0
        invariant
            all_sound(all),
            0 <= k <= all.len(),
            todo@ == all.skip(k).reverse(),
            lasts.len() == k,
            out@ == orphans(all.take(k), lasts),
            all_held(out@),
            load(out@) <= weights(all.take(k)),
        decreases todo@.len(),
    {
        let ghost out0 = out@;
        let ghost lasts0 = lasts;
        proof {
            assert(todo@[todo@.len() - 1] == all[k]);
            assert(all.take(k + 1).drop_last() =~= all.take(k));
            assert(all.take(k + 1).last() == all[k]);
            assert(deep_sound(all[k]));
        }
        match todo.pop() {
            Some(x) => {
                let ghost x0 = x;
                let mut went: Option<Body> = None;
                if x.obj.is_some() {
                    proof {
                        lemma_kids_sound(x0);
                    }
                    if let Ok(p) = take_apart(x) {
                        let (_, body) = p;
                        went = Some(body);
                    }
                }
                let ghost last = went is Some;
                proof {
                    lasts = lasts0.push(last);
                    assert(lasts.drop_last() =~= lasts0);
                }
                if let Some(body) = went {
                    let ghost b0 = body;
                    out.push(body);
                    proof {
                        assert(out@.drop_last() =~= out0);
                        assert forall|i: int| 0 <= i < out@.len() implies all_sound(
                            (#[trigger] out@[i]).kids(),
                        ) by {
                            if i < out0.len() {
                                assert(all_sound(out0[i].kids()));
                            }
                        }
                    }
                }
                proof {
                    assert(todo@ =~= all.skip(k + 1).reverse());
                    k = k + 1;
                }
            },
            None => {},
        }
    }
    proof {
        assert(all.take(k) =~= all);
    }
    (out, Ghost(lasts))
}

/// Free an object whose last reference went, and everything that only it held.
///
/// Which of the references that a freed object held were the last ones is what
/// `Rc::try_unwrap` says of each; all else follows from those answers.
pub fn release_at_zero(body: Body, f: &mut Freed)
    requires
        all_sound(body.kids()),
        old(f).pending + 1 + weights(body.kids()) <= u64::MAX,
    ensures
        exists|answers: Seq<Seq<bool>>| #[trigger]
            freed_by(old(f)@, body, answers, final(f)@),
        final(f).total == old(f).total,
        old(f).pending < final(f).pending <= old(f).pending + 1 + weights(body.kids()),
        counted(old(f)@, body).closed.is_prefix_of(final(f).closed@),
        final(f).closed@.len() - old(f).closed@.len() <= final(f).pending - old(f).pending,
{
    let ghost f0 = *f;
    let ghost b0 = body;
    let ghost s = Fall { tally: f@, dying: seq![b0], straight: true };
    let ghost mut answers: Seq<Seq<bool>> = Seq::empty();
    let mut dying: Vec<Body> = Vec::new();
    let mut straight = true;
    dying.push(body);
    proof {
        assert(dying@ =~= seq![b0]);
        lemma_load_one(b0);
    }
    while dying.len() > 0
        invariant
            s == (Fall { tally: f0@, dying: seq![b0], straight: true }),
            told(s, answers),
            after(s, answers) == (Fall { tally: f@, dying: dying@, straight }),
            all_held(dying@),
            straight ==> dying@.len() <= 1,
            f.total == f0.total,
            f0.pending <= f.pending,
            answers.len() == 0 ==> f@ == f0@ && dying@ == seq![b0],
            answers.len() > 0 ==> f0.pending < f.pending && counted(
                f0@,
                b0,
            ).closed.is_prefix_of(f.closed@),
            f.pending + load(dying@) <= f0.pending + 1 + weights(b0.kids()),
            f0.pending + 1 + weights(b0.kids()) <= u64::MAX,
            f0.closed@.len() <= f.closed@.len(),
            f.closed@.len() - f0.closed@.len() <= f.pending - f0.pending,
        decreases load(dying@),
    {
        let ghost before = dying@;
        let ghost f1 = *f;
        match dying.pop() {
            Some(b) => {
                let ghost b1 = b;
                let ghost rest = dying@;
                proof {
                    assert(before[before.len() - 1] == b1);
                    assert(all_sound(b1.kids()));
                    assert(load(before) == load(rest) + 1 + weights(b1.kids()));
                }
                let kids = free_object(b, f);
                let (left, Ghost(lasts)) = give_up_all(kids);
                let mut left = left;
                let ghost l0 = left@;
                if straight && left.len() > 1 {
                    let first = left.remove(0);
                    let ghost first0 = first;
                    left.push(first);
                    straight = false;
                    proof {
                        assert(first0 == l0[0]);
                        assert(left@ =~= l0.skip(1).push(l0[0]));
                        assert(l0 =~= seq![l0[0]] + l0.skip(1));
                        assert(left@ =~= l0.skip(1) + seq![l0[0]]);
                        lemma_load_add(seq![l0[0]], l0.skip(1));
                        lemma_load_add(l0.skip(1), seq![l0[0]]);
                        assert(rest =~= Seq::empty());
                        assert forall|i: int| 0 <= i < left@.len() implies all_sound(
                            (#[trigger] left@[i]).kids(),
                        ) by {
                            if i < l0.len() - 1 {
                                assert(all_sound(l0[i + 1].kids()));
                            } else {
                                assert(all_sound(l0[0].kids()));
                            }
                        }
                    }
                }
                let ghost l1 = left@;
                dying.append(&mut left);
                proof {
                    assert(dying@ =~= rest + l1);
                    lemma_load_add(rest, l1);
                    assert forall|i: int| 0 <= i < dying@.len() implies all_sound(
                        (#[trigger] dying@[i]).kids(),
                    ) by {
                        if i < rest.len() {
                            assert(all_sound(before[i].kids()));
                        } else {
                            assert(all_sound(l1[i - rest.len()].kids()));
                        }
                    }
                    let next = answers.push(lasts);
                    assert(next.drop_last() =~= answers);
                    assert(next.last() == lasts);
                    assert(before.drop_last() =~= rest);
                    assert(fell(after(s, answers), lasts).dying =~= dying@);
                    answers = next;
                }
            },
            None => {},
        }
    }
    proof {
        assert(freed_by(f0@, b0, answers, f@));
    }
}

/// Give up a reference. Its object is freed if it was the last one, and then
/// the references that the object held are given up in the same way.
///
/// Whether it was the last is what `Rc::try_unwrap` says: either nothing
/// changes, or the object is freed as [`release_at_zero`] frees it. A value that
/// is no mortal object frees nothing.
pub fn release(v: Value, f: &mut Freed)
    requires
        deep_sound(v),
        old(f).pending + weight(v) <= u64::MAX,
    ensures
        gave_up(old(f)@, v, final(f)@),
        final(f).total == old(f).total,
        old(f).pending <= final(f).pending <= old(f).pending + weight(v),
        old(f).closed@.is_prefix_of(final(f).closed@),
        final(f).closed@.len() - old(f).closed@.len() <= final(f).pending - old(f).pending,
        !mortal(v) ==> *final(f) == *old(f),
{
    let ghost v0 = v;
    if !v.obj.is_some() {
        return;
    }
    proof {
        lemma_kids_sound(v0);
    }
    match take_apart(v) {
        Ok(p) => {
            let (_, body) = p;
            release_at_zero(body, f);
        },
        Err(_) => {},
    }
}

/// Give up references, one after another, each as [`release`] does.
pub fn release_each(vs: Vec<Value>, f: &mut Freed)
    requires
        all_sound(vs@),
        old(f).pending + weights(vs@) <= u64::MAX,
    ensures
        gave_up_each(old(f)@, vs@, final(f)@),
        final(f).total == old(f).total,
        old(f).pending <= final(f).pending <= old(f).pending + weights(vs@),
        old(f).closed@.is_prefix_of(final(f).closed@),
{
    let ghost all = vs@;
    let ghost f0 = *f;
    let mut todo = reversed(vs);
    let ghost mut k: int = 0;
    proof {
        assert(all.take(0) =~= Seq::empty());
        assert(all.skip(0) =~= all);
    }
    while todo.len() > 0
        invariant
            all_sound(all),
            0 <= k <= all.len(),
            todo@ == all.skip(k).reverse(),
            gave_up_each(f0@, all.take(k), f@),
            f.total == f0.total,
            f0.pending <= f.pending <= f0.pending + weights(all.take(k)),
            f0.pending + weights(all) <= u64::MAX,
            f0.closed@.is_prefix_of(f.closed@),
        decreases todo@.len(),
    {
        let ghost before = f@;
        proof {
            assert(todo@[todo@.len() - 1] == all[k]);
            assert(all.take(k + 1).drop_last() =~= all.take(k));
            assert(all.take(k + 1).last() == all[k]);
            assert(deep_sound(all[k]));
            assert(all =~= all.take(k + 1) + all.skip(k + 1));
            lemma_weights_add(all.take(k + 1), all.skip(k + 1));
        }
        match todo.pop() {
            Some(x) => {
                release(x, f);
                proof {
                    assert(gave_up(before, all.take(k + 1).last(), f@));
                    assert(todo@ =~= all.skip(k + 1).reverse());
                    k = k + 1;
                }
            },
            None => {},
        }
    }
    proof {
        assert(all.take(k) =~= all);
    }
}

} // verus!
