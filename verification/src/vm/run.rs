//! A whole run: every module's toplevel in order, then `main`.

use crate::vm::array::out_of_room;
use crate::vm::cells::{handles, too_long};
use crate::vm::code::{Body, Code, Func};
use crate::vm::compute::{new_text, text_value};
use crate::vm::exec::{
    body_at, code_ok, done, enter, entered, ends_at, envs, Event, Frame, func_ok, heap_moved, jumps,
    leave, lemma_nils, Machine, no_function, outcome, ready_body, set_at, stepped, thinned, Wait,
};
use crate::vm::heap::Heap;
use crate::vm::nodes::{give_up, handle, lemma_handle_one, lemma_no_handles};
use crate::vm::record::law_nothing_leaks;
use crate::vm::scene::{Fault, nil_value, Stop};
use crate::vm::value::{Cell, Value};
use vstd::multiset::Multiset;
use vstd::prelude::*;

verus! {

/// What a program runs in turn: its toplevels, then `main` if it has one.
pub open spec fn part(c: Code, k: int) -> Option<Result<Body, Stop>> {
    if 0 <= k < c.toplevels@.len() {
        match c.toplevels@[k] {
            Func::Ready(b) => Some(Ok(b)),
            Func::NotBuiltYet(_) => Some(
                Err(Stop::NotBuiltYet(Fault::ToplevelNotReady(k as usize))),
            ),
        }
    } else if k == c.toplevels@.len() {
        match c.main {
            Some(f) => match ready_body(c, f) {
                Some(b) => Some(Ok(b)),
                None => Some(Err(no_function(c, f)->Some_0)),
            },
            None => None,
        }
    } else {
        None
    }
}

/// A run that has just begun `body`.
pub open spec fn begun(a: Machine, b: Machine, body: Body) -> bool {
    &&& b.frames@.len() == 1
    &&& *b.frames@[0].body == body
    &&& b.frames@[0].pc == 0
    &&& b.frames@[0].base == 0
    &&& b.frames@[0].ret_to is None
    &&& b.frames@[0].env == nil_value()
    &&& b.regs@ == entered(Seq::empty(), body, Seq::empty())
    &&& b.globals@ == a.globals@
    &&& b.last == a.last
    &&& b.waiting is None
    &&& heap_moved(a, b)
}

/// One machine goes on to the next.
pub open spec fn leads(ms: Seq<Machine>, i: int) -> bool {
    outcome(ms[i], ms[i + 1], Ok(Event::Going))
}

/// The machines that a run goes through.
pub open spec fn path(ms: Seq<Machine>) -> bool {
    &&& ms.len() > 0
    &&& forall|i: int| 0 <= i < ms.len() - 1 ==> #[trigger] leads(ms, i)
}

/// What at most `fuel` steps come to: they were all taken, or the last of them
/// stopped, returned or asked for something.
pub open spec fn ran(ms: Seq<Machine>, a: Machine, b: Machine, fuel: int, r: Result<Event, Stop>) -> bool {
    &&& path(ms)
    &&& ms[0] == a
    &&& if r == Ok::<Event, Stop>(Event::Going) {
        ms.len() == fuel + 1 && ms.last() == b
    } else {
        ms.len() <= fuel && outcome(ms.last(), b, r)
    }
}

/// A step that goes on leaves a frame to go on with.
proof fn lemma_going(a: Machine, b: Machine)
    requires
        a.wf(),
        a.frames@.len() > 0,
        a.waiting is None,
        outcome(a, b, Ok(Event::Going)),
    ensures
        b.wf(),
        b.frames@.len() > 0,
        b.waiting is None,
{
    reveal(stepped);
    reveal(jumps);
}

/// A run that returned has no frame left, and no register outlived its frame.
pub proof fn law_a_run_returns_with_nothing_under_way(a: Machine, b: Machine, v: Value)
    requires
        a.wf(),
        a.frames@.len() > 0,
        a.waiting is None,
        outcome(a, b, Ok(Event::Returned(v))),
    ensures
        b.frames@.len() == 0,
        b.regs@.len() == 0,
        b.waiting is None,
{
    reveal(stepped);
    reveal(jumps);
}

impl<'c> Machine<'c> {
    /// A machine that has not run anything yet. Its globals are `Nil`.
    pub fn new(code: &'c Code) -> (m: Machine<'c>)
        requires
            code_ok(*code),
        ensures
            m.wf(),
            *m.code == *code,
            m.frames@.len() == 0,
            m.regs@.len() == 0,
            m.waiting is None,
            m.globals@ == Seq::new(code.globals as nat, |i: int| nil_value()),
            m.last == nil_value(),
            m.heap.record().order.len() == 0,
    {
        let mut globals: Vec<Value> = Vec::new();
        let mut k: u32 = 0;
        while k < code.globals
            invariant
                k <= code.globals,
                globals@ == Seq::new(k as nat, |i: int| nil_value()),
            decreases code.globals - k,
        {
            globals.push(Value { bits: 0xFFFA_0000_0000_0000 });
            k += 1;
            proof {
                assert(globals@ =~= Seq::new(k as nat, |i: int| nil_value()));
            }
        }
        let heap = Heap::new();
        let ghost made = heap.record();
        let m = Machine {
            code,
            heap,
            globals,
            last: Value { bits: 0xFFFA_0000_0000_0000 },
            regs: Vec::new(),
            frames: Vec::new(),
            waiting: None,
            made: Ghost(made),
        };
        proof {
            lemma_nils(code.globals as nat);
            lemma_no_handles();
            lemma_handle_one(nil_value());
            assert(envs(m.frames@) =~= Seq::empty());
            assert(m.regs@ =~= Seq::empty());
            assert(m.heap.record().ext =~= m.held());
        }
        m
    }

    /// Begin what the program runs as number `k`; `false` where it has no more.
    pub fn start(&mut self, k: usize) -> (r: Result<bool, Stop>)
        requires
            old(self).wf(),
            old(self).frames@.len() == 0,
        ensures
            final(self).wf(),
            final(self).code == old(self).code,
            match part(*old(self).code, k as int) {
                Some(Ok(body)) => r == Ok::<bool, Stop>(true) && begun(
                    *old(self),
                    *final(self),
                    body,
                ),
                Some(Err(e)) => r == Err::<bool, Stop>(e) && *final(self) == *old(self),
                None => r == Ok::<bool, Stop>(false) && *final(self) == *old(self),
            },
    {
        let code: &'c Code = self.code;
        let body: &'c Body = if k < code.toplevels.len() {
            proof {
                assert(func_ok(code.toplevels@[k as int]));
            }
            match &code.toplevels[k] {
                Func::Ready(b) => b,
                Func::NotBuiltYet(_) => {
                    return Err(Stop::NotBuiltYet(Fault::ToplevelNotReady(k)));
                },
            }
        } else if k == code.toplevels.len() {
            match code.main {
                Some(f) => match body_at(code, f) {
                    Ok(b) => b,
                    Err(e) => {
                        return Err(e);
                    },
                },
                None => {
                    return Ok(false);
                },
            }
        } else {
            return Ok(false);
        };
        let args: Vec<Value> = Vec::new();
        let ghost rest = self.kept().add(handles(envs(self.frames@)));
        proof {
            lemma_no_handles();
            assert(args@ =~= Seq::empty());
            assert(self.heap.record().ext =~= rest.add(handles(self.regs@)).add(handles(args@)));
            assert(self.regs@.take(0) =~= Seq::empty());
        }
        self.made = Ghost(self.heap.record());
        let ghost before = *self;
        enter(&mut self.heap, &mut self.regs, body, 0, &args, Ghost(rest));
        let frame = Frame {
            body,
            pc: 0,
            base: 0,
            ret_to: None,
            env: Value { bits: 0xFFFA_0000_0000_0000 },
        };
        self.frames.push(frame);
        proof {
            assert(envs(before.frames@) =~= Seq::empty());
            assert(envs(self.frames@) =~= seq![nil_value()]);
            lemma_handle_one(nil_value());
            assert(self.heap.record().ext =~= self.held());
            assert(ends_at(self.frames@, self.regs@.len() as int, 0));
        }
        Ok(true)
    }

    /// Run at most `fuel` steps, until something other than another step is to
    /// be done.
    pub fn resume(&mut self, fuel: u64) -> (r: Result<Event, Stop>)
        requires
            old(self).wf(),
            old(self).frames@.len() > 0,
            old(self).waiting is None,
        ensures
            exists|ms: Seq<Machine>| ran(ms, *old(self), *final(self), fuel as int, r),
    {
        let ghost mut ms: Seq<Machine> = seq![*self];
        let mut k: u64 = 0;
        while k < fuel
            invariant
                k <= fuel,
                self.wf(),
                self.frames@.len() > 0,
                self.waiting is None,
                path(ms),
                ms.len() == k + 1,
                ms[0] == *old(self),
                ms.last() == *self,
            decreases fuel - k,
        {
            let r = self.step();
            let going = match r {
                Ok(Event::Going) => true,
                _ => false,
            };
            if !going {
                proof {
                    assert(ran(ms, *old(self), *self, fuel as int, r));
                }
                return r;
            }
            proof {
                let before = ms;
                lemma_going(before.last(), *self);
                ms = ms.push(*self);
                assert forall|i: int| 0 <= i < ms.len() - 1 implies #[trigger] leads(ms, i) by {
                    if i < before.len() - 1 {
                        assert(leads(before, i));
                    }
                }
            }
            k += 1;
        }
        let r: Result<Event, Stop> = Ok(Event::Going);
        proof {
            assert(ran(ms, *old(self), *self, fuel as int, r));
        }
        r
    }

    /// The value asked about was printed.
    pub fn printed(&mut self)
        requires
            old(self).wf(),
            old(self).waiting is Some,
        ensures
            final(self).wf(),
            final(self).code == old(self).code,
            final(self).waiting is None,
            final(self).frames@ == old(self).frames@,
            final(self).globals@ == old(self).globals@,
            final(self).last == old(self).last,
            match old(self).waiting->Some_0 {
                Wait::Printed { dst } => {
                    &&& final(self).regs@ == set_at(
                        old(self).regs@,
                        old(self).top().base + dst.0,
                        nil_value(),
                    )
                    &&& heap_moved(*old(self), *final(self))
                },
                Wait::Text { .. } => {
                    &&& final(self).regs@ == old(self).regs@
                    &&& final(self).heap.record() == old(self).heap.record()
                },
            },
    {
        if let Some(Wait::Printed { dst }) = self.waiting {
            let nil = Value { bits: 0xFFFA_0000_0000_0000 };
            proof {
                assert(self.heap.record().ext =~= self.held().add(handle(nil)));
            }
            self.fill(dst, nil);
        }
        self.waiting = None;
    }

    /// The value asked about shows as `text`.
    pub fn shown(&mut self, text: &[u8]) -> (r: Result<(), Stop>)
        requires
            old(self).wf(),
            old(self).waiting matches Some(w) && w is Text,
        ensures
            final(self).code == old(self).code,
            match r {
                Ok(_) => {
                    let at = old(self).top().base + old(self).waiting->Some_0->Text_dst.0;
                    &&& final(self).wf()
                    &&& final(self).waiting is None
                    &&& final(self).frames@ == old(self).frames@
                    &&& final(self).globals@ == old(self).globals@
                    &&& final(self).last == old(self).last
                    &&& heap_moved(*old(self), *final(self))
                    &&& exists|v: Value|
                        #![trigger set_at(old(self).regs@, at, v)]
                        {
                            &&& new_text(old(self).heap.record(), final(self).made@, v, text@)
                            &&& final(self).regs@ == set_at(old(self).regs@, at, v)
                        }
                },
                Err(e) => e == Stop::HeapFull && (out_of_room(final(self).heap) || too_long(text@)),
            },
    {
        let ghost before = *self;
        if let Some(Wait::Text { dst }) = self.waiting {
            let v = text_value(&mut self.heap, text)?;
            proof {
                assert(self.heap.record().ext =~= self.held().add(handle(v)));
            }
            self.fill(dst, v);
            proof {
                let at = before.top().base + dst.0;
                assert(self.regs@ == set_at(before.regs@, at, v));
            }
        }
        self.waiting = None;
        Ok(())
    }

    /// Keep what a part of the program returned until the next one has returned
    /// too. The result kept before it is given up.
    pub fn keep(&mut self, v: Value)
        requires
            done(*old(self), v),
        ensures
            final(self).wf(),
            final(self).code == old(self).code,
            final(self).waiting == old(self).waiting,
            final(self).frames@ == old(self).frames@,
            final(self).regs@ == old(self).regs@,
            final(self).globals@ == old(self).globals@,
            final(self).last == v,
            thinned(old(self).heap.record(), final(self).heap.record()),
    {
        let before = self.last;
        proof {
            assert(handle(before).subset_of(self.heap.record().ext));
        }
        give_up(&mut self.heap, before);
        self.last = v;
        proof {
            assert(self.heap.record().ext =~= self.held());
        }
    }

    /// The last result, whose reference passes to the caller.
    pub fn take_last(&mut self) -> (r: Value)
        requires
            old(self).wf(),
        ensures
            r == old(self).last,
            done(*final(self), r),
            final(self).last == nil_value(),
            final(self).code == old(self).code,
            final(self).heap == old(self).heap,
            final(self).waiting == old(self).waiting,
            final(self).frames@ == old(self).frames@,
            final(self).regs@ == old(self).regs@,
            final(self).globals@ == old(self).globals@,
    {
        let r = self.last;
        self.last = Value { bits: 0xFFFA_0000_0000_0000 };
        proof {
            lemma_no_handles();
            lemma_handle_one(nil_value());
            assert(self.heap.record().ext =~= self.held().add(handle(r)));
        }
        r
    }

    /// Give up a value that a run returned.
    pub fn release(&mut self, v: Value)
        requires
            done(*old(self), v),
        ensures
            final(self).wf(),
            final(self).code == old(self).code,
            final(self).waiting == old(self).waiting,
            final(self).frames@ == old(self).frames@,
            final(self).regs@ == old(self).regs@,
            final(self).globals@ == old(self).globals@,
            final(self).last == old(self).last,
            thinned(old(self).heap.record(), final(self).heap.record()),
    {
        proof {
            assert(handle(v).subset_of(self.heap.record().ext));
        }
        give_up(&mut self.heap, v);
        proof {
            assert(self.heap.record().ext =~= self.held());
        }
    }

    /// Give up every global.
    pub fn release_globals(&mut self)
        requires
            old(self).wf(),
        ensures
            final(self).wf(),
            final(self).code == old(self).code,
            final(self).waiting == old(self).waiting,
            final(self).frames@ == old(self).frames@,
            final(self).regs@ == old(self).regs@,
            final(self).globals@.len() == 0,
            final(self).last == old(self).last,
            thinned(old(self).heap.record(), final(self).heap.record()),
    {
        let ghost rest = handles(envs(self.frames@)).add(handles(self.regs@)).add(
            handle(self.last),
        );
        proof {
            assert(self.heap.record().ext =~= rest.add(handles(self.globals@)));
        }
        leave(&mut self.heap, &mut self.globals, 0, Ghost(rest));
        proof {
            assert(self.heap.record().ext =~= self.held());
        }
    }
}

/// Whatever a program ran, once it returned and its result and globals are
/// given up no cell is left: reference counting lost none.
pub proof fn law_a_finished_run_leaves_no_cell(m: Machine)
    requires
        m.wf(),
        m.frames@.len() == 0,
        m.globals@.len() == 0,
        m.last == nil_value(),
    ensures
        forall|c: Cell| !#[trigger] m.heap.record().has(c),
        m.heap.record().order.len() == 0,
{
    let r = m.heap.record();
    lemma_no_handles();
    assert(envs(m.frames@) =~= Seq::empty());
    assert(m.regs@ =~= Seq::empty());
    assert(m.globals@ =~= Seq::empty());
    lemma_handle_one(nil_value());
    assert(r.ext =~= Multiset::empty());
    m.heap.lemma_record_ok();
    law_nothing_leaks(r);
}

} // verus!
