//! What an instruction reads: the registers of its frame, the closure the frame
//! runs as, and the globals; and what stops a run.

use crate::vm::array::out_of_room;
use crate::vm::cells::{all_ok, handles};
use crate::vm::code::Abi;
use crate::vm::heap::Heap;
use crate::vm::instr::{Broken, Reg};
use crate::vm::nodes::{all_live, handle, live, own, owning};
use crate::vm::record::{part_of, Record};
use crate::vm::sound::sound;
use crate::vm::value::{FuncIdx, Value};
use vstd::prelude::*;

verus! {

/// Why a run stopped.
#[derive(Clone, Copy, PartialEq, Eq, Structural, Debug)]
pub enum Fault {
    /// A function ran past its last instruction.
    RanPast,
    /// A capture that the closure a function runs as does not have.
    NoCapture(u32),
    /// A field that a value does not have.
    NoField(u16),
    /// An element that a tuple does not have.
    NoElement(u16),
    /// An element that an array does not have.
    NoItem(u16),
    /// A promise of the compiler's that the program broke.
    Broken(Broken),
    /// A built-in called with so many arguments.
    BuiltinArgs(usize),
    /// The length of what is no string.
    LengthOf(Value),
    NotUtf8,
    NotAnArray(Value),
    /// A range whose end is not an Int.
    RangeEnd(Value),
    /// An array position that is not an Int.
    Position(Value),
    /// So many of an array's first elements dropped.
    DropCount(Value),
    /// `!` on what is no Bool.
    NotABool(Value),
    NotAFunction(Value),
    /// A function called with other than its number of arguments.
    Arguments { given: usize, wanted: usize },
    /// A function that the program does not have.
    NoFunction(FuncIdx),
    /// A function that uses what the machine does not run yet.
    NotReady(FuncIdx),
    /// A toplevel that uses what the machine does not run yet.
    ToplevelNotReady(usize),
    /// Joining what is no string.
    Joining(Value),
    /// A branch on what is no Bool.
    BranchOn(Value),
    /// An Int operation on what is no Int.
    IntOf(Value),
    /// A range with an end past 64 bits.
    RangePast64,
    /// A built-in that the machine does not run yet.
    Builtin,
}

#[derive(Clone, Copy, PartialEq, Eq, Structural, Debug)]
pub enum Stop {
    /// The program broke a promise that the compiler makes.
    BadProgram(Fault),
    /// The program uses what the machine does not run yet.
    NotBuiltYet(Fault),
    HeapFull,
}

/// What an instruction reads.
pub struct Scene<'m> {
    pub regs: &'m Vec<Value>,
    pub base: usize,
    pub env: Value,
    pub globals: &'m Vec<Value>,
    pub abi: Abi,
}

/// The value in a register of values, or `Nil` past the last.
pub open spec fn value_at(vs: Seq<Value>, i: int) -> Value {
    if 0 <= i < vs.len() {
        vs[i]
    } else {
        nil_value()
    }
}

pub open spec fn nil_value() -> Value {
    Value { bits: 0xFFFA_0000_0000_0000 }
}

pub(crate) fn read_at(vs: &Vec<Value>, i: usize) -> (r: Value)
    ensures
        r == value_at(vs@, i as int),
{
    if i < vs.len() {
        vs[i]
    } else {
        Value { bits: 0xFFFA_0000_0000_0000 }
    }
}

impl<'m> Scene<'m> {
    /// What a register holds.
    pub open spec fn at(self, r: Reg) -> Value {
        value_at(self.regs@, self.base + r.0)
    }

    pub open spec fn all_at(self, rs: Seq<Reg>) -> Seq<Value> {
        Seq::new(rs.len(), |i: int| self.at(rs[i]))
    }

    /// Every value is one of a live cell.
    pub open spec fn ok(self, r: Record) -> bool {
        &&& all_ok(self.regs@)
        &&& all_live(r, self.regs@)
        &&& all_ok(self.globals@)
        &&& all_live(r, self.globals@)
        &&& self.env.ok()
        &&& live(r, self.env)
    }

    pub proof fn lemma_at(self, r: Record, reg: Reg)
        requires
            self.ok(r),
        ensures
            self.at(reg).ok(),
            live(r, self.at(reg)),
    {
        let i = self.base + reg.0;
        if 0 <= i < self.regs@.len() {
            assert(self.regs@[i].ok() && live(r, self.regs@[i]));
        }
    }

    pub proof fn lemma_all_at(self, r: Record, rs: Seq<Reg>)
        requires
            self.ok(r),
        ensures
            all_ok(self.all_at(rs)),
            all_live(r, self.all_at(rs)),
    {
        let vs = self.all_at(rs);
        assert forall|i: int| 0 <= i < vs.len() implies (#[trigger] vs[i]).ok() && live(r, vs[i]) by {
            self.lemma_at(r, rs[i]);
        }
    }

    pub proof fn lemma_keep(self, a: Record, b: Record)
        requires
            self.ok(a),
            part_of(a, b),
        ensures
            self.ok(b),
    {
        assert forall|i: int| 0 <= i < self.regs@.len() implies live(b, #[trigger] self.regs@[i]) by {
            assert(live(a, self.regs@[i]));
        }
        assert forall|i: int| 0 <= i < self.globals@.len() implies live(
            b,
            #[trigger] self.globals@[i],
        ) by {
            assert(live(a, self.globals@[i]));
        }
    }

    pub(crate) fn get(&self, r: Reg) -> (v: Value)
        ensures
            v == self.at(r),
    {
        let n: usize = self.regs.len();
        proof {
            assert(n == self.regs@.len());
        }
        match self.base.checked_add(r.0 as usize) {
            Some(i) => read_at(self.regs, i),
            None => Value { bits: 0xFFFA_0000_0000_0000 },
        }
    }

    pub(crate) fn get_all(&self, rs: &Vec<Reg>) -> (vs: Vec<Value>)
        ensures
            vs@ == self.all_at(rs@),
    {
        let mut out: Vec<Value> = Vec::new();
        let mut i: usize = 0;
        while i < rs.len()
            invariant
                i <= rs@.len(),
                out@ == self.all_at(rs@).take(i as int),
            decreases rs@.len() - i,
        {
            out.push(self.get(rs[i]));
            proof {
                assert(self.all_at(rs@).take(i + 1) =~= self.all_at(rs@).take(i as int).push(
                    self.all_at(rs@)[i as int],
                ));
            }
            i += 1;
        }
        proof {
            assert(self.all_at(rs@).take(i as int) =~= self.all_at(rs@));
        }
        out
    }

    /// The values in registers, each with one more reference.
    pub(crate) fn args(&self, heap: &mut Heap, rs: &Vec<Reg>) -> (r: Result<Vec<Value>, Stop>)
        requires
            old(heap).wf(),
            self.ok(old(heap).record()),
        ensures
            r matches Err(Stop::HeapFull) ==> out_of_room(*final(heap)),
            final(heap).wf(),
            sound(old(heap).record()) ==> sound(final(heap).record()),
            part_of(old(heap).record(), final(heap).record()),
            match r {
                Ok(vs) => {
                    &&& vs@ == self.all_at(rs@)
                    &&& owning(old(heap).record(), final(heap).record(), handles(vs@))
                },
                Err(e) => e == Stop::HeapFull,
            },
    {
        let vs = self.get_all(rs);
        proof {
            self.lemma_all_at(heap.record(), rs@);
        }
        match crate::vm::nodes::own_all(heap, vs.as_slice()) {
            Ok(_) => Ok(vs),
            Err(_) => Err(Stop::HeapFull),
        }
    }
}

/// `v`, with one more reference.
pub(crate) fn share(heap: &mut Heap, v: Value) -> (r: Result<Value, Stop>)
    requires
        old(heap).wf(),
        live(old(heap).record(), v),
    ensures
        r matches Err(Stop::HeapFull) ==> out_of_room(*final(heap)),
        final(heap).wf(),
        sound(old(heap).record()) ==> sound(final(heap).record()),
        part_of(old(heap).record(), final(heap).record()),
        match r {
            Ok(w) => w == v && owning(old(heap).record(), final(heap).record(), handle(v)),
            Err(e) => e == Stop::HeapFull,
        },
{
    match own(heap, v) {
        Ok(_) => Ok(v),
        Err(_) => Err(Stop::HeapFull),
    }
}

/// A value that an instruction gave: its reference is the one that was added.
pub open spec fn gave(a: Record, b: Record, v: Value) -> bool {
    &&& v.ok()
    &&& live(b, v)
    &&& b.ext == a.ext.add(handle(v))
}

/// A value that is no cell takes no reference.
pub proof fn lemma_gave_word(a: Record, v: Value)
    requires
        v.ok(),
        v.spec_cell() is None,
    ensures
        gave(a, a, v),
{
    assert(a.ext =~= a.ext.add(handle(v)));
}

} // verus!
