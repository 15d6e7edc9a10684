//! A value word: 64 bits that are a float, a small Int, one of a few constants,
//! or the name of a heap cell.

use crate::type_def::TypeId;
use vstd::prelude::*;

verus! {

/// How many chunks and words a [`Cell`] can name: 20 bits of chunk and 28 of
/// word, so it fits the 48 bits a value word has for it.
pub const CHUNKS: u64 = 0x10_0000;

pub const CELL_WORDS: u64 = 0x1000_0000;

/// What 48 bits count to.
pub const PAYLOADS: u64 = 0x1_0000_0000_0000;

/// The largest and smallest small Int.
pub const SMALL_MAX: i64 = 0x7FFF_FFFF_FFFF;

pub const SMALL_MIN: i64 = -0x8000_0000_0000;

/// The top 16 bits of a word that is no float.
pub const TOP_INT: u64 = 0xFFF9;

pub const TOP_NIL: u64 = 0xFFFA;

pub const TOP_BOOL: u64 = 0xFFFB;

pub const TOP_FUNC: u64 = 0xFFFC;

pub const TOP_CELL: u64 = 0xFFFD;

pub const TOP_NULLARY: u64 = 0xFFFE;

/// A cell: which chunk, and which word the cell's header is at.
#[derive(Debug, Clone, Copy, PartialEq, Eq, Structural)]
pub struct Cell {
    pub chunk: u32,
    pub word: u32,
}

/// A function of the program.
#[derive(Debug, Clone, Copy, PartialEq, Eq, Structural)]
pub struct FuncIdx(pub u32);

/// A constructor: its type, and its place in the type's declaration.
#[derive(Debug, Clone, Copy, PartialEq, Eq, Structural)]
pub struct VariantRef {
    pub type_id: TypeId,
    pub variant_idx: u16,
}

impl Cell {
    /// A cell that 48 bits can name.
    pub open spec fn ok(self) -> bool {
        self.chunk < CHUNKS && self.word < CELL_WORDS
    }

    pub open spec fn spec_bits(self) -> u64 {
        (self.chunk * CELL_WORDS + self.word) as u64
    }

    /// The cell as 48 bits, for a value word's payload.
    pub fn bits(self) -> (r: u64)
        requires
            self.ok(),
        ensures
            r == self.spec_bits(),
            r < PAYLOADS,
    {
        self.chunk as u64 * CELL_WORDS + self.word as u64
    }

    pub open spec fn spec_from_bits(bits: u64) -> Cell {
        Cell { chunk: (bits / CELL_WORDS % CHUNKS) as u32, word: (bits % CELL_WORDS) as u32 }
    }

    /// The cell that 48 bits name.
    pub fn from_bits(bits: u64) -> (r: Cell)
        ensures
            r == Cell::spec_from_bits(bits),
            r.ok(),
    {
        Cell { chunk: (bits / CELL_WORDS % CHUNKS) as u32, word: (bits % CELL_WORDS) as u32 }
    }
}

/// A cell is read back from its bits.
pub proof fn law_cell_roundtrip(c: Cell)
    requires
        c.ok(),
    ensures
        c.spec_bits() < PAYLOADS,
        Cell::spec_from_bits(c.spec_bits()) == c,
{
    let b = c.chunk * CELL_WORDS + c.word;
    assert(b / (CELL_WORDS as int) == c.chunk) by (nonlinear_arith)
        requires
            b == c.chunk * CELL_WORDS + c.word,
            c.word < CELL_WORDS,
            CELL_WORDS == 0x1000_0000,
    ;
    assert(b % (CELL_WORDS as int) == c.word) by (nonlinear_arith)
        requires
            b == c.chunk * CELL_WORDS + c.word,
            c.word < CELL_WORDS,
            CELL_WORDS == 0x1000_0000,
    ;
}

/// The bits of a 32-bit signed number, as an unsigned one.
pub open spec fn unsigned(i: i32) -> int {
    if i < 0 {
        i + 0x1_0000_0000
    } else {
        i as int
    }
}

pub open spec fn signed(u: int) -> i32 {
    if u < 0x8000_0000 {
        u as i32
    } else {
        (u - 0x1_0000_0000) as i32
    }
}

pub(crate) fn to_unsigned(i: i32) -> (r: u64)
    ensures
        r == unsigned(i),
        r < 0x1_0000_0000,
        signed(r as int) == i,
{
    if i < 0 {
        (i as i64 + 0x1_0000_0000) as u64
    } else {
        i as u64
    }
}

pub(crate) fn to_signed(u: u64) -> (r: i32)
    requires
        u < 0x1_0000_0000,
    ensures
        r == signed(u as int),
        unsigned(r) == u,
{
    if u < 0x8000_0000 {
        u as i32
    } else {
        (u as i64 - 0x1_0000_0000) as i32
    }
}

/// A constructor as 48 bits: its type low, its place above it.
pub open spec fn variant_bits(v: VariantRef) -> u64 {
    (unsigned(v.type_id.0) + v.variant_idx * 0x1_0000_0000) as u64
}

pub open spec fn variant_of(bits: u64) -> VariantRef {
    VariantRef {
        type_id: TypeId(signed((bits % 0x1_0000_0000) as int)),
        variant_idx: (bits / 0x1_0000_0000 % 0x1_0000) as u16,
    }
}

/// 48 bits are those of the constructor they say.
pub proof fn lemma_variant_back(bits: u64)
    requires
        bits < PAYLOADS,
    ensures
        variant_bits(variant_of(bits)) == bits,
{
    let low = (bits % 0x1_0000_0000) as int;
    assert(unsigned(signed(low)) == low);
    assert(bits / 0x1_0000_0000 < 0x1_0000);
}

pub(crate) fn variant_to_bits(v: VariantRef) -> (r: u64)
    ensures
        r == variant_bits(v),
        r < PAYLOADS,
        variant_of(r) == v,
{
    let t = to_unsigned(v.type_id.0);
    let r: u64 = t + v.variant_idx as u64 * 0x1_0000_0000;
    r
}

pub(crate) fn variant_from_bits(bits: u64) -> (r: VariantRef)
    ensures
        r == variant_of(bits),
{
    let t: u64 = bits % 0x1_0000_0000;
    VariantRef {
        type_id: TypeId(to_signed(t)),
        variant_idx: (bits / 0x1_0000_0000 % 0x1_0000) as u16,
    }
}

/// What a value word is.
#[derive(Clone, Copy, PartialEq, Eq, Structural, Debug)]
pub enum View {
    /// A float's bits.
    Float(u64),
    Int(i64),
    Nil,
    Bool(bool),
    /// A function without captures.
    Func(FuncIdx),
    Cell(Cell),
    /// A constructor without fields.
    Nullary(VariantRef),
}

/// A value word.
#[derive(Clone, Copy, PartialEq, Eq, Structural, Debug)]
pub struct Value {
    pub bits: u64,
}

/// What a word is.
pub open spec fn view_of(bits: u64) -> View {
    let top = bits / PAYLOADS;
    let p = bits % PAYLOADS;
    if top == TOP_INT {
        View::Int(
            if p < 0x8000_0000_0000 {
                p as i64
            } else {
                (p - PAYLOADS) as i64
            },
        )
    } else if top == TOP_NIL {
        View::Nil
    } else if top == TOP_BOOL {
        View::Bool(p % 2 == 1)
    } else if top == TOP_FUNC {
        View::Func(FuncIdx((p % 0x1_0000_0000) as u32))
    } else if top == TOP_CELL {
        View::Cell(Cell::spec_from_bits(p))
    } else if top == TOP_NULLARY {
        View::Nullary(variant_of(p))
    } else {
        View::Float(bits)
    }
}

/// The one word of a value: no other word is what it is.
pub open spec fn canonical(bits: u64) -> bool {
    let top = bits / PAYLOADS;
    let p = bits % PAYLOADS;
    if top == TOP_NIL {
        p == 0
    } else if top == TOP_BOOL {
        p < 2
    } else if top == TOP_FUNC {
        p < 0x1_0000_0000
    } else if top == TOP_INT || top == TOP_CELL || top == TOP_NULLARY {
        true
    } else {
        finite_float(bits)
    }
}

/// A float that is neither infinite nor no number.
pub open spec fn finite_float(bits: u64) -> bool {
    bits / 0x10_0000_0000_0000 % 0x800 != 0x7FF
}

/// What a float computation's result becomes: no float is infinite or no
/// number, so one too large stops at the largest of its sign, and one with no
/// answer is zero.
pub open spec fn settled(bits: u64) -> u64 {
    if finite_float(bits) {
        bits
    } else if bits % 0x10_0000_0000_0000 != 0 {
        0
    } else if bits >= 0x8000_0000_0000_0000 {
        0xFFEF_FFFF_FFFF_FFFF
    } else {
        0x7FEF_FFFF_FFFF_FFFF
    }
}

/// Canonical words that are the same value are the same word.
pub proof fn law_one_word_each(a: u64, b: u64)
    requires
        canonical(a),
        canonical(b),
        view_of(a) == view_of(b),
    ensures
        a == b,
{
    let pa = a % PAYLOADS;
    let pb = b % PAYLOADS;
    assert(a == a / PAYLOADS * PAYLOADS + pa);
    assert(b == b / PAYLOADS * PAYLOADS + pb);
    match view_of(a) {
        View::Float(_) => {},
        View::Int(_) => {},
        View::Nil => {},
        View::Bool(_) => {},
        View::Func(_) => {},
        View::Cell(_) => {
            assert(pa / CELL_WORDS < CHUNKS);
            assert(pb / CELL_WORDS < CHUNKS);
        },
        View::Nullary(_) => {
            assert(pa / 0x1_0000_0000 < 0x1_0000);
            assert(pb / 0x1_0000_0000 < 0x1_0000);
        },
    }
}

impl Value {
    pub open spec fn spec_view(self) -> View {
        view_of(self.bits)
    }

    /// The word is one that a value has.
    pub open spec fn ok(self) -> bool {
        canonical(self.bits)
    }

    /// The cell a word names.
    pub open spec fn spec_cell(self) -> Option<Cell> {
        match view_of(self.bits) {
            View::Cell(c) => Some(c),
            _ => None,
        }
    }

    pub fn nil() -> (r: Value)
        ensures
            r.ok(),
            r.spec_view() is Nil,
    {
        Value { bits: 0xFFFA_0000_0000_0000 }
    }

    pub fn bool(b: bool) -> (r: Value)
        ensures
            r.ok(),
            r.spec_view() == View::Bool(b),
    {
        if b {
            Value { bits: 0xFFFB_0000_0000_0001 }
        } else {
            Value { bits: 0xFFFB_0000_0000_0000 }
        }
    }

    /// A small Int, or `None` for one that 48 bits cannot hold.
    pub fn small_int(n: i64) -> (r: Option<Value>)
        ensures
            r is Some <==> SMALL_MIN <= n <= SMALL_MAX,
            r matches Some(v) ==> v.ok() && v.spec_view() == View::Int(n),
    {
        if n < SMALL_MIN || n > SMALL_MAX {
            return None;
        }
        let p: u64 = if n < 0 {
            (n + 0x1_0000_0000_0000) as u64
        } else {
            n as u64
        };
        Some(Value { bits: 0xFFF9_0000_0000_0000 + p })
    }

    /// A float, from the bits of a computation's result.
    pub fn float(bits: u64) -> (r: Value)
        ensures
            r.ok(),
            r.spec_view() == View::Float(settled(bits)),
    {
        let e: u64 = bits / 0x10_0000_0000_0000 % 0x800;
        if e != 0x7FF {
            proof {
                assert(finite_float(bits));
            }
            return Value { bits };
        }
        if bits % 0x10_0000_0000_0000 != 0 {
            Value { bits: 0 }
        } else if bits >= 0x8000_0000_0000_0000 {
            Value { bits: 0xFFEF_FFFF_FFFF_FFFF }
        } else {
            Value { bits: 0x7FEF_FFFF_FFFF_FFFF }
        }
    }

    /// A function without captures.
    pub fn func(f: FuncIdx) -> (r: Value)
        ensures
            r.ok(),
            r.spec_view() == View::Func(f),
    {
        Value { bits: 0xFFFC_0000_0000_0000 + f.0 as u64 }
    }

    /// The value in a cell.
    pub fn cell(c: Cell) -> (r: Value)
        requires
            c.ok(),
        ensures
            r.ok(),
            r.spec_view() == View::Cell(c),
            r.spec_cell() == Some(c),
    {
        proof {
            law_cell_roundtrip(c);
        }
        Value { bits: 0xFFFD_0000_0000_0000 + c.bits() }
    }

    /// A constructor without fields.
    pub fn nullary(v: VariantRef) -> (r: Value)
        ensures
            r.ok(),
            r.spec_view() == View::Nullary(v),
    {
        Value { bits: 0xFFFE_0000_0000_0000 + variant_to_bits(v) }
    }

    pub fn from_bits(bits: u64) -> (r: Value)
        ensures
            r.bits == bits,
    {
        Value { bits }
    }

    pub fn bits(self) -> (r: u64)
        ensures
            r == self.bits,
    {
        self.bits
    }

    /// What the word is.
    pub fn view(self) -> (r: View)
        ensures
            r == self.spec_view(),
            r matches View::Cell(c) ==> c.ok() && self.spec_cell() == Some(c),
            r !is Cell ==> self.spec_cell() is None,
    {
        let top: u64 = self.bits / PAYLOADS;
        let p: u64 = self.bits % PAYLOADS;
        if top == TOP_INT {
            View::Int(
                if p < 0x8000_0000_0000 {
                    p as i64
                } else {
                    p as i64 - 0x1_0000_0000_0000
                },
            )
        } else if top == TOP_NIL {
            View::Nil
        } else if top == TOP_BOOL {
            View::Bool(p % 2 == 1)
        } else if top == TOP_FUNC {
            View::Func(FuncIdx((p % 0x1_0000_0000) as u32))
        } else if top == TOP_CELL {
            View::Cell(Cell::from_bits(p))
        } else if top == TOP_NULLARY {
            View::Nullary(variant_from_bits(p))
        } else {
            View::Float(self.bits)
        }
    }

    /// The cell the word names.
    pub fn as_cell(self) -> (r: Option<Cell>)
        ensures
            r == self.spec_cell(),
            r matches Some(c) ==> c.ok(),
    {
        match self.view() {
            View::Cell(c) => Some(c),
            _ => None,
        }
    }
}

} // verus!
