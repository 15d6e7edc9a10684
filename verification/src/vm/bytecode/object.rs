//! Values and the objects they point at.

use crate::type_def::TypeId;
use crate::vm::bytecode::header::HeapTag;
use crate::vm::bytecode::word::{
    bool_word, finite, float_word, HDR_NIL, int_of, int_word, nil_word, object_word, PAYLOAD,
    pid_word, PTR_PAYLOAD, SMALL_INT_MAX, SMALL_INT_MIN, socket_of, socket_word, SocketValue,
    subject_word, VALUE_IMMORTAL, word_is_bool, word_is_float, word_is_int, word_is_object,
    word_is_pid, word_is_socket, word_is_subject, word_kind, WordKind,
};
use std::rc::Rc;
use vstd::prelude::*;

verus! {

/// The universal value: one word, and the object it points at when it is an
/// object word. Copies share the object.
pub struct Value {
    pub bits: u64,
    pub obj: Option<Rc<Object>>,
}

/// An object: its address, whether it is frozen, and what it holds.
pub struct Object {
    pub addr: u64,
    pub immortal: bool,
    pub body: Body,
}

/// A `bit_len`-bit window at `bit_offset` in a shared buffer, most significant
/// bit first. The bits around the window belong to other views of the buffer.
pub struct BinaryBox {
    pub backing: Rc<Vec<u8>>,
    pub bit_offset: u64,
    pub bit_len: u64,
}

/// A constructor applied to its payload. The names and labels are strings and
/// a tuple of strings. A `hash` of zero means "not computed yet".
pub struct EnumBox {
    pub type_id: TypeId,
    pub variant_idx: u16,
    pub hash: u64,
    pub enum_name: Value,
    pub variant_name: Value,
    pub labels: Value,
    pub payload: Vec<Value>,
}

pub struct ClosureBox {
    pub func_idx: i32,
    pub captures: Vec<Value>,
}

/// A persistent vector's root: two buffer leaves around a tree, each a node or
/// nil, and the tree's height in bits of index.
pub struct SeqBox {
    pub len: usize,
    pub shift: usize,
    pub head: Value,
    pub tree: Value,
    pub tail: Value,
}

/// A vector branch: running totals of its children's elements, and the
/// children, all one level down.
pub struct BranchBox {
    pub shift: usize,
    pub sizes: Vec<usize>,
    pub children: Vec<Value>,
}

/// How a map sources its entries: live from the host environment, or from a
/// trie of its own, whose root is nil when it is empty.
pub enum MapBox {
    Env,
    Hamt { size: usize, root: Value },
}

pub enum Body {
    BigInt(i64),
    Range(i64, i64),
    Str(String),
    Binary(BinaryBox),
    Tuple(Vec<Value>),
    Enum(EnumBox),
    Closure(ClosureBox),
    SeqRoot(SeqBox),
    SeqLeaf(Vec<Value>),
    SeqBranch(BranchBox),
    MapRoot(MapBox),
    /// One child per set bit, in ascending slot order.
    HamtBranch(u32, Vec<Value>),
    HamtEntry(Value, Value),
    /// A hash, and the keys that have it, each followed by its value.
    HamtCollision(u64, Vec<Value>),
    /// The owning handle of a mailbox.
    Subject(u64),
}

impl Clone for Value {
    fn clone(&self) -> (r: Value)
        ensures
            r == *self,
    {
        Value {
            bits: self.bits,
            obj: match &self.obj {
                Some(o) => Some(o.clone()),
                None => None,
            },
        }
    }
}

/// The first address of frozen areas. Process heaps have those below.
pub const FROZEN_BASE: u64 = 0x0000_8000_0000_0000;

/// One past the last address that a word can hold.
pub const ADDRESS_END: u64 = 0x0001_0000_0000_0000;

/// Where constructors put objects: a process's heap or a frozen area.
pub trait Arena {
    /// Whether objects made here are immortal.
    spec fn immortal(&self) -> bool;

    /// The addresses given out so far.
    spec fn given(&self) -> Set<u64>;

    /// There are addresses left.
    spec fn has_room(&self) -> bool;

    /// An address for an object of `words` words: a multiple of eight in 48
    /// bits, and none that was given before, as long as there are any left.
    /// Frozen areas and process heaps share none.
    fn alloc_words(&mut self, words: usize) -> (r: u64)
        ensures
            r & !PTR_PAYLOAD == 0,
            r % 8 == 0,
            r >= FROZEN_BASE <==> old(self).immortal(),
            old(self).has_room() ==> !old(self).given().contains(r),
            final(self).given() == old(self).given().insert(r),
            final(self).immortal() == old(self).immortal(),
    ;

    fn marks_immortal(&self) -> (r: bool)
        ensures
            r == self.immortal(),
    ;
}

/// A process's heap: its objects live as long as something refers to them.
pub struct ProcHeap {
    next: u64,
    given: Ghost<Set<u64>>,
}

/// A frozen area: its objects are shared and live for good.
pub struct FrozenBuilder {
    next: u64,
    given: Ghost<Set<u64>>,
}

proof fn lemma_aligned(at: u64)
    by (bit_vector)
    requires
        at % 8 == 0,
        at < 0x0001_0000_0000_0000,
    ensures
        at & !0x0000_FFFF_FFFF_FFFE == 0,
{
}

/// The address after an object of `words` words, or `end` where that is past
/// it.
fn bump(next: u64, words: usize, end: u64) -> (r: u64)
    requires
        next % 8 == 0,
        end % 8 == 0,
        next < end,
    ensures
        next < r <= end,
        r % 8 == 0,
        1 <= words && next + 8 * words <= end ==> r == next + 8 * words,
{
    let left: u64 = (end - next) / 8;
    if words == 0 {
        next + 8
    } else if words as u64 <= left {
        next + 8 * words as u64
    } else {
        end
    }
}

impl ProcHeap {
    #[verifier::type_invariant]
    spec fn inv(self) -> bool {
        &&& 8 <= self.next <= FROZEN_BASE
        &&& self.next % 8 == 0
        &&& forall|a: u64| #[trigger] self.given@.contains(a) ==> a < self.next
    }

    pub fn new() -> (r: ProcHeap)
        ensures
            r.has_room(),
            r.given() == Set::<u64>::empty(),
    {
        ProcHeap { next: 8, given: Ghost(Set::empty()) }
    }
}

impl FrozenBuilder {
    #[verifier::type_invariant]
    spec fn inv(self) -> bool {
        &&& FROZEN_BASE <= self.next <= ADDRESS_END
        &&& self.next % 8 == 0
        &&& forall|a: u64| #[trigger] self.given@.contains(a) ==> a < self.next
    }

    pub fn new() -> (r: FrozenBuilder)
        ensures
            r.has_room(),
            r.given() == Set::<u64>::empty(),
    {
        FrozenBuilder { next: FROZEN_BASE, given: Ghost(Set::empty()) }
    }
}

impl Arena for ProcHeap {
    open spec fn immortal(&self) -> bool {
        false
    }

    closed spec fn given(&self) -> Set<u64> {
        self.given@
    }

    closed spec fn has_room(&self) -> bool {
        self.next < FROZEN_BASE
    }

    fn alloc_words(&mut self, words: usize) -> (r: u64) {
        proof {
            use_type_invariant(&*self);
        }
        let at: u64 = if self.next < FROZEN_BASE {
            let at: u64 = self.next;
            self.next = bump(at, words, FROZEN_BASE);
            at
        } else {
            FROZEN_BASE - 8
        };
        self.given = Ghost(self.given@.insert(at));
        proof {
            lemma_aligned(at);
        }
        at
    }

    fn marks_immortal(&self) -> (r: bool) {
        false
    }
}

impl Arena for FrozenBuilder {
    open spec fn immortal(&self) -> bool {
        true
    }

    closed spec fn given(&self) -> Set<u64> {
        self.given@
    }

    closed spec fn has_room(&self) -> bool {
        self.next < ADDRESS_END
    }

    fn alloc_words(&mut self, words: usize) -> (r: u64) {
        proof {
            use_type_invariant(&*self);
        }
        let at: u64 = if self.next < ADDRESS_END {
            let at: u64 = self.next;
            self.next = bump(at, words, ADDRESS_END);
            at
        } else {
            ADDRESS_END - 8
        };
        self.given = Ghost(self.given@.insert(at));
        proof {
            lemma_aligned(at);
        }
        at
    }

    fn marks_immortal(&self) -> (r: bool) {
        true
    }
}

impl Body {
    pub open spec fn spec_tag(self) -> HeapTag {
        match self {
            Body::BigInt(_) => HeapTag::BigInt,
            Body::Range(_, _) => HeapTag::Range,
            Body::Str(_) => HeapTag::Str,
            Body::Binary(_) => HeapTag::Binary,
            Body::Tuple(_) => HeapTag::Tuple,
            Body::Enum(_) => HeapTag::Enum,
            Body::Closure(_) => HeapTag::Closure,
            Body::SeqRoot(_) => HeapTag::SeqRoot,
            Body::SeqLeaf(_) => HeapTag::SeqLeaf,
            Body::SeqBranch(_) => HeapTag::SeqBranch,
            Body::MapRoot(_) => HeapTag::MapRoot,
            Body::HamtBranch(_, _) => HeapTag::HamtBranch,
            Body::HamtEntry(_, _) => HeapTag::HamtEntry,
            Body::HamtCollision(_, _) => HeapTag::HamtCollision,
            Body::Subject(_) => HeapTag::Subject,
        }
    }

    pub fn tag(&self) -> (r: HeapTag)
        ensures
            r == self.spec_tag(),
    {
        match self {
            Body::BigInt(_) => HeapTag::BigInt,
            Body::Range(_, _) => HeapTag::Range,
            Body::Str(_) => HeapTag::Str,
            Body::Binary(_) => HeapTag::Binary,
            Body::Tuple(_) => HeapTag::Tuple,
            Body::Enum(_) => HeapTag::Enum,
            Body::Closure(_) => HeapTag::Closure,
            Body::SeqRoot(_) => HeapTag::SeqRoot,
            Body::SeqLeaf(_) => HeapTag::SeqLeaf,
            Body::SeqBranch(_) => HeapTag::SeqBranch,
            Body::MapRoot(_) => HeapTag::MapRoot,
            Body::HamtBranch(_, _) => HeapTag::HamtBranch,
            Body::HamtEntry(_, _) => HeapTag::HamtEntry,
            Body::HamtCollision(_, _) => HeapTag::HamtCollision,
            Body::Subject(_) => HeapTag::Subject,
        }
    }

    /// Every value slot of an object, in layout order.
    pub open spec fn kids(self) -> Seq<Value> {
        match self {
            Body::BigInt(_) | Body::Range(_, _) | Body::Str(_) | Body::Binary(_)
            | Body::Subject(_) => Seq::empty(),
            Body::Tuple(vs) => vs@,
            Body::Enum(e) => seq![e.enum_name, e.variant_name, e.labels] + e.payload@,
            Body::Closure(c) => c.captures@,
            Body::SeqRoot(s) => seq![s.head, s.tree, s.tail],
            Body::SeqLeaf(vs) => vs@,
            Body::SeqBranch(b) => b.children@,
            Body::MapRoot(MapBox::Env) => Seq::empty(),
            Body::MapRoot(MapBox::Hamt { size, root }) => seq![root],
            Body::HamtBranch(_, vs) => vs@,
            Body::HamtEntry(k, v) => seq![k, v],
            Body::HamtCollision(_, vs) => vs@,
        }
    }
}

impl Value {
    /// The word's fields agree with what the value is.
    pub open spec fn sound(self) -> bool {
        match word_kind(self.bits) {
            WordKind::Object => self.obj is Some && {
                let o = *self.obj->Some_0;
                &&& self.bits & PTR_PAYLOAD == o.addr
                &&& o.addr % 8 == 0
                &&& o.immortal <==> self.bits & VALUE_IMMORTAL != 0
            },
            WordKind::Float => self.obj is None && finite(self.bits),
            WordKind::Nil => self.obj is None && self.bits == HDR_NIL,
            _ => self.obj is None,
        }
    }

    /// What the value's object holds.
    pub open spec fn body(self) -> Option<Body> {
        match self.obj {
            Some(o) => Some(o.body),
            None => None,
        }
    }

    /// A value that is no object, or a frozen one.
    pub open spec fn frozen(self) -> bool {
        word_kind(self.bits) is Object ==> self.bits & VALUE_IMMORTAL != 0
    }
}

/// A value may be put in an object of an arena: frozen objects hold only
/// frozen values.
pub open spec fn fits(immortal: bool, v: Value) -> bool {
    immortal ==> v.frozen()
}

pub open spec fn all_fit(immortal: bool, vs: Seq<Value>) -> bool {
    forall|i: int| 0 <= i < vs.len() ==> fits(immortal, #[trigger] vs[i])
}

/// The value that a new object is.
pub open spec fn is_object(v: Value, body: Body, immortal: bool) -> bool {
    &&& v.sound()
    &&& word_kind(v.bits) is Object
    &&& v.body() == Some(body)
    &&& v.obj->Some_0.immortal == immortal
}

/// Make an object. An immortal object's children must be frozen.
pub(crate) fn alloc_obj<A: Arena>(a: &mut A, body: Body, words: usize) -> (r: Value)
    requires
        all_fit(old(a).immortal(), body.kids()),
    ensures
        is_object(r, body, old(a).immortal()),
        r.frozen() || !old(a).immortal(),
        final(a).immortal() == old(a).immortal(),
        final(a).given() == old(a).given().insert(r.bits & PTR_PAYLOAD),
        old(a).has_room() ==> !old(a).given().contains(r.bits & PTR_PAYLOAD),
{
    let immortal = a.marks_immortal();
    let addr = a.alloc_words(words);
    Value {
        bits: object_word(addr, immortal),
        obj: Some(Rc::new(Object { addr, immortal, body })),
    }
}

impl Value {
    /// An integer known to be in the 48-bit immediate range.
    pub fn small_int(i: i64) -> (r: Value)
        requires
            SMALL_INT_MIN <= i <= SMALL_INT_MAX,
        ensures
            r.sound(),
            word_kind(r.bits) is Int,
            int_of(r.bits) == i,
    {
        Value { bits: int_word(i), obj: None }
    }

    /// A float, given as its bits. There are no infinities and no NaNs: either
    /// becomes zero.
    pub fn float(bits: u64) -> (r: Value)
        ensures
            r.sound(),
            word_kind(r.bits) is Float,
            r.bits == if finite(bits) {
                bits
            } else {
                0
            },
    {
        Value { bits: float_word(bits), obj: None }
    }

    pub fn bool(b: bool) -> (r: Value)
        ensures
            r.sound(),
            word_kind(r.bits) is Bool,
            b <==> r.bits & 1 == 1,
    {
        Value { bits: bool_word(b), obj: None }
    }

    pub fn nil() -> (r: Value)
        ensures
            r.sound(),
            word_kind(r.bits) is Nil,
            r.obj is None,
    {
        Value { bits: nil_word(), obj: None }
    }

    pub fn socket(s: SocketValue) -> (r: Value)
        ensures
            r.sound(),
            word_kind(r.bits) is Socket,
            socket_of(r.bits) == s,
    {
        Value { bits: socket_word(s), obj: None }
    }

    /// A mailbox handle by its registry id: the non-owning form.
    pub fn subject(id: u64) -> (r: Value)
        requires
            id <= PAYLOAD,
        ensures
            r.sound(),
            word_kind(r.bits) is Subject,
            r.bits & PAYLOAD == id,
    {
        Value { bits: subject_word(id), obj: None }
    }

    /// A process identity.
    pub fn pid(id: u64) -> (r: Value)
        requires
            id <= PAYLOAD,
        ensures
            r.sound(),
            word_kind(r.bits) is Pid,
            r.bits & PAYLOAD == id,
    {
        Value { bits: pid_word(id), obj: None }
    }

    /// [`pid`](Self::pid) for an id from outside: `None` when 48 bits cannot
    /// hold it, as cutting it would name some other process.
    pub fn try_pid(id: u64) -> (r: Option<Value>)
        ensures
            r is Some <==> id <= PAYLOAD,
            r matches Some(v) ==> v.sound() && word_kind(v.bits) is Pid && v.bits & PAYLOAD == id,
    {
        if id <= PAYLOAD {
            Some(Value::pid(id))
        } else {
            None
        }
    }

    /// [`subject`](Self::subject) for an id from outside.
    pub fn try_subject(id: u64) -> (r: Option<Value>)
        ensures
            r is Some <==> id <= PAYLOAD,
            r matches Some(v) ==> v.sound() && word_kind(v.bits) is Subject && v.bits & PAYLOAD
                == id,
    {
        if id <= PAYLOAD {
            Some(Value::subject(id))
        } else {
            None
        }
    }

    /// The raw word.
    pub fn to_bits(&self) -> (r: u64)
        ensures
            r == self.bits,
    {
        self.bits
    }

    /// The value a word stands for, or `None` for an object's word, which says
    /// only where the object is, and for a word that no value has.
    pub fn from_bits(bits: u64) -> (r: Option<Value>)
        ensures
            r is Some <==> (Value { bits, obj: None }).sound(),
            r matches Some(v) ==> v == (Value { bits, obj: None }),
    {
        if word_is_object(bits) {
            return None;
        }
        if word_is_float(bits) {
            if bits & crate::vm::bytecode::word::EXPONENT
                == crate::vm::bytecode::word::EXPONENT {
                return None;
            }
        } else if !(word_is_int(bits) || word_is_bool(bits) || word_is_socket(bits)
            || word_is_subject(bits) || word_is_pid(bits)) && bits != HDR_NIL {
            return None;
        }
        Some(Value { bits, obj: None })
    }

    /// The object's address, a multiple of eight.
    pub fn object_addr(&self) -> (r: Option<u64>)
        ensures
            r == if word_kind(self.bits) is Object {
                Some(self.bits & PTR_PAYLOAD)
            } else {
                None
            },
            self.sound() ==> (r matches Some(a) ==> a % 8 == 0),
    {
        if word_is_object(self.bits) {
            Some(self.bits & PTR_PAYLOAD)
        } else {
            None
        }
    }

    /// The address of an object value's object.
    pub fn heap_obj(&self) -> (r: u64)
        requires
            word_kind(self.bits) is Object,
        ensures
            r == self.bits & PTR_PAYLOAD,
    {
        self.bits & PTR_PAYLOAD
    }

    /// The object tag of an object value.
    pub fn heap_tag(&self) -> (r: Option<HeapTag>)
        ensures
            r == match self.body() {
                Some(b) => Some(b.spec_tag()),
                None => None,
            },
    {
        match &self.obj {
            Some(o) => Some(o.body.tag()),
            None => None,
        }
    }

    pub fn is_immortal(&self) -> (r: bool)
        ensures
            r == (word_kind(self.bits) is Object && self.bits & VALUE_IMMORTAL != 0),
    {
        word_is_object(self.bits) && (self.bits & VALUE_IMMORTAL != 0)
    }

    pub fn is_float(&self) -> (r: bool)
        ensures
            r == word_kind(self.bits) is Float,
    {
        word_is_float(self.bits)
    }

    pub fn is_nil(&self) -> (r: bool)
        ensures
            r == (self.bits == HDR_NIL),
    {
        self.bits == HDR_NIL
    }

    pub fn is_heap(&self) -> (r: bool)
        ensures
            r == word_kind(self.bits) is Object,
    {
        word_is_object(self.bits)
    }
}

} // verus!
