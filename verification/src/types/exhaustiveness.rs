//! Exhaustiveness and reachability of `match` arms.
//!
//! Arms become rows of a pattern matrix. A pattern is *useful* against a
//! matrix when some value matches it and no row: an arm that is not useful is
//! unreachable, and a wildcard that is useful is a case the arms miss
//! (Maranget, 2007).

use crate::names::{lemma_with, position, with, NameTable};
use crate::slots::{slot_labeled, slotted};
use crate::small::{word_seq, WordList};
use crate::syntax::{
    ArrayPatternElement, BinSegmentPat, BinSpec, Identifier, NumberLiteral, Pattern, PatternArg,
    PatternLiteral, SizeExpr, Span,
};
use crate::text::{
    decimal, decimal_int, join, joined, push_decimal, push_decimal_int, starts_with, texts,
};
use crate::type_def::{FieldDef, Type, VariantDef};
use std::rc::Rc;
use vstd::prelude::*;
use vstd::utf8::encode_utf8;

verus! {

/// The id of the empty-array constructor `[]`.
pub const EMPTY_LIST_ID: u32 = 0;

/// The id of the array constructor `::`, an element and the rest.
pub const CONS_ID: u32 = 1;

/// A set of constructor ids, one bit each.
pub struct CtorIdSet {
    words: WordList,
}

impl CtorIdSet {
    /// Whether the set holds `id`.
    pub closed spec fn has(self, id: u32) -> bool {
        id / 64 < word_seq(self.words).len() && word_seq(self.words)[(id / 64) as int] & (1u64 << (id
            % 64) as u64) != 0
    }

    fn new() -> (r: CtorIdSet)
        ensures
            forall|x: u32| !r.has(x),
    {
        CtorIdSet { words: WordList::new() }
    }

    fn insert(&mut self, id: u32)
        ensures
            forall|x: u32| #[trigger] final(self).has(x) == (old(self).has(x) || x == id),
    {
        let w: usize = (id / 64) as usize;
        let ghost start = word_seq(self.words);
        while w >= self.words.len()
            invariant
                w == id / 64,
                start == word_seq(old(self).words),
                word_seq(self.words).len() >= start.len(),
                forall|k: int|
                    0 <= k < word_seq(self.words).len() ==> #[trigger] word_seq(self.words)[k] == (
                    if k < start.len() {
                        start[k]
                    } else {
                        0u64
                    }),
            decreases w + 1 - word_seq(self.words).len(),
        {
            self.words.push(0);
        }
        let bit: u64 = (id % 64) as u64;
        let cur: u64 = self.words.get(w);
        self.words.set(w, cur | (1u64 << bit));
        proof {
            assert forall|x: u32| #[trigger] self.has(x) == (old(self).has(x) || x == id) by {
                let b: u64 = (x % 64) as u64;
                assert((cur | (1u64 << bit)) & (1u64 << b) != 0 <==> (cur & (1u64 << b) != 0 || b
                    == bit)) by (bit_vector)
                    requires
                        bit < 64,
                        b < 64,
                ;
                assert(0u64 & (1u64 << b) == 0) by (bit_vector);
                assert(x / 64 == id / 64 && b == bit ==> x == id);
            }
        }
    }

    fn contains(&self, id: u32) -> (r: bool)
        ensures
            r == self.has(id),
    {
        let w: usize = (id / 64) as usize;
        let bit: u64 = (id % 64) as u64;
        w < self.words.len() && self.words.get(w) & (1u64 << bit) != 0
    }
}

/// A lowered pattern. Sub-pattern lists are shared, so cloning a row copies
/// no pattern.
#[derive(Debug)]
pub enum Pat {
    Wildcard,
    Ctor { id: u32, args: Rc<Vec<Pat>> },
    Or { patterns: Rc<Vec<Pat>> },
}

/// A value whose copy shares what it holds.
pub trait Share: Sized {
    /// The same value.
    fn share(&self) -> (r: Self)
        ensures
            r == *self,
    ;
}

impl Share for Pat {
    fn share(&self) -> (r: Pat) {
        match self {
            Pat::Wildcard => Pat::Wildcard,
            Pat::Ctor { id, args } => Pat::Ctor { id: *id, args: args.clone() },
            Pat::Or { patterns } => Pat::Or { patterns: patterns.clone() },
        }
    }
}

/// One constructor of a type: its id and the type of each of its arguments.
#[derive(Debug)]
pub struct CtorInfo {
    pub id: u32,
    pub arity: usize,
    /// Field labels in declaration order, parallel to `types`. Empty for
    /// constructors without named fields (array `::`/`[]`, tuples).
    pub labels: Vec<String>,
    pub types: Vec<RcType>,
}

#[derive(Debug)]
pub struct TypeCtors {
    pub ctors: Vec<CtorInfo>,
    pub infinite: bool,
}

#[derive(Debug)]
pub struct ArrayType {
    pub element: RcType,
}

/// What the matrix needs of a type: its constructors.
#[derive(Debug)]
pub enum RcType {
    /// No finite constructor set: primitives, functions, type variables,
    /// opaque nominal types, and sub-patterns whose type did not resolve. A
    /// wildcard arm is always required for these.
    Infinite,
    Array(Rc<ArrayType>),
    /// Constructors in declaration order, at least one.
    Named(Rc<TypeCtors>),
    /// The one synthetic `#tupleN` constructor, over the element types.
    Tuple(Rc<TypeCtors>),
}

impl Share for RcType {
    fn share(&self) -> (r: RcType) {
        match self {
            RcType::Infinite => RcType::Infinite,
            RcType::Array(a) => RcType::Array(a.clone()),
            RcType::Named(c) => RcType::Named(c.clone()),
            RcType::Tuple(c) => RcType::Tuple(c.clone()),
        }
    }
}

/// A constructor as the contracts speak of it.
pub struct CtorSig {
    pub id: u32,
    pub labels: Seq<Seq<char>>,
    pub types: Seq<RcType>,
}

pub open spec fn sig_of(c: CtorInfo) -> CtorSig {
    CtorSig { id: c.id, labels: texts(c.labels@), types: c.types@ }
}

pub open spec fn sigs_of(cs: Seq<CtorInfo>) -> Seq<CtorSig> {
    cs.map_values(|c: CtorInfo| sig_of(c))
}

/// The constructors of a type, in order; none for an infinite one.
pub open spec fn ctors_of(t: RcType) -> Seq<CtorSig> {
    match t {
        RcType::Infinite => Seq::empty(),
        RcType::Array(a) => seq![
            CtorSig { id: EMPTY_LIST_ID, labels: Seq::empty(), types: Seq::empty() },
            CtorSig { id: CONS_ID, labels: Seq::empty(), types: seq![a.element, t] },
        ],
        RcType::Named(c) => sigs_of(c.ctors@),
        RcType::Tuple(c) => sigs_of(c.ctors@),
    }
}

/// The first constructor with this id.
pub open spec fn find_sig(cs: Seq<CtorSig>, id: u32) -> Option<CtorSig>
    decreases cs.len(),
{
    if cs.len() == 0 {
        None
    } else if cs[0].id == id {
        Some(cs[0])
    } else {
        find_sig(cs.drop_first(), id)
    }
}

/// A constructor whose argument types are unknown.
pub open spec fn opaque_sig(id: u32, arity: nat) -> CtorSig {
    CtorSig { id, labels: Seq::empty(), types: Seq::new(arity, |i: int| RcType::Infinite) }
}

/// The constructor a pattern with this id and this many arguments stands for
/// in a type: the type's own, or an opaque one.
pub open spec fn pattern_sig(t: RcType, id: u32, arity: nat) -> CtorSig {
    match find_sig(ctors_of(t), id) {
        Some(c) => c,
        None => opaque_sig(id, arity),
    }
}

/// A type's constructor tables are as the matrix needs them, all the way
/// down: a constructor's arity is its number of argument types, its labels
/// name all of them or none, and a nominal type and a tuple have a
/// constructor.
pub open spec fn type_wf(t: RcType) -> bool
    decreases t,
{
    match t {
        RcType::Infinite => true,
        RcType::Array(a) => type_wf(a.element),
        RcType::Named(c) => ctors_wf(*c),
        RcType::Tuple(c) => ctors_wf(*c) && c.ctors@.len() == 1,
    }
}

pub open spec fn ctors_wf(c: TypeCtors) -> bool
    decreases c,
{
    &&& c.ctors@.len() > 0
    &&& !c.infinite
    &&& forall|i: int|
        0 <= i < c.ctors@.len() ==> (#[trigger] c.ctors@[i]).arity == c.ctors@[i].types@.len() && (
        c.ctors@[i].labels@.len() == 0 || c.ctors@[i].labels@.len() == c.ctors@[i].types@.len())
    &&& forall|i: int, j: int|
        0 <= i < c.ctors@.len() && 0 <= j < c.ctors@[i].types@.len() ==> type_wf(
            #[trigger] c.ctors@[i].types@[j],
        )
}

pub open spec fn types_wf(ts: Seq<RcType>) -> bool {
    forall|i: int| 0 <= i < ts.len() ==> type_wf(#[trigger] ts[i])
}

impl CtorInfo {
    /// A constructor absent from the subject type's table (literals, binary
    /// shapes, ranges, type-error fallout): each argument's type is unknown.
    pub fn opaque(id: u32, arity: usize) -> (r: CtorInfo)
        ensures
            r.id == id,
            r.arity == arity,
            r.labels@.len() == 0,
            sig_of(r) == opaque_sig(id, arity as nat),
            types_wf(r.types@),
    {
        let mut types: Vec<RcType> = Vec::new();
        let mut i: usize = 0;
        while i < arity
            invariant
                i <= arity,
                types@ =~= Seq::new(i as nat, |k: int| RcType::Infinite),
            decreases arity - i,
        {
            types.push(RcType::Infinite);
            i += 1;
        }
        let r = CtorInfo { id, arity, labels: Vec::new(), types };
        proof {
            assert(texts(r.labels@) =~= Seq::empty());
        }
        r
    }

    fn share(&self) -> (r: CtorInfo)
        ensures
            r.id == self.id,
            r.arity == self.arity,
            r.types@ == self.types@,
            texts(r.labels@) == texts(self.labels@),
    {
        let mut types: Vec<RcType> = Vec::new();
        let mut i: usize = 0;
        while i < self.types.len()
            invariant
                i <= self.types.len(),
                types@ =~= self.types@.take(i as int),
            decreases self.types.len() - i,
        {
            types.push(self.types[i].share());
            i += 1;
        }
        let mut labels: Vec<String> = Vec::new();
        let mut k: usize = 0;
        while k < self.labels.len()
            invariant
                k <= self.labels.len(),
                labels@.len() == k,
                forall|j: int| 0 <= j < k ==> (#[trigger] labels@[j])@ == self.labels@[j]@,
            decreases self.labels.len() - k,
        {
            labels.push(self.labels[k].clone());
            k += 1;
        }
        proof {
            assert(texts(labels@) =~= texts(self.labels@));
        }
        CtorInfo { id: self.id, arity: self.arity, labels, types }
    }
}

pub proof fn lemma_find_sig(cs: Seq<CtorSig>, id: u32, i: int)
    requires
        0 <= i < cs.len(),
        cs[i].id == id,
        forall|j: int| 0 <= j < i ==> (#[trigger] cs[j]).id != id,
    ensures
        find_sig(cs, id) == Some(cs[i]),
    decreases cs.len(),
{
    if i > 0 {
        let rest = cs.drop_first();
        assert forall|j: int| 0 <= j < i - 1 implies (#[trigger] rest[j]).id != id by {
            assert(rest[j] == cs[j + 1]);
        }
        lemma_find_sig(rest, id, i - 1);
    }
}

proof fn lemma_find_sig_none(cs: Seq<CtorSig>, id: u32)
    requires
        forall|j: int| 0 <= j < cs.len() ==> (#[trigger] cs[j]).id != id,
    ensures
        find_sig(cs, id) is None,
    decreases cs.len(),
{
    if cs.len() > 0 {
        let rest = cs.drop_first();
        assert forall|j: int| 0 <= j < rest.len() implies (#[trigger] rest[j]).id != id by {
            assert(rest[j] == cs[j + 1]);
        }
        lemma_find_sig_none(rest, id);
    }
}

pub proof fn lemma_find_sig_is(cs: Seq<CtorSig>, id: u32)
    ensures
        match find_sig(cs, id) {
            Some(c) => exists|i: int|
                0 <= i < cs.len() && #[trigger] cs[i] == c && c.id == id,
            None => forall|i: int| 0 <= i < cs.len() ==> (#[trigger] cs[i]).id != id,
        },
    decreases cs.len(),
{
    if cs.len() > 0 {
        if cs[0].id == id {
            assert(cs[0] == find_sig(cs, id)->0);
        } else {
            let rest = cs.drop_first();
            lemma_find_sig_is(rest, id);
            match find_sig(rest, id) {
                Some(c) => {
                    let i = choose|i: int| 0 <= i < rest.len() && #[trigger] rest[i] == c;
                    assert(cs[i + 1] == c);
                },
                None => {
                    assert forall|i: int| 0 <= i < cs.len() implies (#[trigger] cs[i]).id != id by {
                        if i > 0 {
                            assert(rest[i - 1] == cs[i]);
                        }
                    }
                },
            }
        }
    }
}

impl TypeCtors {
    /// The constructor with this id.
    pub fn find(&self, id: u32) -> (r: Option<&CtorInfo>)
        ensures
            match r {
                Some(c) => find_sig(sigs_of(self.ctors@), id) == Some(sig_of(*c))
                    && self.ctors@.contains(*c),
                None => find_sig(sigs_of(self.ctors@), id) is None,
            },
    {
        let mut i: usize = 0;
        while i < self.ctors.len()
            invariant
                i <= self.ctors.len(),
                forall|j: int| 0 <= j < i ==> (#[trigger] self.ctors@[j]).id != id,
            decreases self.ctors.len() - i,
        {
            if self.ctors[i].id == id {
                proof {
                    let cs = sigs_of(self.ctors@);
                    assert forall|j: int| 0 <= j < i implies (#[trigger] cs[j]).id != id by {
                        assert(cs[j] == sig_of(self.ctors@[j]));
                    }
                    lemma_find_sig(cs, id, i as int);
                }
                return Some(&self.ctors[i]);
            }
            i += 1;
        }
        proof {
            let cs = sigs_of(self.ctors@);
            assert forall|j: int| 0 <= j < cs.len() implies (#[trigger] cs[j]).id != id by {
                assert(cs[j] == sig_of(self.ctors@[j]));
            }
            lemma_find_sig_none(cs, id);
        }
        None
    }
}

/// The constructor table of a type.
pub fn get_type_ctors(t: &RcType) -> (r: TypeCtors)
    requires
        type_wf(*t),
    ensures
        sigs_of(r.ctors@) == ctors_of(*t),
        r.infinite == (*t is Infinite),
        !r.infinite ==> ctors_wf(r),
        r.infinite ==> r.ctors@.len() == 0,
{
    match t {
        RcType::Infinite => TypeCtors { ctors: Vec::new(), infinite: true },
        RcType::Array(arr) => {
            let empty = CtorInfo {
                id: EMPTY_LIST_ID,
                arity: 0,
                labels: Vec::new(),
                types: Vec::new(),
            };
            let mut types: Vec<RcType> = Vec::new();
            types.push(arr.element.share());
            types.push(RcType::Array(arr.clone()));
            let cons = CtorInfo { id: CONS_ID, arity: 2, labels: Vec::new(), types };
            let mut ctors: Vec<CtorInfo> = Vec::new();
            ctors.push(empty);
            ctors.push(cons);
            proof {
                assert(types@ =~= seq![arr.element, *t]);
                assert(empty.types@ =~= Seq::<RcType>::empty());
                assert(texts(empty.labels@) =~= Seq::empty());
                assert(texts(cons.labels@) =~= Seq::empty());
                assert(sigs_of(ctors@) =~= ctors_of(*t));
            }
            TypeCtors { ctors, infinite: false }
        },
        RcType::Named(c) => share_ctors(c),
        RcType::Tuple(c) => share_ctors(c),
    }
}

fn share_ctors(c: &TypeCtors) -> (r: TypeCtors)
    requires
        ctors_wf(*c),
    ensures
        sigs_of(r.ctors@) == sigs_of(c.ctors@),
        ctors_wf(r),
{
    let mut ctors: Vec<CtorInfo> = Vec::new();
    let mut i: usize = 0;
    while i < c.ctors.len()
        invariant
            i <= c.ctors.len(),
            ctors@.len() == i,
            forall|k: int|
                0 <= k < i ==> (#[trigger] ctors@[k]).id == c.ctors@[k].id && ctors@[k].arity
                    == c.ctors@[k].arity && ctors@[k].types@ == c.ctors@[k].types@ && texts(
                    ctors@[k].labels@,
                ) == texts(c.ctors@[k].labels@),
        decreases c.ctors.len() - i,
    {
        ctors.push(c.ctors[i].share());
        i += 1;
    }
    proof {
        assert forall|k: int| 0 <= k < ctors@.len() implies sig_of(#[trigger] ctors@[k]) == sig_of(
            c.ctors@[k],
        ) by {}
        assert(sigs_of(ctors@) =~= sigs_of(c.ctors@));
        let r = TypeCtors { ctors, infinite: false };
        assert forall|k: int| 0 <= k < r.ctors@.len() implies (#[trigger] r.ctors@[k]).arity
            == r.ctors@[k].types@.len() && (r.ctors@[k].labels@.len() == 0
            || r.ctors@[k].labels@.len() == r.ctors@[k].types@.len()) by {
            assert(texts(r.ctors@[k].labels@).len() == texts(c.ctors@[k].labels@).len());
        }
        assert forall|i: int, j: int|
            0 <= i < r.ctors@.len() && 0 <= j < r.ctors@[i].types@.len() implies type_wf(
            #[trigger] r.ctors@[i].types@[j],
        ) by {
            assert(r.ctors@[i].types@[j] == c.ctors@[i].types@[j]);
        }
    }
    TypeCtors { ctors, infinite: false }
}

/// A persistent list: prepending shares the tail, so a matrix step copies only
/// the columns it adds.
pub struct Stack<T>(Option<Rc<StackNode<T>>>);

struct StackNode<T> {
    head: T,
    tail: Stack<T>,
}

impl<T> Stack<T> {
    /// The items, first on top.
    pub closed spec fn view(&self) -> Seq<T>
        decreases self,
    {
        match self.0 {
            None => Seq::empty(),
            Some(n) => seq![n.head] + n.tail@,
        }
    }

    pub fn empty() -> (r: Stack<T>)
        ensures
            r@ == Seq::<T>::empty(),
    {
        Stack(None)
    }

    pub fn one(head: T) -> (r: Stack<T>)
        ensures
            r@ == seq![head],
    {
        let r = Self::cons(head, Stack(None));
        proof {
            assert(r@ =~= seq![head]);
        }
        r
    }

    pub fn cons(head: T, tail: Stack<T>) -> (r: Stack<T>)
        ensures
            r@ == seq![head] + tail@,
    {
        Stack(Some(Rc::new(StackNode { head, tail })))
    }

    /// The top item and the rest.
    pub fn split(&self) -> (r: Option<(&T, &Stack<T>)>)
        ensures
            match r {
                Some((head, tail)) => self@.len() > 0 && *head == self@[0] && tail@
                    == self@.drop_first(),
                None => self@.len() == 0,
            },
    {
        match &self.0 {
            None => None,
            Some(n) => {
                proof {
                    assert(n.tail@ =~= self@.drop_first());
                }
                Some((&n.head, &n.tail))
            },
        }
    }

    fn same(&self) -> (r: Stack<T>)
        ensures
            r@ == self@,
    {
        match &self.0 {
            None => Stack(None),
            Some(n) => Stack(Some(n.clone())),
        }
    }
}

impl<T: Share> Stack<T> {
    /// `items ++ tail`.
    pub fn prepend(items: &Vec<T>, tail: &Stack<T>) -> (r: Stack<T>)
        ensures
            r@ == items@ + tail@,
    {
        let mut acc = tail.same();
        let mut i: usize = items.len();
        proof {
            assert(items@.skip(i as int) + tail@ =~= tail@);
        }
        while i > 0
            invariant
                i <= items.len(),
                acc@ == items@.skip(i as int) + tail@,
            decreases i,
        {
            i -= 1;
            acc = Self::cons(items[i].share(), acc);
            proof {
                assert(acc@ =~= items@.skip(i as int) + tail@);
            }
        }
        proof {
            assert(items@.skip(0) =~= items@);
        }
        acc
    }

    /// `[item; n] ++ tail`.
    pub fn prepend_n(item: T, n: usize, tail: &Stack<T>) -> (r: Stack<T>)
        ensures
            r@ == Seq::new(n as nat, |i: int| item) + tail@,
    {
        let mut acc = tail.same();
        let mut i: usize = 0;
        proof {
            assert(acc@ =~= Seq::new(0, |k: int| item) + tail@);
        }
        while i < n
            invariant
                i <= n,
                acc@ == Seq::new(i as nat, |k: int| item) + tail@,
            decreases n - i,
        {
            acc = Self::cons(item.share(), acc);
            i += 1;
            proof {
                assert(acc@ =~= Seq::new(i as nat, |k: int| item) + tail@);
            }
        }
        acc
    }
}

/// `n` wildcards.
pub open spec fn wilds(n: nat) -> Seq<Pat> {
    Seq::new(n, |i: int| Pat::Wildcard)
}

/// A pattern's alternatives, or-patterns taken apart: each is a wildcard or a
/// constructor.
pub open spec fn alternatives(p: Pat) -> Seq<Pat>
    decreases p,
{
    match p {
        Pat::Or { patterns } => alternatives_of(patterns@),
        _ => seq![p],
    }
}

pub open spec fn alternatives_of(ps: Seq<Pat>) -> Seq<Pat>
    decreases ps,
{
    if ps.len() == 0 {
        Seq::empty()
    } else {
        alternatives_of(ps.drop_last()) + alternatives(ps.last())
    }
}

/// Each alternative of the first column, with the rest of its row.
pub open spec fn heads(rows: Seq<Seq<Pat>>) -> Seq<(Pat, Seq<Pat>)>
    decreases rows.len(),
{
    if rows.len() == 0 {
        Seq::empty()
    } else {
        heads(rows.drop_last()) + row_heads(rows.last())
    }
}

pub open spec fn row_heads(row: Seq<Pat>) -> Seq<(Pat, Seq<Pat>)> {
    if row.len() == 0 {
        Seq::empty()
    } else {
        with_rest(alternatives(row[0]), row.drop_first())
    }
}

pub open spec fn with_rest(ps: Seq<Pat>, rest: Seq<Pat>) -> Seq<(Pat, Seq<Pat>)> {
    ps.map_values(|p: Pat| (p, rest))
}

/// The rows that can match constructor `id`, with its `arity` arguments as
/// the first columns.
pub open spec fn specialized(hs: Seq<(Pat, Seq<Pat>)>, id: u32, arity: nat) -> Seq<Seq<Pat>>
    decreases hs.len(),
{
    if hs.len() == 0 {
        Seq::empty()
    } else {
        let before = specialized(hs.drop_last(), id, arity);
        match hs.last().0 {
            Pat::Wildcard => before.push(wilds(arity) + hs.last().1),
            Pat::Ctor { id: i, args } => if i == id {
                before.push(args@ + hs.last().1)
            } else {
                before
            },
            Pat::Or { patterns } => before,
        }
    }
}

/// The rows that match whatever the first column holds, without it.
pub open spec fn defaulted(hs: Seq<(Pat, Seq<Pat>)>) -> Seq<Seq<Pat>>
    decreases hs.len(),
{
    if hs.len() == 0 {
        Seq::empty()
    } else {
        let before = defaulted(hs.drop_last());
        if hs.last().0 is Wildcard {
            before.push(hs.last().1)
        } else {
            before
        }
    }
}

/// Whether constructor `id` heads a row.
pub open spec fn is_seen(rows: Seq<Seq<Pat>>, id: u32) -> bool {
    exists|i: int|
        0 <= i < heads(rows).len() && ((#[trigger] heads(rows)[i]).0 matches Pat::Ctor {
            id: c,
            args,
        } && c == id)
}

/// Whether the rows' heads name every constructor of `t`.
pub open spec fn is_complete_in(rows: Seq<Seq<Pat>>, t: RcType) -> bool {
    !(t is Infinite) && forall|i: int|
        0 <= i < ctors_of(t).len() ==> is_seen(rows, (#[trigger] ctors_of(t)[i]).id)
}

// The measure the matrix recursion goes down by: the constructors of every
// row, counted once for each way of picking one alternative of each
// or-pattern in it.

/// A bound on the ways to pick one alternative of each or-pattern in `p`.
pub open spec fn picks(p: Pat) -> nat
    decreases p,
{
    match p {
        Pat::Wildcard => 1,
        Pat::Ctor { id, args } => row_picks(args@),
        Pat::Or { patterns } => 1 + sum_picks(patterns@),
    }
}

pub open spec fn row_picks(ps: Seq<Pat>) -> nat
    decreases ps,
{
    if ps.len() == 0 {
        1
    } else {
        picks(ps[0]) * row_picks(ps.subrange(1, ps.len() as int))
    }
}

pub open spec fn sum_picks(ps: Seq<Pat>) -> nat
    decreases ps,
{
    if ps.len() == 0 {
        0
    } else {
        sum_picks(ps.subrange(0, ps.len() - 1)) + picks(ps[ps.len() - 1])
    }
}

/// The constructors in `p`, counted once for each pick.
pub open spec fn weight(p: Pat) -> nat
    decreases p,
{
    match p {
        Pat::Wildcard => 0,
        Pat::Ctor { id, args } => row_picks(args@) + row_weight(args@),
        Pat::Or { patterns } => sum_weight(patterns@),
    }
}

pub open spec fn row_weight(ps: Seq<Pat>) -> nat
    decreases ps,
{
    if ps.len() == 0 {
        0
    } else {
        let rest = ps.subrange(1, ps.len() as int);
        weight(ps[0]) * row_picks(rest) + picks(ps[0]) * row_weight(rest)
    }
}

pub open spec fn sum_weight(ps: Seq<Pat>) -> nat
    decreases ps,
{
    if ps.len() == 0 {
        0
    } else {
        sum_weight(ps.subrange(0, ps.len() - 1)) + weight(ps[ps.len() - 1])
    }
}

pub open spec fn rows_weight(rows: Seq<Seq<Pat>>) -> nat
    decreases rows.len(),
{
    if rows.len() == 0 {
        0
    } else {
        rows_weight(rows.drop_last()) + row_weight(rows.last())
    }
}

pub open spec fn heads_weight(hs: Seq<(Pat, Seq<Pat>)>) -> nat
    decreases hs.len(),
{
    if hs.len() == 0 {
        0
    } else {
        heads_weight(hs.drop_last()) + row_weight(seq![hs.last().0] + hs.last().1)
    }
}

/// How deep or-patterns nest at the top of `p`.
pub open spec fn or_depth(p: Pat) -> nat
    decreases p,
{
    match p {
        Pat::Or { patterns } => 1 + or_depths(patterns@),
        _ => 0,
    }
}

pub open spec fn or_depths(ps: Seq<Pat>) -> nat
    decreases ps,
{
    if ps.len() == 0 {
        0
    } else {
        or_depths(ps.subrange(0, ps.len() - 1)) + or_depth(ps[ps.len() - 1])
    }
}

proof fn lemma_or_depth(ps: Seq<Pat>, i: int)
    requires
        0 <= i < ps.len(),
    ensures
        or_depth(ps[i]) <= or_depths(ps),
        weight(ps[i]) <= sum_weight(ps),
        picks(ps[i]) <= sum_picks(ps),
    decreases ps.len(),
{
    if i < ps.len() - 1 {
        lemma_or_depth(ps.subrange(0, ps.len() - 1), i);
    }
}

proof fn lemma_picks_pos(p: Pat)
    ensures
        picks(p) >= 1,
    decreases p,
{
    if let Pat::Ctor { id, args } = p {
        lemma_row_picks_pos(args@);
    }
}

proof fn lemma_row_picks_pos(ps: Seq<Pat>)
    ensures
        row_picks(ps) >= 1,
    decreases ps,
{
    if ps.len() > 0 {
        lemma_picks_pos(ps[0]);
        lemma_row_picks_pos(ps.subrange(1, ps.len() as int));
        let a = picks(ps[0]);
        let b = row_picks(ps.subrange(1, ps.len() as int));
        assert(a * b >= 1) by (nonlinear_arith)
            requires
                a >= 1,
                b >= 1,
        ;
    }
}

/// A row's first column against the rest.
proof fn lemma_row_cons(p: Pat, rest: Seq<Pat>)
    ensures
        row_picks(seq![p] + rest) == picks(p) * row_picks(rest),
        row_weight(seq![p] + rest) == weight(p) * row_picks(rest) + picks(p) * row_weight(rest),
{
    let row = seq![p] + rest;
    assert(row.subrange(1, row.len() as int) =~= rest);
}

proof fn lemma_row_append(a: Seq<Pat>, b: Seq<Pat>)
    ensures
        row_picks(a + b) == row_picks(a) * row_picks(b),
        row_weight(a + b) == row_weight(a) * row_picks(b) + row_picks(a) * row_weight(b),
    decreases a.len(),
{
    if a.len() == 0 {
        assert(a + b =~= b);
        let x = row_picks(b);
        let y = row_weight(b);
        assert(0 * x + 1 * y == y && 1 * x == x) by (nonlinear_arith);
    } else {
        let p = a[0];
        let rest = a.subrange(1, a.len() as int);
        assert(a =~= seq![p] + rest);
        assert(a + b =~= seq![p] + (rest + b));
        lemma_row_cons(p, rest);
        lemma_row_cons(p, rest + b);
        lemma_row_append(rest, b);
        let (n, w) = (picks(p), weight(p));
        let (rn, rw) = (row_picks(rest), row_weight(rest));
        let (bn, bw) = (row_picks(b), row_weight(b));
        assert(n * (rn * bn) == (n * rn) * bn) by (nonlinear_arith);
        assert(w * (rn * bn) + n * (rw * bn + rn * bw) == (w * rn + n * rw) * bn + (n * rn) * bw)
            by (nonlinear_arith);
    }
}

proof fn lemma_wilds_weight(n: nat)
    ensures
        row_picks(wilds(n)) == 1,
        row_weight(wilds(n)) == 0,
    decreases n,
{
    if n > 0 {
        assert(wilds(n) =~= seq![Pat::Wildcard] + wilds((n - 1) as nat));
        lemma_row_cons(Pat::Wildcard, wilds((n - 1) as nat));
        lemma_wilds_weight((n - 1) as nat);
    }
}

/// Taking a head constructor apart removes it.
proof fn lemma_ctor_weight(id: u32, args: Rc<Vec<Pat>>, rest: Seq<Pat>)
    ensures
        row_weight(seq![Pat::Ctor { id, args }] + rest) > row_weight(args@ + rest),
{
    let p = Pat::Ctor { id, args };
    lemma_row_cons(p, rest);
    lemma_row_append(args@, rest);
    lemma_row_picks_pos(args@);
    lemma_row_picks_pos(rest);
    let (an, aw) = (row_picks(args@), row_weight(args@));
    let (rn, rw) = (row_picks(rest), row_weight(rest));
    assert((an + aw) * rn + an * rw > aw * rn + an * rw) by (nonlinear_arith)
        requires
            an >= 1,
            rn >= 1,
    ;
}

proof fn lemma_wild_weight(rest: Seq<Pat>, n: nat)
    ensures
        row_weight(seq![Pat::Wildcard] + rest) == row_weight(rest),
        row_weight(wilds(n) + rest) == row_weight(rest),
{
    lemma_row_cons(Pat::Wildcard, rest);
    lemma_wilds_weight(n);
    lemma_row_append(wilds(n), rest);
    let (a, b) = (row_picks(rest), row_weight(rest));
    assert(0 * a + 1 * b == b) by (nonlinear_arith);
}

proof fn lemma_heads_weight_append(a: Seq<(Pat, Seq<Pat>)>, b: Seq<(Pat, Seq<Pat>)>)
    ensures
        heads_weight(a + b) == heads_weight(a) + heads_weight(b),
    decreases b.len(),
{
    if b.len() == 0 {
        assert(a + b =~= a);
    } else {
        assert((a + b).drop_last() =~= a + b.drop_last());
        assert((a + b).last() == b.last());
        lemma_heads_weight_append(a, b.drop_last());
    }
}

proof fn lemma_alternatives_weight(p: Pat, rest: Seq<Pat>)
    ensures
        heads_weight(with_rest(alternatives(p), rest)) <= row_weight(seq![p] + rest),
    decreases p,
{
    match p {
        Pat::Or { patterns } => {
            lemma_alternatives_of_weight(patterns@, rest);
            lemma_row_cons(p, rest);
            let (w, n) = (sum_weight(patterns@), sum_picks(patterns@));
            let (rn, rw) = (row_picks(rest), row_weight(rest));
            assert(w * rn + n * rw <= w * rn + (1 + n) * rw) by (nonlinear_arith);
        },
        _ => {
            let hs = with_rest(seq![p], rest);
            assert(hs.drop_last() =~= Seq::empty());
            assert(hs.last() == (p, rest));
            reveal_with_fuel(heads_weight, 2);
        },
    }
}

proof fn lemma_alternatives_of_weight(ps: Seq<Pat>, rest: Seq<Pat>)
    ensures
        heads_weight(with_rest(alternatives_of(ps), rest)) <= sum_weight(ps) * row_picks(rest)
            + sum_picks(ps) * row_weight(rest),
    decreases ps,
{
    let (rn, rw) = (row_picks(rest), row_weight(rest));
    if ps.len() == 0 {
        assert(with_rest(alternatives_of(ps), rest) =~= Seq::empty());
        assert(0 * rn + 0 * rw == 0) by (nonlinear_arith);
    } else {
        let init = ps.drop_last();
        let last = ps.last();
        lemma_alternatives_of_weight(init, rest);
        lemma_alternatives_weight(last, rest);
        lemma_row_cons(last, rest);
        assert(with_rest(alternatives_of(ps), rest) =~= with_rest(alternatives_of(init), rest)
            + with_rest(alternatives(last), rest));
        lemma_heads_weight_append(
            with_rest(alternatives_of(init), rest),
            with_rest(alternatives(last), rest),
        );
        assert(ps.subrange(0, ps.len() - 1) =~= init);
        let (iw, ip) = (sum_weight(init), sum_picks(init));
        let (lw, lp) = (weight(last), picks(last));
        assert((iw + lw) * rn + (ip + lp) * rw == (iw * rn + ip * rw) + (lw * rn + lp * rw))
            by (nonlinear_arith);
    }
}

proof fn lemma_heads_weight(rows: Seq<Seq<Pat>>)
    ensures
        heads_weight(heads(rows)) <= rows_weight(rows),
    decreases rows.len(),
{
    if rows.len() > 0 {
        let row = rows.last();
        lemma_heads_weight(rows.drop_last());
        lemma_heads_weight_append(heads(rows.drop_last()), row_heads(row));
        if row.len() > 0 {
            lemma_alternatives_weight(row[0], row.drop_first());
            assert(seq![row[0]] + row.drop_first() =~= row);
        }
    }
}

/// Specialising never adds weight, and removes some when the constructor
/// heads a row.
proof fn lemma_specialized_weight(hs: Seq<(Pat, Seq<Pat>)>, id: u32, arity: nat)
    ensures
        rows_weight(specialized(hs, id, arity)) <= heads_weight(hs),
        (exists|i: int|
            0 <= i < hs.len() && ((#[trigger] hs[i]).0 matches Pat::Ctor { id: c, args } && c
                == id)) ==> rows_weight(specialized(hs, id, arity)) < heads_weight(hs),
    decreases hs.len(),
{
    if hs.len() > 0 {
        let init = hs.drop_last();
        let (p, rest) = hs.last();
        lemma_specialized_weight(init, id, arity);
        lemma_wild_weight(rest, arity);
        let before = specialized(init, id, arity);
        let after = specialized(hs, id, arity);
        match p {
            Pat::Wildcard => {
                assert(after.drop_last() =~= before);
            },
            Pat::Ctor { id: i, args } => {
                lemma_ctor_weight(i, args, rest);
                if i == id {
                    assert(after.drop_last() =~= before);
                }
            },
            Pat::Or { patterns } => {},
        }
        if exists|i: int|
            0 <= i < hs.len() && ((#[trigger] hs[i]).0 matches Pat::Ctor { id: c, args } && c
                == id) {
            let i = choose|i: int|
                0 <= i < hs.len() && ((#[trigger] hs[i]).0 matches Pat::Ctor { id: c, args } && c
                    == id);
            if i < hs.len() - 1 {
                assert(init[i] == hs[i]);
            }
        }
    }
}

proof fn lemma_defaulted_weight(hs: Seq<(Pat, Seq<Pat>)>)
    ensures
        rows_weight(defaulted(hs)) <= heads_weight(hs),
    decreases hs.len(),
{
    if hs.len() > 0 {
        let (p, rest) = hs.last();
        lemma_defaulted_weight(hs.drop_last());
        lemma_wild_weight(rest, 0);
        if p is Wildcard {
            assert(defaulted(hs).drop_last() =~= defaulted(hs.drop_last()));
        }
    }
}

/// The weight of the matrix after one step.
pub proof fn lemma_step_weight(rows: Seq<Seq<Pat>>, id: u32, arity: nat)
    ensures
        rows_weight(specialized(heads(rows), id, arity)) <= rows_weight(rows),
        is_seen(rows, id) ==> rows_weight(specialized(heads(rows), id, arity)) < rows_weight(rows),
        rows_weight(defaulted(heads(rows))) <= rows_weight(rows),
{
    lemma_heads_weight(rows);
    lemma_specialized_weight(heads(rows), id, arity);
    lemma_defaulted_weight(heads(rows));
}

/// Whether `q` is useful against `rows` in columns of these types: whether it
/// matches a value that no row does.
pub open spec fn useful(rows: Seq<Seq<Pat>>, q: Seq<Pat>, ts: Seq<RcType>) -> bool
    decreases
            rows_weight(rows) + row_weight(q),
            q.len(),
            (if q.len() > 0 {
                or_depth(q[0])
            } else {
                0
            }),
{
    if q.len() == 0 {
        rows.len() == 0
    } else if ts.len() == 0 {
        true
    } else {
        let rest = q.drop_first();
        let trest = ts.drop_first();
        let cs = ctors_of(ts[0]);
        proof {
            lemma_useful_steps(rows, q, ts);
        }
        match q[0] {
            Pat::Wildcard => if is_complete_in(rows, ts[0]) {
                exists|k: int|
                    0 <= k < cs.len() && useful(
                        specialized(heads(rows), (#[trigger] cs[k]).id, cs[k].types.len()),
                        wilds(cs[k].types.len()) + rest,
                        cs[k].types + trest,
                    )
            } else {
                useful(defaulted(heads(rows)), rest, trest)
            },
            Pat::Ctor { id, args } => {
                let c = pattern_sig(ts[0], id, args@.len());
                useful(specialized(heads(rows), id, c.types.len()), args@ + rest, c.types + trest)
            },
            Pat::Or { patterns } => exists|k: int|
                0 <= k < patterns@.len() && useful(
                    rows,
                    seq![#[trigger] patterns@[k]] + rest,
                    ts,
                ),
        }
    }
}

pub proof fn lemma_useful_steps(rows: Seq<Seq<Pat>>, q: Seq<Pat>, ts: Seq<RcType>)
    requires
        q.len() > 0,
        ts.len() > 0,
    ensures
        q[0] is Wildcard ==> row_weight(q.drop_first()) == row_weight(q),
        rows_weight(defaulted(heads(rows))) <= rows_weight(rows),
        forall|id: u32, n: nat|
            rows_weight(#[trigger] specialized(heads(rows), id, n)) <= rows_weight(rows),
        forall|n: nat| q[0] is Wildcard ==> row_weight(#[trigger] wilds(n) + q.drop_first())
            == row_weight(q),
        is_complete_in(rows, ts[0]) ==> forall|k: int, n: nat|
            0 <= k < ctors_of(ts[0]).len() ==> rows_weight(
                #[trigger] specialized(heads(rows), ctors_of(ts[0])[k].id, n),
            ) < rows_weight(rows),
        q[0] matches Pat::Ctor { id, args } ==> row_weight(args@ + q.drop_first()) < row_weight(q),
        q[0] matches Pat::Or { patterns } ==> forall|k: int|
            0 <= k < patterns@.len() ==> row_weight(
                seq![#[trigger] patterns@[k]] + q.drop_first(),
            ) <= row_weight(q) && or_depth(patterns@[k]) < or_depth(q[0]),
{
    let rest = q.drop_first();
    assert(q =~= seq![q[0]] + rest);
    lemma_row_cons(q[0], rest);
    lemma_step_weight(rows, 0, 0);
    assert forall|id: u32, n: nat|
        rows_weight(#[trigger] specialized(heads(rows), id, n)) <= rows_weight(rows) by {
        lemma_step_weight(rows, id, n);
    }
    if q[0] is Wildcard {
        lemma_wild_weight(rest, 0);
        assert forall|n: nat| row_weight(#[trigger] wilds(n) + rest) == row_weight(q) by {
            lemma_wild_weight(rest, n);
        }
    }
    if is_complete_in(rows, ts[0]) {
        assert forall|k: int, n: nat|
            0 <= k < ctors_of(ts[0]).len() implies rows_weight(
            #[trigger] specialized(heads(rows), ctors_of(ts[0])[k].id, n),
        ) < rows_weight(rows) by {
            assert(is_seen(rows, ctors_of(ts[0])[k].id));
            lemma_step_weight(rows, ctors_of(ts[0])[k].id, n);
        }
    }
    if let Pat::Ctor { id, args } = q[0] {
        lemma_ctor_weight(id, args, rest);
    }
    if let Pat::Or { patterns } = q[0] {
        assert forall|k: int| 0 <= k < patterns@.len() implies row_weight(
            seq![#[trigger] patterns@[k]] + rest,
        ) <= row_weight(q) && or_depth(patterns@[k]) < or_depth(q[0]) by {
            lemma_or_depth(patterns@, k);
            lemma_row_cons(patterns@[k], rest);
            let (w, n) = (weight(patterns@[k]), picks(patterns@[k]));
            let (sw, sn) = (sum_weight(patterns@), sum_picks(patterns@));
            let (rn, rw) = (row_picks(rest), row_weight(rest));
            assert(w * rn + n * rw <= sw * rn + (1 + sn) * rw) by (nonlinear_arith)
                requires
                    w <= sw,
                    n <= sn,
            ;
        }
    }
}

/// A pattern, for contracts: what a [`Pat`] holds.
pub enum PatView {
    Wildcard,
    Ctor { id: u32, args: Seq<PatView> },
    Or { patterns: Seq<PatView> },
}

pub open spec fn pat_view(p: Pat) -> PatView
    decreases p,
{
    match p {
        Pat::Wildcard => PatView::Wildcard,
        Pat::Ctor { id, args } => PatView::Ctor { id, args: pat_views(args@) },
        Pat::Or { patterns } => PatView::Or { patterns: pat_views(patterns@) },
    }
}

pub open spec fn pat_views(ps: Seq<Pat>) -> Seq<PatView>
    decreases ps,
{
    if ps.len() == 0 {
        Seq::empty()
    } else {
        pat_views(ps.drop_last()).push(pat_view(ps.last()))
    }
}

pub proof fn lemma_pat_views(ps: Seq<Pat>)
    ensures
        pat_views(ps).len() == ps.len(),
        forall|i: int| 0 <= i < ps.len() ==> #[trigger] pat_views(ps)[i] == pat_view(ps[i]),
    decreases ps.len(),
{
    if ps.len() > 0 {
        lemma_pat_views(ps.drop_last());
    }
}

pub open spec fn wild_views(n: nat) -> Seq<PatView> {
    Seq::new(n, |i: int| PatView::Wildcard)
}

/// The first constructor that heads no row.
pub open spec fn first_missing(rows: Seq<Seq<Pat>>, cs: Seq<CtorSig>) -> Option<CtorSig>
    decreases cs.len(),
{
    if cs.len() == 0 {
        None
    } else if !is_seen(rows, cs[0].id) {
        Some(cs[0])
    } else {
        first_missing(rows, cs.drop_first())
    }
}

/// A pattern for a head the rows do not name: the first constructor they miss,
/// or a wildcard for a type that cannot be listed.
pub open spec fn missing_head(rows: Seq<Seq<Pat>>, t: RcType) -> PatView {
    match first_missing(rows, ctors_of(t)) {
        Some(c) => PatView::Ctor { id: c.id, args: wild_views(c.types.len()) },
        None => PatView::Wildcard,
    }
}

/// A pattern for each column that together match a value no row does, or
/// `None` when the rows leave nothing out.
pub open spec fn witness(rows: Seq<Seq<Pat>>, ts: Seq<RcType>) -> Option<Seq<PatView>>
    decreases rows_weight(rows), ts.len(), 1nat, 0nat,
{
    if ts.len() == 0 {
        if rows.len() == 0 {
            Some(Seq::empty())
        } else {
            None
        }
    } else {
        proof {
            lemma_step_weight(rows, 0, 0);
        }
        if is_complete_in(rows, ts[0]) {
            witness_from(rows, ts, 0)
        } else {
            match witness(defaulted(heads(rows)), ts.drop_first()) {
                Some(w) => Some(seq![missing_head(rows, ts[0])] + w),
                None => None,
            }
        }
    }
}

/// The first witness that a constructor of the first column gives, from the
/// `k`th on.
pub open spec fn witness_from(rows: Seq<Seq<Pat>>, ts: Seq<RcType>, k: nat) -> Option<Seq<PatView>>
    decreases rows_weight(rows), ts.len(), 0nat, ctors_of(ts[0]).len() - k,
{
    let cs = ctors_of(ts[0]);
    if k >= cs.len() || !is_complete_in(rows, ts[0]) {
        None
    } else {
        let c = cs[k as int];
        let n = c.types.len();
        proof {
            lemma_step_weight(rows, cs[k as int].id, cs[k as int].types.len());
        }
        match witness(specialized(heads(rows), c.id, n), c.types + ts.drop_first()) {
            Some(w) => Some(
                seq![PatView::Ctor { id: c.id, args: w.take(n as int) }] + w.skip(n as int),
            ),
            None => witness_from(rows, ts, k + 1),
        }
    }
}

pub proof fn lemma_witness_len(rows: Seq<Seq<Pat>>, ts: Seq<RcType>)
    ensures
        witness(rows, ts) matches Some(w) ==> w.len() == ts.len(),
    decreases rows_weight(rows), ts.len(), 1nat, 0nat,
{
    if ts.len() > 0 {
        lemma_step_weight(rows, 0, 0);
        if is_complete_in(rows, ts[0]) {
            lemma_witness_from_len(rows, ts, 0);
        } else {
            lemma_witness_len(defaulted(heads(rows)), ts.drop_first());
        }
    }
}

proof fn lemma_witness_from_len(rows: Seq<Seq<Pat>>, ts: Seq<RcType>, k: nat)
    requires
        ts.len() > 0,
    ensures
        witness_from(rows, ts, k) matches Some(w) ==> w.len() == ts.len(),
    decreases rows_weight(rows), ts.len(), 0nat, ctors_of(ts[0]).len() - k,
{
    let cs = ctors_of(ts[0]);
    if k < cs.len() && is_complete_in(rows, ts[0]) {
        let c = cs[k as int];
        lemma_step_weight(rows, cs[k as int].id, c.types.len());
        lemma_witness_len(
            specialized(heads(rows), c.id, c.types.len()),
            c.types + ts.drop_first(),
        );
        lemma_witness_from_len(rows, ts, k + 1);
    }
}

/// The rows of a matrix, in the order they were pushed.
pub struct PatternMatrix {
    rows: Vec<Stack<Pat>>,
}

pub open spec fn row_views(rows: Seq<Stack<Pat>>) -> Seq<Seq<Pat>> {
    rows.map_values(|r: Stack<Pat>| r@)
}

pub open spec fn head_views(hs: Seq<(Pat, Stack<Pat>)>) -> Seq<(Pat, Seq<Pat>)> {
    hs.map_values(|h: (Pat, Stack<Pat>)| (h.0, h.1@))
}

/// The alternatives of `p`, appended to `out` with the rest of their row.
fn push_alternatives(p: &Pat, rest: &Stack<Pat>, out: &mut Vec<(Pat, Stack<Pat>)>)
    ensures
        head_views(final(out)@) == head_views(old(out)@) + with_rest(alternatives(*p), rest@),
    decreases p,
{
    match p {
        Pat::Or { patterns } => {
            push_alternatives_of(patterns, rest, out);
        },
        _ => {
            let ghost before = out@;
            out.push((p.share(), rest.same()));
            proof {
                assert(head_views(out@) =~= head_views(before) + with_rest(
                    alternatives(*p),
                    rest@,
                ));
            }
        },
    }
}

fn push_alternatives_of(ps: &Vec<Pat>, rest: &Stack<Pat>, out: &mut Vec<(Pat, Stack<Pat>)>)
    ensures
        head_views(final(out)@) == head_views(old(out)@) + with_rest(
            alternatives_of(ps@),
            rest@,
        ),
    decreases ps@,
{
    let mut i: usize = 0;
    proof {
        assert(ps@.take(0) =~= Seq::empty());
        assert(head_views(out@) =~= head_views(old(out)@) + with_rest(
            alternatives_of(ps@.take(0)),
            rest@,
        ));
    }
    while i < ps.len()
        invariant
            i <= ps.len(),
            head_views(out@) == head_views(old(out)@) + with_rest(
                alternatives_of(ps@.take(i as int)),
                rest@,
            ),
        decreases ps.len() - i,
    {
        push_alternatives(&ps[i], rest, out);
        proof {
            let next = ps@.take(i + 1);
            assert(next.drop_last() =~= ps@.take(i as int));
            assert(next.last() == ps@[i as int]);
            assert(with_rest(alternatives_of(next), rest@) =~= with_rest(
                alternatives_of(ps@.take(i as int)),
                rest@,
            ) + with_rest(alternatives(ps@[i as int]), rest@));
            assert(head_views(out@) =~= head_views(old(out)@) + with_rest(
                alternatives_of(next),
                rest@,
            ));
        }
        i += 1;
    }
    proof {
        assert(ps@.take(i as int) =~= ps@);
    }
}

impl PatternMatrix {
    pub closed spec fn view(&self) -> Seq<Seq<Pat>> {
        row_views(self.rows@)
    }

    pub fn new() -> (r: PatternMatrix)
        ensures
            r@ == Seq::<Seq<Pat>>::empty(),
    {
        let r = PatternMatrix { rows: Vec::new() };
        proof {
            assert(r@ =~= Seq::<Seq<Pat>>::empty());
        }
        r
    }

    pub fn is_empty(&self) -> (r: bool)
        ensures
            r == (self@.len() == 0),
    {
        self.rows.len() == 0
    }

    fn push(&mut self, row: Stack<Pat>)
        ensures
            final(self)@ == old(self)@.push(row@),
    {
        let ghost before = self.rows@;
        self.rows.push(row);
        proof {
            assert(self@ =~= row_views(before).push(row@));
        }
    }

    /// Every row's first column with or-patterns taken apart, each with the
    /// rest of its row.
    pub fn for_each_head(&self) -> (r: Vec<(Pat, Stack<Pat>)>)
        ensures
            head_views(r@) == heads(self@),
    {
        let mut out: Vec<(Pat, Stack<Pat>)> = Vec::new();
        let mut i: usize = 0;
        proof {
            assert(self@.take(0) =~= Seq::empty());
            assert(head_views(out@) =~= heads(self@.take(0)));
        }
        while i < self.rows.len()
            invariant
                i <= self.rows.len(),
                self@.len() == self.rows.len(),
                head_views(out@) == heads(self@.take(i as int)),
            decreases self.rows.len() - i,
        {
            proof {
                let next = self@.take(i + 1);
                assert(next.drop_last() =~= self@.take(i as int));
                assert(next.last() == self.rows@[i as int]@);
            }
            if let Some((first, rest)) = self.rows[i].split() {
                push_alternatives(first, rest, &mut out);
            }
            proof {
                assert(head_views(out@) =~= heads(self@.take(i + 1)));
            }
            i += 1;
        }
        proof {
            assert(self@.take(i as int) =~= self@);
        }
        out
    }

    /// The constructors that head a row.
    pub fn first_col_ctors(&self) -> (r: CtorIdSet)
        ensures
            forall|id: u32| #[trigger] r.has(id) == is_seen(self@, id),
    {
        let hs = self.for_each_head();
        let mut seen = CtorIdSet::new();
        let mut i: usize = 0;
        while i < hs.len()
            invariant
                i <= hs.len(),
                head_views(hs@) == heads(self@),
                forall|id: u32|
                    #[trigger] seen.has(id) == (exists|k: int|
                        0 <= k < i && ((#[trigger] hs@[k]).0 matches Pat::Ctor { id: c, args } && c
                            == id)),
            decreases hs.len() - i,
        {
            let ghost before = seen;
            if let Pat::Ctor { id, args: _ } = &hs[i].0 {
                seen.insert(*id);
            }
            proof {
                assert forall|id: u32|
                    #[trigger] seen.has(id) == (exists|k: int|
                        0 <= k < i + 1 && ((#[trigger] hs@[k]).0 matches Pat::Ctor { id: c, args }
                            && c == id)) by {
                    if before.has(id) {
                        let k = choose|k: int|
                            0 <= k < i && ((#[trigger] hs@[k]).0 matches Pat::Ctor { id: c, args }
                                && c == id);
                        assert(hs@[k].0 matches Pat::Ctor { id: c, args } && c == id);
                    }
                    if seen.has(id) && !before.has(id) {
                        assert(hs@[i as int].0 matches Pat::Ctor { id: c, args } && c == id);
                    }
                    if exists|k: int|
                        0 <= k < i + 1 && ((#[trigger] hs@[k]).0 matches Pat::Ctor { id: c, args }
                            && c == id) {
                        let k = choose|k: int|
                            0 <= k < i + 1 && ((#[trigger] hs@[k]).0 matches Pat::Ctor {
                                id: c,
                                args,
                            } && c == id);
                        if k < i {
                            assert(before.has(id));
                        }
                    }
                }
            }
            i += 1;
        }
        proof {
            assert forall|id: u32| #[trigger] seen.has(id) == is_seen(self@, id) by {
                let hv = heads(self@);
                assert(forall|k: int| 0 <= k < hs@.len() ==> (#[trigger] hv[k]).0 == hs@[k].0);
                if seen.has(id) {
                    let k = choose|k: int|
                        0 <= k < hs@.len() && ((#[trigger] hs@[k]).0 matches Pat::Ctor {
                            id: c,
                            args,
                        } && c == id);
                    assert(hv[k].0 matches Pat::Ctor { id: c, args } && c == id);
                }
                if is_seen(self@, id) {
                    let k = choose|k: int|
                        0 <= k < hv.len() && ((#[trigger] hv[k]).0 matches Pat::Ctor { id: c, args }
                            && c == id);
                    assert(hs@[k].0 matches Pat::Ctor { id: c, args } && c == id);
                }
            }
        }
        seen
    }

    /// The matrix for values headed by `ctor`, whose arguments become the
    /// first columns.
    pub fn specialize(&self, ctor: &CtorInfo) -> (r: PatternMatrix)
        ensures
            r@ == specialized(heads(self@), ctor.id, ctor.arity as nat),
    {
        let hs = self.for_each_head();
        let mut result = PatternMatrix::new();
        let mut i: usize = 0;
        let ghost hv = heads(self@);
        proof {
            assert(hv.take(0) =~= Seq::empty());
        }
        while i < hs.len()
            invariant
                i <= hs.len(),
                hv == heads(self@),
                head_views(hs@) == hv,
                result@ == specialized(hv.take(i as int), ctor.id, ctor.arity as nat),
            decreases hs.len() - i,
        {
            proof {
                let next = hv.take(i + 1);
                assert(next.drop_last() =~= hv.take(i as int));
                assert(next.last() == (hs@[i as int].0, hs@[i as int].1@));
            }
            match &hs[i].0 {
                Pat::Wildcard => {
                    let row = Stack::prepend_n(Pat::Wildcard, ctor.arity, &hs[i].1);
                    result.push(row);
                },
                Pat::Ctor { id, args } => {
                    if *id == ctor.id {
                        let row = Stack::prepend(args, &hs[i].1);
                        result.push(row);
                    }
                },
                Pat::Or { patterns: _ } => {},
            }
            i += 1;
        }
        proof {
            assert(hv.take(i as int) =~= hv);
        }
        result
    }

    /// The matrix for values whose head no row names.
    pub fn default_matrix(&self) -> (r: PatternMatrix)
        ensures
            r@ == defaulted(heads(self@)),
    {
        let hs = self.for_each_head();
        let mut result = PatternMatrix::new();
        let mut i: usize = 0;
        let ghost hv = heads(self@);
        proof {
            assert(hv.take(0) =~= Seq::empty());
        }
        while i < hs.len()
            invariant
                i <= hs.len(),
                hv == heads(self@),
                head_views(hs@) == hv,
                result@ == defaulted(hv.take(i as int)),
            decreases hs.len() - i,
        {
            proof {
                let next = hv.take(i + 1);
                assert(next.drop_last() =~= hv.take(i as int));
                assert(next.last() == (hs@[i as int].0, hs@[i as int].1@));
            }
            if let Pat::Wildcard = &hs[i].0 {
                result.push(hs[i].1.same());
            }
            i += 1;
        }
        proof {
            assert(hv.take(i as int) =~= hv);
        }
        result
    }
}

fn is_complete(seen: &CtorIdSet, ctors: &TypeCtors) -> (r: bool)
    ensures
        r == (!ctors.infinite && forall|i: int|
            0 <= i < ctors.ctors@.len() ==> seen.has((#[trigger] ctors.ctors@[i]).id)),
{
    if ctors.infinite {
        return false;
    }
    let mut i: usize = 0;
    while i < ctors.ctors.len()
        invariant
            i <= ctors.ctors.len(),
            forall|k: int| 0 <= k < i ==> seen.has((#[trigger] ctors.ctors@[k]).id),
        decreases ctors.ctors.len() - i,
    {
        if !seen.contains(ctors.ctors[i].id) {
            return false;
        }
        i += 1;
    }
    true
}

proof fn lemma_ctor_sig(ctors: Seq<CtorInfo>, k: int)
    requires
        0 <= k < ctors.len(),
    ensures
        sigs_of(ctors)[k] == sig_of(ctors[k]),
{
}

proof fn lemma_types_wf_append(a: Seq<RcType>, b: Seq<RcType>)
    requires
        types_wf(a),
        types_wf(b),
    ensures
        types_wf(a + b),
{
}

proof fn lemma_ctor_types_wf(c: TypeCtors, k: int)
    requires
        ctors_wf(c),
        0 <= k < c.ctors@.len(),
    ensures
        types_wf(c.ctors@[k].types@),
        c.ctors@[k].arity == c.ctors@[k].types@.len(),
{
}

/// Whether `pats` is useful against `m`: whether it matches a value no row of
/// `m` does.
pub fn is_useful(m: &PatternMatrix, pats: &Stack<Pat>, types: &Stack<RcType>) -> (r: bool)
    requires
        types_wf(types@),
    ensures
        r == useful(m@, pats@, types@),
    decreases
            rows_weight(m@) + row_weight(pats@),
            pats@.len(),
            (if pats@.len() > 0 {
                or_depth(pats@[0])
            } else {
                0
            }),
{
    let (first_pat, rest_pats) = match pats.split() {
        Some(x) => x,
        None => {
            return m.is_empty();
        },
    };
    let (first_type, rest_types) = match types.split() {
        Some(x) => x,
        None => {
            return true;
        },
    };
    let type_ctors = get_type_ctors(first_type);
    let seen = m.first_col_ctors();
    let ghost cs = ctors_of(types@[0]);
    proof {
        lemma_useful_steps(m@, pats@, types@);
        assert(types_wf(rest_types@));
    }
    match first_pat {
        Pat::Wildcard => {
            let complete = is_complete(&seen, &type_ctors);
            proof {
                assert(complete == is_complete_in(m@, types@[0])) by {
                    assert forall|k: int| 0 <= k < cs.len() implies (#[trigger] cs[k]).id
                        == type_ctors.ctors@[k].id by {
                        lemma_ctor_sig(type_ctors.ctors@, k);
                    }
                    if complete {
                        assert forall|k: int| 0 <= k < cs.len() implies is_seen(
                            m@,
                            (#[trigger] cs[k]).id,
                        ) by {
                            assert(seen.has(type_ctors.ctors@[k].id));
                        }
                    }
                    if is_complete_in(m@, types@[0]) {
                        assert forall|k: int| 0 <= k < type_ctors.ctors@.len() implies seen.has(
                            (#[trigger] type_ctors.ctors@[k]).id,
                        ) by {
                            assert(is_seen(m@, cs[k].id));
                        }
                    }
                }
            }
            if complete {
                let mut i: usize = 0;
                while i < type_ctors.ctors.len()
                    invariant
                        i <= type_ctors.ctors.len(),
                        ctors_wf(type_ctors),
                        types_wf(types@),
                        types@.len() > 0,
                        pats@.len() > 0,
                        cs == ctors_of(types@[0]),
                        sigs_of(type_ctors.ctors@) == cs,
                        rest_pats@ == pats@.drop_first(),
                        rest_types@ == types@.drop_first(),
                        pats@[0] is Wildcard,
                        is_complete_in(m@, types@[0]),
                        forall|k: int|
                            0 <= k < i ==> !useful(
                                specialized(heads(m@), (#[trigger] cs[k]).id, cs[k].types.len()),
                                wilds(cs[k].types.len()) + rest_pats@,
                                cs[k].types + rest_types@,
                            ),
                    decreases type_ctors.ctors.len() - i,
                {
                    let ctor = &type_ctors.ctors[i];
                    proof {
                        lemma_useful_steps(m@, pats@, types@);
                        lemma_ctor_sig(type_ctors.ctors@, i as int);
                        lemma_ctor_types_wf(type_ctors, i as int);
                        lemma_types_wf_append(ctor.types@, rest_types@);
                        assert(cs[i as int].id == ctor.id && cs[i as int].types == ctor.types@);
                    }
                    let specialized_m = m.specialize(ctor);
                    let new_pats = Stack::prepend_n(Pat::Wildcard, ctor.arity, rest_pats);
                    let new_types = Stack::prepend(&ctor.types, rest_types);
                    proof {
                        assert(new_pats@ =~= wilds(cs[i as int].types.len()) + rest_pats@);
                    }
                    if is_useful(&specialized_m, &new_pats, &new_types) {
                        return true;
                    }
                    i += 1;
                }
                false
            } else {
                let d = m.default_matrix();
                is_useful(&d, rest_pats, rest_types)
            }
        },
        Pat::Ctor { id, args } => {
            let found = type_ctors.find(*id);
            let fallback = CtorInfo::opaque(*id, args.len());
            let ctor: &CtorInfo = match found {
                Some(c) => c,
                None => &fallback,
            };
            proof {
                if let Some(c) = found {
                    let k = choose|k: int|
                        0 <= k < type_ctors.ctors@.len() && type_ctors.ctors@[k] == *c;
                    lemma_find_sig_is(cs, *id);
                    lemma_ctor_types_wf(type_ctors, k);
                }
                lemma_types_wf_append(ctor.types@, rest_types@);
            }
            let specialized_m = m.specialize(ctor);
            let new_pats = Stack::prepend(args, rest_pats);
            let new_types = Stack::prepend(&ctor.types, rest_types);
            is_useful(&specialized_m, &new_pats, &new_types)
        },
        Pat::Or { patterns } => {
            let mut i: usize = 0;
            while i < patterns.len()
                invariant
                    i <= patterns.len(),
                    types_wf(types@),
                    types@.len() > 0,
                    pats@.len() > 0,
                    pats@[0] == (Pat::Or { patterns: *patterns }),
                    rest_pats@ == pats@.drop_first(),
                    forall|k: int|
                        0 <= k < i ==> !useful(
                            m@,
                            seq![#[trigger] patterns@[k]] + rest_pats@,
                            types@,
                        ),
                decreases patterns.len() - i,
            {
                let q = Stack::cons(patterns[i].share(), rest_pats.same());
                proof {
                    lemma_useful_steps(m@, pats@, types@);
                    assert(q@[0] == patterns@[i as int]);
                    assert(q@.len() == pats@.len());
                }
                if is_useful(m, &q, types) {
                    return true;
                }
                i += 1;
            }
            false
        },
    }
}

/// [`witness`] as patterns.
pub fn find_witness_vec(m: &PatternMatrix, types: &Stack<RcType>) -> (r: Option<Vec<Pat>>)
    requires
        types_wf(types@),
    ensures
        match r {
            Some(w) => witness(m@, types@) == Some(pat_views(w@)),
            None => witness(m@, types@) is None,
        },
    decreases rows_weight(m@), types@.len(),
{
    let (first_type, rest_types) = match types.split() {
        Some(x) => x,
        None => {
            if m.is_empty() {
                let w: Vec<Pat> = Vec::new();
                proof {
                    assert(pat_views(w@) =~= Seq::empty());
                }
                return Some(w);
            }
            return None;
        },
    };
    let type_ctors = get_type_ctors(first_type);
    let seen = m.first_col_ctors();
    let ghost cs = ctors_of(types@[0]);
    let complete = is_complete(&seen, &type_ctors);
    proof {
        lemma_step_weight(m@, 0, 0);
        assert(types_wf(rest_types@));
        lemma_complete(m@, types@[0], seen, type_ctors, complete);
    }
    if complete {
        let mut i: usize = 0;
        while i < type_ctors.ctors.len()
            invariant
                i <= type_ctors.ctors.len(),
                ctors_wf(type_ctors),
                types_wf(types@),
                types@.len() > 0,
                cs == ctors_of(types@[0]),
                sigs_of(type_ctors.ctors@) == cs,
                rest_types@ == types@.drop_first(),
                is_complete_in(m@, types@[0]),
                witness(m@, types@) == witness_from(m@, types@, i as nat),
            decreases type_ctors.ctors.len() - i,
        {
            let ctor = &type_ctors.ctors[i];
            proof {
                lemma_ctor_sig(type_ctors.ctors@, i as int);
                lemma_ctor_types_wf(type_ctors, i as int);
                lemma_types_wf_append(ctor.types@, rest_types@);
                assert(is_seen(m@, cs[i as int].id));
                lemma_step_weight(m@, cs[i as int].id, cs[i as int].types.len());
                lemma_witness_len(
                    specialized(heads(m@), ctor.id, ctor.types@.len()),
                    ctor.types@ + rest_types@,
                );
            }
            let specialized_m = m.specialize(ctor);
            let sub_types = Stack::prepend(&ctor.types, rest_types);
            if let Some(w) = find_witness_vec(&specialized_m, &sub_types) {
                proof {
                    lemma_pat_views(w@);
                }
                let r = gather(ctor.id, ctor.arity, &w);
                return Some(r);
            }
            i += 1;
        }
        None
    } else {
        let d = m.default_matrix();
        let rest = match find_witness_vec(&d, rest_types) {
            Some(w) => w,
            None => {
                return None;
            },
        };
        let head = head_missing(&seen, &type_ctors, Ghost(m@));
        let mut out: Vec<Pat> = Vec::new();
        out.push(head);
        push_all(&mut out, &rest, 0);
        proof {
            lemma_pat_views(out@);
            lemma_pat_views(rest@);
            assert(pat_views(out@) =~= seq![pat_view(head)] + pat_views(rest@));
        }
        Some(out)
    }
}

proof fn lemma_complete(
    rows: Seq<Seq<Pat>>,
    t: RcType,
    seen: CtorIdSet,
    type_ctors: TypeCtors,
    complete: bool,
)
    requires
        sigs_of(type_ctors.ctors@) == ctors_of(t),
        type_ctors.infinite == (t is Infinite),
        forall|id: u32| #[trigger] seen.has(id) == is_seen(rows, id),
        complete == (!type_ctors.infinite && forall|i: int|
            0 <= i < type_ctors.ctors@.len() ==> seen.has((#[trigger] type_ctors.ctors@[i]).id)),
    ensures
        complete == is_complete_in(rows, t),
{
    let cs = ctors_of(t);
    assert forall|k: int| 0 <= k < cs.len() implies (#[trigger] cs[k]).id
        == type_ctors.ctors@[k].id by {
        lemma_ctor_sig(type_ctors.ctors@, k);
    }
    if complete {
        assert forall|k: int| 0 <= k < cs.len() implies is_seen(rows, (#[trigger] cs[k]).id) by {
            assert(seen.has(type_ctors.ctors@[k].id));
        }
    }
    if is_complete_in(rows, t) {
        assert forall|k: int| 0 <= k < type_ctors.ctors@.len() implies seen.has(
            (#[trigger] type_ctors.ctors@[k]).id,
        ) by {
            assert(is_seen(rows, cs[k].id));
        }
    }
}

/// Append `items` from position `from` on.
fn push_all(out: &mut Vec<Pat>, items: &Vec<Pat>, from: usize)
    requires
        from <= items@.len(),
    ensures
        final(out)@ == old(out)@ + items@.skip(from as int),
{
    let mut i: usize = from;
    proof {
        assert(out@ =~= old(out)@ + items@.subrange(from as int, from as int));
    }
    while i < items.len()
        invariant
            from <= i <= items.len(),
            out@ == old(out)@ + items@.subrange(from as int, i as int),
        decreases items.len() - i,
    {
        out.push(items[i].share());
        i += 1;
        proof {
            assert(out@ =~= old(out)@ + items@.subrange(from as int, i as int));
        }
    }
    proof {
        assert(items@.subrange(from as int, i as int) =~= items@.skip(from as int));
    }
}

/// The witness of a constructor, from the witness of its arguments and the
/// columns after them.
fn gather(id: u32, arity: usize, w: &Vec<Pat>) -> (r: Vec<Pat>)
    requires
        arity <= w@.len(),
    ensures
        pat_views(r@) == seq![
            PatView::Ctor { id, args: pat_views(w@).take(arity as int) },
        ] + pat_views(w@).skip(arity as int),
{
    let mut args: Vec<Pat> = Vec::new();
    let mut i: usize = 0;
    while i < arity
        invariant
            i <= arity <= w@.len(),
            args@ =~= w@.take(i as int),
        decreases arity - i,
    {
        args.push(w[i].share());
        i += 1;
    }
    let mut out: Vec<Pat> = Vec::new();
    let head = Pat::Ctor { id, args: Rc::new(args) };
    out.push(head);
    push_all(&mut out, w, arity);
    proof {
        lemma_pat_views(out@);
        lemma_pat_views(w@);
        lemma_pat_views(args@);
        assert(pat_views(args@) =~= pat_views(w@).take(arity as int));
        assert forall|k: int| 1 <= k < out@.len() implies #[trigger] pat_views(out@)[k]
            == pat_views(w@)[k - 1 + arity] by {
            assert(out@[k] == w@.skip(arity as int)[k - 1]);
        }
        assert(pat_views(out@) =~= seq![
            PatView::Ctor { id, args: pat_views(w@).take(arity as int) },
        ] + pat_views(w@).skip(arity as int));
    }
    out
}

proof fn lemma_first_missing(rows: Seq<Seq<Pat>>, cs: Seq<CtorSig>, i: int)
    requires
        0 <= i <= cs.len(),
        forall|k: int| 0 <= k < i ==> is_seen(rows, (#[trigger] cs[k]).id),
    ensures
        first_missing(rows, cs) == (if i < cs.len() && !is_seen(rows, cs[i].id) {
            Some(cs[i])
        } else {
            first_missing(rows, cs.skip(i))
        }),
    decreases i,
{
    if i == 0 {
        assert(cs.skip(0) =~= cs);
    } else {
        assert(is_seen(rows, cs[0].id));
        let rest = cs.drop_first();
        assert forall|k: int| 0 <= k < i - 1 implies is_seen(rows, (#[trigger] rest[k]).id) by {
            assert(rest[k] == cs[k + 1]);
        }
        lemma_first_missing(rows, rest, i - 1);
        assert(rest.skip(i - 1) =~= cs.skip(i));
    }
}

/// [`missing_head`] as a pattern.
fn head_missing(seen: &CtorIdSet, ctors: &TypeCtors, Ghost(rows): Ghost<Seq<Seq<Pat>>>) -> (r: Pat)
    requires
        forall|id: u32| #[trigger] seen.has(id) == is_seen(rows, id),
        ctors.infinite || ctors_wf(*ctors),
        ctors.infinite ==> ctors.ctors@.len() == 0,
    ensures
        pat_view(r) == (match first_missing(rows, sigs_of(ctors.ctors@)) {
            Some(c) => PatView::Ctor { id: c.id, args: wild_views(c.types.len()) },
            None => PatView::Wildcard,
        }),
{
    let ghost cs = sigs_of(ctors.ctors@);
    let mut i: usize = 0;
    while i < ctors.ctors.len()
        invariant
            i <= ctors.ctors.len(),
            cs == sigs_of(ctors.ctors@),
            ctors.infinite || ctors_wf(*ctors),
            ctors.infinite ==> ctors.ctors@.len() == 0,
            forall|id: u32| #[trigger] seen.has(id) == is_seen(rows, id),
            forall|k: int| 0 <= k < i ==> is_seen(rows, (#[trigger] cs[k]).id),
        decreases ctors.ctors.len() - i,
    {
        proof {
            lemma_ctor_sig(ctors.ctors@, i as int);
        }
        if !seen.contains(ctors.ctors[i].id) {
            let n: usize = ctors.ctors[i].arity;
            let mut args: Vec<Pat> = Vec::new();
            let mut k: usize = 0;
            while k < n
                invariant
                    k <= n,
                    args@ =~= wilds(k as nat),
                decreases n - k,
            {
                args.push(Pat::Wildcard);
                k += 1;
            }
            proof {
                lemma_first_missing(rows, cs, i as int);
                lemma_pat_views(args@);
                assert(pat_views(args@) =~= wild_views(n as nat));
            }
            return Pat::Ctor { id: ctors.ctors[i].id, args: Rc::new(args) };
        }
        i += 1;
    }
    proof {
        lemma_first_missing(rows, cs, i as int);
        assert(cs.skip(i as int) =~= Seq::empty());
    }
    Pat::Wildcard
}

/// How a lowered type is laid out, for contracts: its constructors' ids,
/// labels and argument types.
pub enum TypeView {
    Infinite,
    Array { element: Box<TypeView> },
    Named { ctors: Seq<CtorView> },
    Tuple { ctor: Box<CtorView> },
}

pub struct CtorView {
    pub id: u32,
    pub labels: Seq<Seq<char>>,
    pub types: Seq<TypeView>,
}

pub open spec fn type_view(t: RcType) -> TypeView
    decreases t,
{
    match t {
        RcType::Infinite => TypeView::Infinite,
        RcType::Array(a) => TypeView::Array { element: Box::new(type_view(a.element)) },
        RcType::Named(c) => TypeView::Named { ctors: ctor_views(c.ctors@) },
        RcType::Tuple(c) => if c.ctors@.len() == 1 {
            TypeView::Tuple { ctor: Box::new(ctor_view(c.ctors@[0])) }
        } else {
            TypeView::Infinite
        },
    }
}

pub open spec fn ctor_view(c: CtorInfo) -> CtorView
    decreases c,
{
    CtorView { id: c.id, labels: texts(c.labels@), types: type_views(c.types@) }
}

pub open spec fn ctor_views(cs: Seq<CtorInfo>) -> Seq<CtorView>
    decreases cs,
{
    if cs.len() == 0 {
        Seq::empty()
    } else {
        ctor_views(cs.drop_last()).push(ctor_view(cs.last()))
    }
}

pub open spec fn type_views(ts: Seq<RcType>) -> Seq<TypeView>
    decreases ts,
{
    if ts.len() == 0 {
        Seq::empty()
    } else {
        type_views(ts.drop_last()).push(type_view(ts.last()))
    }
}

/// The constructor names met so far, each at its id.
pub type Names = Seq<Seq<char>>;

/// The id of `name` once it is among the names.
pub open spec fn id_in(names: Names, name: Seq<char>) -> u32 {
    match position(with(names, name), name) {
        Some(i) => i as u32,
        None => 0,
    }
}

/// The synthetic constructor name of an `n`-ary tuple.
pub open spec fn tuple_name(n: nat) -> Seq<char> {
    "#tuple"@ + decimal(n)
}

/// A type lowered to its constructors, and the names met on the way.
pub open spec fn lowered_type(t: Type, names: Names) -> (TypeView, Names)
    decreases t,
{
    match t {
        Type::Array { element } => {
            let (e, names) = lowered_type(*element, names);
            (TypeView::Array { element: Box::new(e) }, names)
        },
        Type::Tuple { elements } => {
            let (ts, names) = lowered_types(elements@, names);
            let name = tuple_name(ts.len());
            let ctor = CtorView { id: id_in(names, name), labels: Seq::empty(), types: ts };
            (TypeView::Tuple { ctor: Box::new(ctor) }, with(names, name))
        },
        Type::Named { id, name, type_args, variants } => if variants@.len() == 0 {
            (TypeView::Infinite, names)
        } else {
            let (cs, names) = lowered_variants(variants@, names);
            (TypeView::Named { ctors: cs }, names)
        },
        _ => (TypeView::Infinite, names),
    }
}

pub open spec fn lowered_types(ts: Seq<Type>, names: Names) -> (Seq<TypeView>, Names)
    decreases ts,
{
    if ts.len() == 0 {
        (Seq::empty(), names)
    } else {
        let (before, names) = lowered_types(ts.drop_last(), names);
        let (last, names) = lowered_type(ts.last(), names);
        (before.push(last), names)
    }
}

pub open spec fn lowered_variants(vs: Seq<VariantDef>, names: Names) -> (Seq<CtorView>, Names)
    decreases vs,
{
    if vs.len() == 0 {
        (Seq::empty(), names)
    } else {
        let (before, names) = lowered_variants(vs.drop_last(), names);
        let v = vs.last();
        let (types, after) = lowered_fields(v.fields@, with(names, v.name@));
        let ctor = CtorView {
            id: id_in(names, v.name@),
            labels: field_labels(v.fields@),
            types,
        };
        (before.push(ctor), after)
    }
}

pub open spec fn lowered_fields(fs: Seq<FieldDef>, names: Names) -> (Seq<TypeView>, Names)
    decreases fs,
{
    if fs.len() == 0 {
        (Seq::empty(), names)
    } else {
        let (before, names) = lowered_fields(fs.drop_last(), names);
        let (last, names) = lowered_type(fs.last().ty, names);
        (before.push(last), names)
    }
}

pub open spec fn field_labels(fs: Seq<FieldDef>) -> Seq<Seq<char>> {
    fs.map_values(|f: FieldDef| f.label@)
}

/// The constructor names of one check. Ids 0 and 1 are the array constructors.
pub struct Interner(NameTable);

/// The names every check starts with.
pub open spec fn base_names() -> Names {
    seq!["[]"@, "::"@]
}

impl Interner {
    pub closed spec fn view(&self) -> Names {
        self.0@
    }

    pub closed spec fn wf(&self) -> bool {
        self.0.wf()
    }

    pub fn new() -> (r: Interner)
        ensures
            r@ == base_names(),
            r.wf(),
    {
        let mut table = NameTable::new();
        proof {
            reveal_strlit("[]");
            reveal_strlit("::");
            assert("[]"@[0] == '[' && "::"@[0] == ':');
            assert("[]"@ != "::"@);
        }
        let _a: usize = table.intern("[]");
        proof {
            assert(table@ =~= seq!["[]"@]);
            assert(!table@.contains("::"@)) by {
                assert(forall|i: int| 0 <= i < table@.len() ==> table@[i] == "[]"@);
            }
        }
        let _b: usize = table.intern("::");
        proof {
            assert(table@ =~= base_names());
        }
        Interner(table)
    }

    /// The id of `name`, which joins the names when it is new.
    pub fn intern(&mut self, name: &str) -> (r: u32)
        requires
            old(self).wf(),
        ensures
            final(self).wf(),
            final(self)@ == with(old(self)@, name@),
            r == id_in(old(self)@, name@),
            r < final(self)@.len(),
            final(self)@.len() >= old(self)@.len(),
    {
        proof {
            lemma_with(self@, name@);
        }
        let i: usize = self.0.intern(name);
        proof {
            assert(i as u32 <= i) by (bit_vector);
        }
        i as u32
    }

    pub fn name(&self, id: u32) -> (r: &str)
        requires
            id < self@.len(),
        ensures
            r@ == self@[id as int],
    {
        self.0.get(id as usize)
    }
}

/// The synthetic constructor name of an `n`-ary tuple.
pub fn tuple_ctor_name(n: usize) -> (r: String)
    ensures
        r@ == tuple_name(n as nat),
{
    let mut out = "#tuple".to_owned();
    push_decimal(&mut out, n as u64);
    out
}

/// Every constructor id in `t` is below `n`.
pub open spec fn ids_below(t: RcType, n: nat) -> bool
    decreases t,
{
    match t {
        RcType::Infinite => true,
        RcType::Array(a) => n >= 2 && ids_below(a.element, n),
        RcType::Named(c) => ctors_below(*c, n),
        RcType::Tuple(c) => ctors_below(*c, n),
    }
}

pub open spec fn ctors_below(c: TypeCtors, n: nat) -> bool
    decreases c,
{
    &&& forall|i: int| 0 <= i < c.ctors@.len() ==> (#[trigger] c.ctors@[i]).id < n
    &&& forall|i: int, j: int|
        0 <= i < c.ctors@.len() && 0 <= j < c.ctors@[i].types@.len() ==> ids_below(
            #[trigger] c.ctors@[i].types@[j],
            n,
        )
}

pub open spec fn types_below(ts: Seq<RcType>, n: nat) -> bool {
    forall|i: int| 0 <= i < ts.len() ==> ids_below(#[trigger] ts[i], n)
}

pub proof fn lemma_ids_below(t: RcType, n: nat, m: nat)
    requires
        ids_below(t, n),
        n <= m,
    ensures
        ids_below(t, m),
    decreases t,
{
    match t {
        RcType::Infinite => {},
        RcType::Array(a) => {
            lemma_ids_below(element_type(t), n, m);
        },
        RcType::Named(c) => {
            assert(ctors_below(*c, n));
            assert forall|i: int, j: int|
                0 <= i < c.ctors@.len() && 0 <= j < c.ctors@[i].types@.len() implies ids_below(
                #[trigger] c.ctors@[i].types@[j],
                m,
            ) by {
                lemma_ids_below(c.ctors@[i].types@[j], n, m);
            }
            assert(ctors_below(*c, m));
        },
        RcType::Tuple(c) => {
            assert(ctors_below(*c, n));
            assert forall|i: int, j: int|
                0 <= i < c.ctors@.len() && 0 <= j < c.ctors@[i].types@.len() implies ids_below(
                #[trigger] c.ctors@[i].types@[j],
                m,
            ) by {
                lemma_ids_below(c.ctors@[i].types@[j], n, m);
            }
            assert(ctors_below(*c, m));
        },
    }
}

proof fn lemma_types_below(ts: Seq<RcType>, n: nat, m: nat)
    requires
        types_below(ts, n),
        n <= m,
    ensures
        types_below(ts, m),
{
    assert forall|i: int| 0 <= i < ts.len() implies ids_below(#[trigger] ts[i], m) by {
        lemma_ids_below(ts[i], n, m);
    }
}

/// Lower a resolved type to its constructors, naming each in `interner`.
pub fn rc_type(t: &Type, interner: &mut Interner) -> (r: RcType)
    requires
        old(interner).wf(),
        old(interner)@.len() >= 2,
    ensures
        final(interner).wf(),
        final(interner)@.len() >= old(interner)@.len(),
        ids_below(r, final(interner)@.len()),
        type_wf(r),
        (type_view(r), final(interner)@) == lowered_type(*t, old(interner)@),
    decreases t,
{
    match t {
        Type::Array { element } => {
            let e = rc_type(element, interner);
            RcType::Array(Rc::new(ArrayType { element: e }))
        },
        Type::Tuple { elements } => {
            let types = rc_types(elements, interner);
            let ghost count = interner@.len();
            let n: usize = types.len();
            proof {
                lemma_type_views(types@);
            }
            let name = tuple_ctor_name(n);
            let id = interner.intern(name.as_str());
            let labels: Vec<String> = Vec::new();
            let ctor = CtorInfo { id, arity: n, labels, types };
            let mut ctors: Vec<CtorInfo> = Vec::new();
            ctors.push(ctor);
            let r = RcType::Tuple(Rc::new(TypeCtors { ctors, infinite: false }));
            proof {
                assert(texts(labels@) =~= Seq::empty());
                assert(ctors@ =~= seq![ctor]);
                let c = TypeCtors { ctors, infinite: false };
                assert(ctors_wf(c)) by {
                    assert forall|i: int, j: int|
                        0 <= i < c.ctors@.len() && 0 <= j < c.ctors@[i].types@.len() implies type_wf(
                        #[trigger] c.ctors@[i].types@[j],
                    ) by {
                        assert(types_wf(types@));
                    }
                }
                assert(ctors_below(c, interner@.len())) by {
                    assert forall|i: int, j: int|
                        0 <= i < c.ctors@.len() && 0 <= j
                            < c.ctors@[i].types@.len() implies ids_below(
                        #[trigger] c.ctors@[i].types@[j],
                        interner@.len(),
                    ) by {
                        lemma_types_below(types@, count, interner@.len());
                    }
                }
                assert(type_wf(r));
                let (ts, mid) = lowered_types(elements@, old(interner)@);
                assert(ctor_view(ctor) == (CtorView {
                    id: id_in(mid, tuple_name(ts.len())),
                    labels: Seq::empty(),
                    types: ts,
                }));
                assert(type_view(r) == lowered_type(*t, old(interner)@).0);
                assert(interner@ == lowered_type(*t, old(interner)@).1);
            }
            r
        },
        Type::Named { id: _, name: _, type_args: _, variants } => {
            if variants.len() == 0 {
                RcType::Infinite
            } else {
                let ctors = rc_variants(variants, interner);
                RcType::Named(Rc::new(TypeCtors { ctors, infinite: false }))
            }
        },
        _ => RcType::Infinite,
    }
}

pub proof fn lemma_type_views(ts: Seq<RcType>)
    ensures
        type_views(ts).len() == ts.len(),
        forall|i: int| 0 <= i < ts.len() ==> #[trigger] type_views(ts)[i] == type_view(ts[i]),
    decreases ts.len(),
{
    if ts.len() > 0 {
        lemma_type_views(ts.drop_last());
    }
}

fn rc_types(ts: &Vec<Type>, interner: &mut Interner) -> (r: Vec<RcType>)
    requires
        old(interner).wf(),
        old(interner)@.len() >= 2,
    ensures
        final(interner).wf(),
        final(interner)@.len() >= old(interner)@.len(),
        types_below(r@, final(interner)@.len()),
        types_wf(r@),
        (type_views(r@), final(interner)@) == lowered_types(ts@, old(interner)@),
    decreases ts@,
{
    let mut out: Vec<RcType> = Vec::new();
    let mut i: usize = 0;
    proof {
        assert(ts@.take(0) =~= Seq::empty());
        assert(type_views(out@) =~= Seq::empty());
    }
    while i < ts.len()
        invariant
            i <= ts.len(),
            interner.wf(),
            interner@.len() >= old(interner)@.len() >= 2,
            types_below(out@, interner@.len()),
            types_wf(out@),
            (type_views(out@), interner@) == lowered_types(ts@.take(i as int), old(interner)@),
        decreases ts.len() - i,
    {
        let ghost before = out@;
        let ghost count = interner@.len();
        let t = rc_type(&ts[i], interner);
        out.push(t);
        proof {
            lemma_types_below(before, count, interner@.len());
            let next = ts@.take(i + 1);
            assert(next.drop_last() =~= ts@.take(i as int));
            assert(out@.drop_last() =~= before);
        }
        i += 1;
    }
    proof {
        assert(ts@.take(i as int) =~= ts@);
    }
    out
}

fn rc_fields(fs: &Vec<FieldDef>, interner: &mut Interner) -> (r: Vec<RcType>)
    requires
        old(interner).wf(),
        old(interner)@.len() >= 2,
    ensures
        final(interner).wf(),
        final(interner)@.len() >= old(interner)@.len(),
        types_below(r@, final(interner)@.len()),
        types_wf(r@),
        r@.len() == fs@.len(),
        (type_views(r@), final(interner)@) == lowered_fields(fs@, old(interner)@),
    decreases fs@,
{
    let mut out: Vec<RcType> = Vec::new();
    let mut i: usize = 0;
    proof {
        assert(fs@.take(0) =~= Seq::empty());
        assert(type_views(out@) =~= Seq::empty());
    }
    while i < fs.len()
        invariant
            i <= fs.len(),
            out@.len() == i,
            interner.wf(),
            interner@.len() >= old(interner)@.len() >= 2,
            types_below(out@, interner@.len()),
            types_wf(out@),
            (type_views(out@), interner@) == lowered_fields(fs@.take(i as int), old(interner)@),
        decreases fs.len() - i,
    {
        let ghost before = out@;
        let ghost count = interner@.len();
        let t = rc_type(&fs[i].ty, interner);
        out.push(t);
        proof {
            lemma_types_below(before, count, interner@.len());
            let next = fs@.take(i + 1);
            assert(next.drop_last() =~= fs@.take(i as int));
            assert(out@.drop_last() =~= before);
        }
        i += 1;
    }
    proof {
        assert(fs@.take(i as int) =~= fs@);
    }
    out
}

fn rc_variants(vs: &Vec<VariantDef>, interner: &mut Interner) -> (r: Vec<CtorInfo>)
    requires
        old(interner).wf(),
        old(interner)@.len() >= 2,
        vs@.len() > 0,
    ensures
        final(interner).wf(),
        final(interner)@.len() >= old(interner)@.len(),
        ctors_below((TypeCtors { ctors: r, infinite: false }), final(interner)@.len()),
        ctors_wf((TypeCtors { ctors: r, infinite: false })),
        (ctor_views(r@), final(interner)@) == lowered_variants(vs@, old(interner)@),
    decreases vs@,
{
    let mut out: Vec<CtorInfo> = Vec::new();
    let mut i: usize = 0;
    proof {
        assert(vs@.take(0) =~= Seq::empty());
        assert(ctor_views(out@) =~= Seq::empty());
    }
    while i < vs.len()
        invariant
            i <= vs.len(),
            out@.len() == i,
            interner.wf(),
            interner@.len() >= old(interner)@.len() >= 2,
            forall|k: int|
                0 <= k < out@.len() ==> (#[trigger] out@[k]).arity == out@[k].types@.len()
                    && out@[k].labels@.len() == out@[k].types@.len() && types_wf(out@[k].types@)
                    && out@[k].id < interner@.len() && types_below(
                    out@[k].types@,
                    interner@.len(),
                ),
            (ctor_views(out@), interner@) == lowered_variants(vs@.take(i as int), old(interner)@),
        decreases vs.len() - i,
    {
        let ghost before = out@;
        let ghost names = interner@;
        let v = &vs[i];
        let id = interner.intern(v.name.as_str());
        let mut labels: Vec<String> = Vec::new();
        let mut k: usize = 0;
        while k < v.fields.len()
            invariant
                k <= v.fields.len(),
                labels@.len() == k,
                forall|j: int| 0 <= j < k ==> (#[trigger] labels@[j])@ == v.fields@[j].label@,
            decreases v.fields.len() - k,
        {
            labels.push(v.fields[k].label.clone());
            k += 1;
        }
        let types = rc_fields(&v.fields, interner);
        let ctor = CtorInfo { id, arity: v.fields.len(), labels, types };
        out.push(ctor);
        proof {
            let next = vs@.take(i + 1);
            assert forall|k: int| 0 <= k < before.len() implies types_below(
                (#[trigger] before[k]).types@,
                interner@.len(),
            ) by {
                lemma_types_below(before[k].types@, names.len(), interner@.len());
            }
            assert(next.drop_last() =~= vs@.take(i as int));
            assert(next.last() == *v);
            assert(out@.drop_last() =~= before);
            assert(texts(labels@) =~= field_labels(v.fields@));
            assert(lowered_variants(next.drop_last(), old(interner)@) == (
                ctor_views(before),
                names,
            ));
            let (ft, after) = lowered_fields(v.fields@, with(names, v.name@));
            assert(ctor_view(ctor) == (CtorView {
                id: id_in(names, v.name@),
                labels: field_labels(v.fields@),
                types: ft,
            }));
            assert(ctor_views(out@) == ctor_views(before).push(ctor_view(ctor)));
        }
        i += 1;
    }
    proof {
        assert(vs@.take(i as int) =~= vs@);
        let c = TypeCtors { ctors: out, infinite: false };
        assert forall|a: int, b: int|
            0 <= a < c.ctors@.len() && 0 <= b < c.ctors@[a].types@.len() implies type_wf(
            #[trigger] c.ctors@[a].types@[b],
        ) by {
            assert(types_wf(out@[a].types@));
        }
        assert forall|a: int, b: int|
            0 <= a < c.ctors@.len() && 0 <= b < c.ctors@[a].types@.len() implies ids_below(
            #[trigger] c.ctors@[a].types@[b],
            interner@.len(),
        ) by {
            assert(types_below(out@[a].types@, interner@.len()));
        }
    }
    out
}

/// Resolves a constructor pattern's head to the variant it names.
///
/// A pattern's head is whatever name is in scope where it is written, and an
/// aliased import (`{Circle as Round}`) makes that differ from the variant's
/// declared name. Only the compiler's scope knows the two are one
/// constructor, so it answers here, with the variant's index in its type's
/// declaration order.
pub trait CtorResolver {
    /// What [`Self::variant_index`] answers.
    spec fn resolves(&self, qualifier: Option<Seq<char>>, name: Seq<char>) -> Option<nat>;

    /// Index of the variant `qualifier`-qualified `name` denotes, in the
    /// declaration order of the type that owns it. `None` when the head does
    /// not resolve to a constructor.
    fn variant_index(&self, qualifier: Option<&str>, name: &str) -> (r: Option<usize>)
        ensures
            match r {
                Some(i) => self.resolves(opt_text(qualifier), name@) == Some(i as nat),
                None => self.resolves(opt_text(qualifier), name@) is None,
            },
    ;
}

pub open spec fn opt_text(s: Option<&str>) -> Option<Seq<char>> {
    match s {
        Some(t) => Some(t@),
        None => None,
    }
}

pub open spec fn opt_name(i: Option<Identifier>) -> Option<Seq<char>> {
    match i {
        Some(t) => Some(t.name@),
        None => None,
    }
}

/// Resolves nothing: every head falls back to matching on its written name.
pub struct NoCtorResolver;

impl CtorResolver for NoCtorResolver {
    open spec fn resolves(&self, qualifier: Option<Seq<char>>, name: Seq<char>) -> Option<nat> {
        None
    }

    fn variant_index(&self, _qualifier: Option<&str>, _name: &str) -> (r: Option<usize>) {
        None
    }
}

/// A number by its value, or by its digits when that is too large.
pub open spec fn number_key(n: NumberLiteral) -> Seq<char> {
    match n.int {
        Some(i) => decimal_int(i as int),
        None => n.digits@,
    }
}

/// A place in the source, as two numbers.
pub open spec fn place_key(s: Span) -> Seq<char> {
    decimal_int(s.start_line as int) + ":"@ + decimal_int(s.start_column as int)
}

/// What a segment of a `<<>>` pattern matches. A string is preceded by its
/// length in bytes, so no two values run together; what is not a literal is
/// told apart by its place.
pub open spec fn segment_value_key(p: Pattern) -> Seq<char> {
    match p {
        Pattern::Var { name } => "_"@,
        Pattern::Literal(PatternLiteral::Number(n)) => number_key(n),
        Pattern::Literal(PatternLiteral::String(s)) => "s"@ + decimal(
            encode_utf8(s.value@).len(),
        ) + ":"@ + s.value@,
        _ => "@"@ + place_key(p.spec_span()),
    }
}

pub open spec fn spec_size(s: BinSpec) -> Option<SizeExpr> {
    match s {
        BinSpec::Int { bits } => bits,
        BinSpec::Binary { bytes } => bytes,
        BinSpec::Utf8 => None,
    }
}

/// A segment's kind, which also fixes the unit of its size, and its size.
pub open spec fn segment_spec_key(s: BinSpec) -> Seq<char> {
    (match s {
        BinSpec::Int { bits } => "i"@,
        BinSpec::Binary { bytes } => "b"@,
        BinSpec::Utf8 => "u"@,
    }) + match spec_size(s) {
        None => Seq::empty(),
        Some(SizeExpr::NumberLiteral(n)) => number_key(n),
        Some(SizeExpr::Other { span }) => "?"@ + place_key(span),
    }
}

pub open spec fn segments_key(ss: Seq<BinSegmentPat>) -> Seq<char>
    decreases ss.len(),
{
    if ss.len() == 0 {
        Seq::empty()
    } else {
        segments_key(ss.drop_last()) + segment_value_key(ss.last().value) + segment_spec_key(
            ss.last().spec,
        ) + ","@
    }
}

/// The key of a `<<>>` pattern's shape: patterns with one key match the same
/// binaries.
pub open spec fn bin_key(ss: Seq<BinSegmentPat>, has_rest: bool) -> Seq<char> {
    "#bin:"@ + segments_key(ss) + if has_rest {
        ".."@
    } else {
        Seq::empty()
    }
}

fn push_int_key(key: &mut String, n: &NumberLiteral)
    ensures
        final(key)@ == old(key)@ + number_key(*n),
{
    match n.int {
        Some(i) => push_decimal_int(key, i),
        None => key.append(n.digits.as_str()),
    }
}

fn push_place_key(key: &mut String, s: Span)
    ensures
        final(key)@ == old(key)@ + place_key(s),
{
    push_decimal_int(key, s.start_line as i64);
    key.append(":");
    push_decimal_int(key, s.start_column as i64);
    proof {
        assert(key@ =~= old(key)@ + place_key(s));
    }
}

fn push_segment_key(key: &mut String, seg: &BinSegmentPat)
    ensures
        final(key)@ == old(key)@ + segment_value_key(seg.value) + segment_spec_key(seg.spec)
            + ","@,
{
    match &seg.value {
        Pattern::Var { name: _ } => key.append("_"),
        Pattern::Literal(PatternLiteral::Number(n)) => push_int_key(key, n),
        Pattern::Literal(PatternLiteral::String(s)) => {
            key.append("s");
            let n: usize = s.value.as_str().as_bytes().len();
            push_decimal(key, n as u64);
            key.append(":");
            key.append(s.value.as_str());
        },
        other => {
            key.append("@");
            push_place_key(key, other.span());
        },
    }
    proof {
        assert(key@ =~= old(key)@ + segment_value_key(seg.value));
    }
    let ghost mid = key@;
    let size: Option<&SizeExpr> = match &seg.spec {
        BinSpec::Int { bits } => {
            key.append("i");
            bits.as_ref()
        },
        BinSpec::Binary { bytes } => {
            key.append("b");
            bytes.as_ref()
        },
        BinSpec::Utf8 => {
            key.append("u");
            None
        },
    };
    match size {
        None => {},
        Some(SizeExpr::NumberLiteral(n)) => push_int_key(key, n),
        Some(SizeExpr::Other { span }) => {
            key.append("?");
            push_place_key(key, *span);
        },
    }
    proof {
        assert(key@ =~= mid + segment_spec_key(seg.spec));
    }
    key.append(",");
}

/// The key of a `<<>>` pattern's shape.
pub fn bin_pattern_key(segments: &Vec<BinSegmentPat>, has_rest: bool) -> (r: String)
    ensures
        r@ == bin_key(segments@, has_rest),
{
    let mut key = "#bin:".to_owned();
    let mut i: usize = 0;
    proof {
        assert(segments@.take(0) =~= Seq::empty());
        assert(key@ =~= "#bin:"@ + segments_key(segments@.take(0)));
    }
    while i < segments.len()
        invariant
            i <= segments.len(),
            key@ == "#bin:"@ + segments_key(segments@.take(i as int)),
        decreases segments.len() - i,
    {
        push_segment_key(&mut key, &segments[i]);
        proof {
            let next = segments@.take(i + 1);
            assert(next.drop_last() =~= segments@.take(i as int));
            assert(key@ =~= "#bin:"@ + segments_key(next));
        }
        i += 1;
    }
    proof {
        assert(segments@.take(i as int) =~= segments@);
    }
    if has_rest {
        key.append("..");
    }
    proof {
        assert(key@ =~= bin_key(segments@, has_rest));
    }
    key
}

pub open spec fn arg_label(a: PatternArg) -> Option<Seq<char>> {
    match a {
        PatternArg::Positional(p) => None,
        PatternArg::Labeled { label, pattern } => Some(label.name@),
    }
}

pub open spec fn arg_labels(args: Seq<PatternArg>) -> Seq<Option<Seq<char>>> {
    args.map_values(|a: PatternArg| arg_label(a))
}

/// The label of each of a constructor's fields.
pub open spec fn sig_fields(c: CtorSig) -> Seq<Option<Seq<char>>> {
    Seq::new(
        c.types.len(),
        |i: int|
            if i < c.labels.len() {
                Some(c.labels[i])
            } else {
                None
            },
    )
}

/// The `i`th type, or one with no known constructors past the end.
pub open spec fn type_at(ts: Seq<RcType>, i: int) -> RcType {
    if 0 <= i < ts.len() {
        ts[i]
    } else {
        RcType::Infinite
    }
}

/// The element types of a tuple type; none for any other.
pub open spec fn tuple_types(t: RcType) -> Seq<RcType> {
    match t {
        RcType::Tuple(c) => c.ctors@[0].types@,
        _ => Seq::empty(),
    }
}

/// The element type of an array type; unknown for any other.
pub open spec fn element_type(t: RcType) -> RcType {
    match t {
        RcType::Array(a) => a.element,
        _ => RcType::Infinite,
    }
}

pub open spec fn nullary_view(id: u32) -> PatView {
    PatView::Ctor { id, args: Seq::empty() }
}

/// A constructor with no arguments, named `key`.
pub open spec fn keyed(key: Seq<char>, names: Names) -> (PatView, Names) {
    (nullary_view(id_in(names, key)), with(names, key))
}

/// The constructor a pattern's head names in `t`: the variant its scope
/// resolves it to, or the one with the written name. The names change only in
/// the second case.
pub open spec fn head_of<R: CtorResolver>(
    t: RcType,
    qualifier: Option<Seq<char>>,
    name: Seq<char>,
    names: Names,
    res: &R,
) -> (u32, Option<CtorSig>, Names) {
    let cs = ctors_of(t);
    match res.resolves(qualifier, name) {
        Some(i) => if i < cs.len() {
            (cs[i as int].id, Some(cs[i as int]), names)
        } else {
            named_head(t, name, names)
        },
        None => named_head(t, name, names),
    }
}

pub open spec fn named_head(t: RcType, name: Seq<char>, names: Names) -> (
    u32,
    Option<CtorSig>,
    Names,
) {
    let id = id_in(names, name);
    (id, find_sig(ctors_of(t), id), with(names, name))
}

/// A pattern lowered against the type of what it matches, and the names met
/// on the way.
pub open spec fn lowered<R: CtorResolver>(
    p: Pattern,
    t: RcType,
    names: Names,
    res: &R,
) -> (PatView, Names)
    decreases p, 0nat,
{
    match p {
        Pattern::Var { name } => (PatView::Wildcard, names),
        // By value, not by spelling: `0xFF` and `255` are one arm.
        Pattern::Literal(PatternLiteral::Number(n)) => keyed("lit:"@ + number_key(n), names),
        Pattern::Literal(PatternLiteral::String(s)) => keyed("lit:'"@ + s.value@ + "'"@, names),
        Pattern::Constructor { qualifier, name, args, rest, span } => {
            let (id, sig, names) = head_of(t, opt_name(qualifier), name.name@, names, res);
            match sig {
                // Arguments go to their fields in declaration order; a field
                // without one matches anything.
                Some(c) => {
                    let slots = slotted(sig_fields(c), arg_labels(args@));
                    let (ps, names) = lowered_slots(args@, slots, c.types, names, res, slots.len());
                    (PatView::Ctor { id, args: ps }, names)
                },
                None => {
                    let (ps, names) = lowered_args(args@, names, res);
                    (PatView::Ctor { id, args: ps }, names)
                },
            }
        },
        Pattern::Tuple { elements, span } => {
            let (ps, names) = lowered_each(elements@, tuple_types(t), false, names, res);
            let name = tuple_name(elements@.len());
            (PatView::Ctor { id: id_in(names, name), args: ps }, with(names, name))
        },
        Pattern::Array { elements, span } => lowered_elements(
            elements@,
            element_type(t),
            names,
            res,
        ),
        // `<<..rest>>` alone matches every binary; any other shape is opaque.
        Pattern::Binary { segments, rest, span } => if segments@.len() == 0 && rest is Some {
            (PatView::Wildcard, names)
        } else {
            keyed(bin_key(segments@, rest is Some), names)
        },
        Pattern::Or { first, rest, span } => {
            let (a, names) = lowered(*first, t, names, res);
            let (ps, names) = lowered_each(rest@, seq![t], true, names, res);
            (PatView::Or { patterns: seq![a] + ps }, names)
        },
        Pattern::Range { start, end, span } => keyed(
            "range:"@ + start.value@ + ".."@ + end.value@,
            names,
        ),
    }
}

pub open spec fn lowered_arg<R: CtorResolver>(
    a: PatternArg,
    t: RcType,
    names: Names,
    res: &R,
) -> (PatView, Names)
    decreases a, 0nat,
{
    match a {
        PatternArg::Positional(p) => lowered(p, t, names, res),
        PatternArg::Labeled { label, pattern } => lowered(pattern, t, names, res),
    }
}

/// The first `n` fields, each with the argument its slot names.
pub open spec fn lowered_slots<R: CtorResolver>(
    args: Seq<PatternArg>,
    slots: Seq<Option<nat>>,
    types: Seq<RcType>,
    names: Names,
    res: &R,
    n: nat,
) -> (Seq<PatView>, Names)
    decreases args, n,
{
    if n == 0 {
        (Seq::empty(), names)
    } else {
        let (before, names) = lowered_slots(args, slots, types, names, res, (n - 1) as nat);
        match slots[n - 1] {
            Some(a) => if a < args.len() {
                let (last, names) = lowered_arg(args[a as int], types[n - 1], names, res);
                (before.push(last), names)
            } else {
                (before.push(PatView::Wildcard), names)
            },
            None => (before.push(PatView::Wildcard), names),
        }
    }
}

/// The arguments of a constructor the type does not have, in source order.
pub open spec fn lowered_args<R: CtorResolver>(
    args: Seq<PatternArg>,
    names: Names,
    res: &R,
) -> (Seq<PatView>, Names)
    decreases args, 0nat,
{
    if args.len() == 0 {
        (Seq::empty(), names)
    } else {
        let (before, names) = lowered_args(args.drop_last(), names, res);
        let (last, names) = lowered_arg(args.last(), RcType::Infinite, names, res);
        (before.push(last), names)
    }
}

/// Each pattern against the type at its place, or all against the one type.
pub open spec fn lowered_each<R: CtorResolver>(
    ps: Seq<Pattern>,
    ts: Seq<RcType>,
    same: bool,
    names: Names,
    res: &R,
) -> (Seq<PatView>, Names)
    decreases ps, 0nat,
{
    if ps.len() == 0 {
        (Seq::empty(), names)
    } else {
        let (before, names) = lowered_each(ps.drop_last(), ts, same, names, res);
        let t = if same {
            ts[0]
        } else {
            type_at(ts, ps.len() - 1)
        };
        let (last, names) = lowered(ps.last(), t, names, res);
        (before.push(last), names)
    }
}

/// An array pattern as nested `::`, built from its last element back. A
/// spread matches any tail.
pub open spec fn lowered_elements<R: CtorResolver>(
    els: Seq<ArrayPatternElement>,
    t: RcType,
    names: Names,
    res: &R,
) -> (PatView, Names)
    decreases els, 0nat,
{
    if els.len() == 0 {
        (nullary_view(EMPTY_LIST_ID), names)
    } else {
        let (tail, names) = lowered_elements(els.drop_first(), t, names, res);
        match els[0] {
            ArrayPatternElement::Spread { span } => (PatView::Wildcard, names),
            ArrayPatternElement::Pattern(p) => {
                let (head, names) = lowered(p, t, names, res);
                (PatView::Ctor { id: CONS_ID, args: seq![head, tail] }, names)
            },
        }
    }
}

fn nullary(id: u32) -> (r: Pat)
    ensures
        pat_view(r) == nullary_view(id),
{
    let args: Vec<Pat> = Vec::new();
    proof {
        assert(pat_views(args@) =~= Seq::empty());
    }
    Pat::Ctor { id, args: Rc::new(args) }
}

/// Lower a written pattern against the type of what it matches, naming its
/// constructors in `interner` and resolving their heads through `ctors`.
pub fn lower_pattern<R: CtorResolver>(
    p: &Pattern,
    t: &RcType,
    interner: &mut Interner,
    ctors: &R,
) -> (r: Pat)
    requires
        old(interner).wf(),
        type_wf(*t),
    ensures
        final(interner).wf(),
        final(interner)@.len() >= old(interner)@.len(),
        (pat_view(r), final(interner)@) == lowered(*p, *t, old(interner)@, ctors),
    decreases p, 0nat,
{
    match p {
        Pattern::Var { name: _ } => Pat::Wildcard,
        Pattern::Literal(lit) => {
            match lit {
                PatternLiteral::Number(n) => {
                    let mut key = "lit:".to_owned();
                    push_int_key(&mut key, n);
                    nullary(interner.intern(key.as_str()))
                },
                PatternLiteral::String(s) => {
                    let mut key = "lit:'".to_owned();
                    key.append(s.value.as_str());
                    key.append("'");
                    nullary(interner.intern(key.as_str()))
                },
            }
        },
        Pattern::Constructor { qualifier, name, args, rest: _, span: _ } => {
            let type_ctors = get_type_ctors(t);
            let q: Option<&str> = match qualifier {
                Some(i) => Some(i.name.as_str()),
                None => None,
            };
            let by_index = match ctors.variant_index(q, name.name.as_str()) {
                Some(i) => if i < type_ctors.ctors.len() {
                    Some(i)
                } else {
                    None
                },
                None => None,
            };
            let ghost start = interner@;
            let ghost head = head_of(*t, opt_name(*qualifier), name.name@, start, ctors);
            proof {
                assert(opt_text(q) == opt_name(*qualifier));
                if let Some(i) = by_index {
                    lemma_ctor_sig(type_ctors.ctors@, i as int);
                }
            }
            let (id, resolved): (u32, Option<&CtorInfo>) = match by_index {
                Some(i) => (type_ctors.ctors[i].id, Some(&type_ctors.ctors[i])),
                None => {
                    let id: u32 = interner.intern(name.name.as_str());
                    (id, type_ctors.find(id))
                },
            };
            proof {
                assert(id == head.0);
                assert(interner@ == head.2);
                assert(match resolved {
                    Some(c) => head.1 == Some(sig_of(*c)) && type_ctors.ctors@.contains(*c),
                    None => head.1 is None,
                }) by {
                    if let Some(i) = by_index {
                        assert(type_ctors.ctors@[i as int] == *resolved->0);
                    }
                }
            }
            let pat_args: Vec<Pat> = match resolved {
                Some(ctor) => {
                    proof {
                        let k = choose|k: int|
                            0 <= k < type_ctors.ctors@.len() && type_ctors.ctors@[k] == *ctor;
                        lemma_ctor_types_wf(type_ctors, k);
                    }
                    lower_slots(args, ctor, interner, ctors)
                },
                None => lower_args(args, interner, ctors),
            };
            let r = Pat::Ctor { id, args: Rc::new(pat_args) };
            proof {
                assert(pat_view(r) == lowered(*p, *t, start, ctors).0);
                assert(interner@ == lowered(*p, *t, start, ctors).1);
            }
            r
        },
        Pattern::Tuple { elements, span: _ } => {
            let args: Vec<Pat> = lower_tuple(elements, t, interner, ctors);
            let name = tuple_ctor_name(elements.len());
            let id: u32 = interner.intern(name.as_str());
            let r = Pat::Ctor { id, args: Rc::new(args) };
            proof {
                assert(pat_view(r) == lowered(*p, *t, old(interner)@, ctors).0);
                assert(interner@ == lowered(*p, *t, old(interner)@, ctors).1);
            }
            r
        },
        Pattern::Array { elements, span: _ } => {
            match t {
                RcType::Array(arr) => lower_elements(elements, &arr.element, interner, ctors),
                _ => lower_elements(elements, &RcType::Infinite, interner, ctors),
            }
        },
        Pattern::Binary { segments, rest, span: _ } => {
            if segments.len() == 0 && rest.is_some() {
                Pat::Wildcard
            } else {
                let key = bin_pattern_key(segments, rest.is_some());
                nullary(interner.intern(key.as_str()))
            }
        },
        Pattern::Or { first, rest, span: _ } => {
            let a = lower_pattern(first, t, interner, ctors);
            let ghost mid = interner@;
            let mut out: Vec<Pat> = Vec::new();
            out.push(a);
            proof {
                lemma_pat_views(out@);
                assert(pat_views(out@) =~= seq![pat_view(a)]);
            }
            lower_rest(rest, t, interner, ctors, &mut out);
            let r = Pat::Or { patterns: Rc::new(out) };
            proof {
                assert(lowered(**first, *t, old(interner)@, ctors) == (pat_view(a), mid));
                assert(pat_view(r) == lowered(*p, *t, old(interner)@, ctors).0);
                assert(interner@ == lowered(*p, *t, old(interner)@, ctors).1);
            }
            r
        },
        Pattern::Range { start, end, span: _ } => {
            let mut key = "range:".to_owned();
            key.append(start.value.as_str());
            key.append("..");
            key.append(end.value.as_str());
            nullary(interner.intern(key.as_str()))
        },
    }
}

fn lower_arg<R: CtorResolver>(
    a: &PatternArg,
    t: &RcType,
    interner: &mut Interner,
    ctors: &R,
) -> (r: Pat)
    requires
        old(interner).wf(),
        type_wf(*t),
    ensures
        final(interner).wf(),
        final(interner)@.len() >= old(interner)@.len(),
        (pat_view(r), final(interner)@) == lowered_arg(*a, *t, old(interner)@, ctors),
    decreases a, 0nat,
{
    match a {
        PatternArg::Positional(p) => lower_pattern(p, t, interner, ctors),
        PatternArg::Labeled { label: _, pattern } => lower_pattern(pattern, t, interner, ctors),
    }
}

/// The label of each field of `ctor`.
fn ctor_fields(ctor: &CtorInfo) -> (r: Vec<Option<String>>)
    ensures
        crate::slots::label_views(r@) == sig_fields(sig_of(*ctor)),
{
    let mut out: Vec<Option<String>> = Vec::new();
    let mut i: usize = 0;
    while i < ctor.types.len()
        invariant
            i <= ctor.types.len(),
            out@.len() == i,
            forall|k: int|
                0 <= k < i ==> crate::slots::label_view(#[trigger] out@[k]) == sig_fields(
                    sig_of(*ctor),
                )[k],
        decreases ctor.types.len() - i,
    {
        if i < ctor.labels.len() {
            out.push(Some(ctor.labels[i].clone()));
        } else {
            out.push(None);
        }
        i += 1;
    }
    proof {
        assert(crate::slots::label_views(out@) =~= sig_fields(sig_of(*ctor)));
    }
    out
}

fn labels_of(args: &Vec<PatternArg>) -> (r: Vec<Option<String>>)
    ensures
        crate::slots::label_views(r@) == arg_labels(args@),
{
    let mut out: Vec<Option<String>> = Vec::new();
    let mut i: usize = 0;
    while i < args.len()
        invariant
            i <= args.len(),
            out@.len() == i,
            forall|k: int|
                0 <= k < i ==> crate::slots::label_view(#[trigger] out@[k]) == arg_label(args@[k]),
        decreases args.len() - i,
    {
        match &args[i] {
            PatternArg::Positional(_) => out.push(None),
            PatternArg::Labeled { label, pattern: _ } => out.push(Some(label.name.clone())),
        }
        i += 1;
    }
    proof {
        assert(crate::slots::label_views(out@) =~= arg_labels(args@));
    }
    out
}

fn lower_slots<R: CtorResolver>(
    args: &Vec<PatternArg>,
    ctor: &CtorInfo,
    interner: &mut Interner,
    ctors: &R,
) -> (r: Vec<Pat>)
    requires
        old(interner).wf(),
        types_wf(ctor.types@),
    ensures
        final(interner).wf(),
        final(interner)@.len() >= old(interner)@.len(),
        ({
            let c = sig_of(*ctor);
            let slots = slotted(sig_fields(c), arg_labels(args@));
            (pat_views(r@), final(interner)@) == lowered_slots(
                args@,
                slots,
                c.types,
                old(interner)@,
                ctors,
                slots.len(),
            )
        }),
    decreases args@, 0nat,
{
    let fields = ctor_fields(ctor);
    let labels = labels_of(args);
    let (by_pos, _errors) = slot_labeled(&fields, &labels);
    let ghost slots = slotted(sig_fields(sig_of(*ctor)), arg_labels(args@));
    proof {
        crate::slots::lemma_slotted(sig_fields(sig_of(*ctor)), arg_labels(args@));
        assert(fields@.len() == crate::slots::label_views(fields@).len());
    }
    let mut out: Vec<Pat> = Vec::new();
    let mut i: usize = 0;
    proof {
        assert(pat_views(out@) =~= Seq::empty());
    }
    while i < by_pos.len()
        invariant
            i <= by_pos.len(),
            by_pos@.len() == slots.len() == ctor.types@.len(),
            interner.wf(),
            interner@.len() >= old(interner)@.len(),
            types_wf(ctor.types@),
            forall|k: int|
                0 <= k < by_pos@.len() ==> (match #[trigger] by_pos@[k] {
                    Some(a) => slots[k] == Some(a as nat) && a < args@.len(),
                    None => slots[k] is None,
                }),
            (pat_views(out@), interner@) == lowered_slots(
                args@,
                slots,
                ctor.types@,
                old(interner)@,
                ctors,
                i as nat,
            ),
        decreases by_pos.len() - i,
    {
        let ghost before = out@;
        let pat = match by_pos[i] {
            Some(a) => lower_arg(&args[a], &ctor.types[i], interner, ctors),
            None => Pat::Wildcard,
        };
        out.push(pat);
        proof {
            assert(out@.drop_last() =~= before);
        }
        i += 1;
    }
    out
}

fn lower_args<R: CtorResolver>(
    args: &Vec<PatternArg>,
    interner: &mut Interner,
    ctors: &R,
) -> (r: Vec<Pat>)
    requires
        old(interner).wf(),
    ensures
        final(interner).wf(),
        final(interner)@.len() >= old(interner)@.len(),
        (pat_views(r@), final(interner)@) == lowered_args(args@, old(interner)@, ctors),
    decreases args@, 0nat,
{
    let mut out: Vec<Pat> = Vec::new();
    let mut i: usize = 0;
    proof {
        assert(args@.take(0) =~= Seq::empty());
        assert(pat_views(out@) =~= Seq::empty());
    }
    while i < args.len()
        invariant
            i <= args.len(),
            interner.wf(),
            interner@.len() >= old(interner)@.len(),
            (pat_views(out@), interner@) == lowered_args(
                args@.take(i as int),
                old(interner)@,
                ctors,
            ),
        decreases args.len() - i,
    {
        let ghost before = out@;
        let pat = lower_arg(&args[i], &RcType::Infinite, interner, ctors);
        out.push(pat);
        proof {
            assert(args@.take(i + 1).drop_last() =~= args@.take(i as int));
            assert(out@.drop_last() =~= before);
        }
        i += 1;
    }
    proof {
        assert(args@.take(i as int) =~= args@);
    }
    out
}

proof fn lemma_tuple_types_wf(t: RcType)
    requires
        type_wf(t),
    ensures
        types_wf(tuple_types(t)),
{
    if let RcType::Tuple(c) = t {
        assert forall|j: int| 0 <= j < c.ctors@[0].types@.len() implies type_wf(
            #[trigger] c.ctors@[0].types@[j],
        ) by {
            assert(ctors_wf(*c));
        }
    }
}

fn lower_tuple<R: CtorResolver>(
    ps: &Vec<Pattern>,
    t: &RcType,
    interner: &mut Interner,
    ctors: &R,
) -> (r: Vec<Pat>)
    requires
        old(interner).wf(),
        type_wf(*t),
    ensures
        final(interner).wf(),
        final(interner)@.len() >= old(interner)@.len(),
        (pat_views(r@), final(interner)@) == lowered_each(
            ps@,
            tuple_types(*t),
            false,
            old(interner)@,
            ctors,
        ),
    decreases ps@, 0nat,
{
    let ghost ts = tuple_types(*t);
    let mut out: Vec<Pat> = Vec::new();
    let mut i: usize = 0;
    proof {
        assert(ps@.take(0) =~= Seq::empty());
        assert(pat_views(out@) =~= Seq::empty());
        lemma_tuple_types_wf(*t);
    }
    while i < ps.len()
        invariant
            i <= ps.len(),
            interner.wf(),
            interner@.len() >= old(interner)@.len(),
            type_wf(*t),
            ts == tuple_types(*t),
            types_wf(ts),
            (pat_views(out@), interner@) == lowered_each(
                ps@.take(i as int),
                ts,
                false,
                old(interner)@,
                ctors,
            ),
        decreases ps.len() - i,
    {
        let ghost before = out@;
        proof {
            assert(ps@.take(i + 1).drop_last() =~= ps@.take(i as int));
            assert(ps@.take(i + 1).last() == ps@[i as int]);
        }
        let pat = match t {
            RcType::Tuple(c) => if i < c.ctors[0].types.len() {
                lower_pattern(&ps[i], &c.ctors[0].types[i], interner, ctors)
            } else {
                lower_pattern(&ps[i], &RcType::Infinite, interner, ctors)
            },
            _ => lower_pattern(&ps[i], &RcType::Infinite, interner, ctors),
        };
        out.push(pat);
        proof {
            assert(out@.drop_last() =~= before);
        }
        i += 1;
    }
    proof {
        assert(ps@.take(i as int) =~= ps@);
    }
    out
}

fn lower_rest<R: CtorResolver>(
    ps: &Vec<Pattern>,
    t: &RcType,
    interner: &mut Interner,
    ctors: &R,
    out: &mut Vec<Pat>,
)
    requires
        old(interner).wf(),
        type_wf(*t),
    ensures
        final(interner).wf(),
        final(interner)@.len() >= old(interner)@.len(),
        ({
            let (views, names) = lowered_each(ps@, seq![*t], true, old(interner)@, ctors);
            pat_views(final(out)@) == pat_views(old(out)@) + views && final(interner)@ == names
        }),
    decreases ps@, 0nat,
{
    let mut i: usize = 0;
    proof {
        assert(ps@.take(0) =~= Seq::empty());
        assert(pat_views(out@) =~= pat_views(old(out)@) + Seq::empty());
    }
    while i < ps.len()
        invariant
            i <= ps.len(),
            interner.wf(),
            interner@.len() >= old(interner)@.len(),
            type_wf(*t),
            ({
                let (views, names) = lowered_each(
                    ps@.take(i as int),
                    seq![*t],
                    true,
                    old(interner)@,
                    ctors,
                );
                pat_views(out@) == pat_views(old(out)@) + views && interner@ == names
            }),
        decreases ps.len() - i,
    {
        let ghost before = out@;
        proof {
            assert(ps@.take(i + 1).drop_last() =~= ps@.take(i as int));
            assert(ps@.take(i + 1).last() == ps@[i as int]);
        }
        let pat = lower_pattern(&ps[i], t, interner, ctors);
        out.push(pat);
        proof {
            assert(out@.drop_last() =~= before);
            let views = lowered_each(ps@.take(i + 1), seq![*t], true, old(interner)@, ctors).0;
            assert(pat_views(out@) =~= pat_views(old(out)@) + views);
        }
        i += 1;
    }
    proof {
        assert(ps@.take(i as int) =~= ps@);
    }
}

fn lower_elements<R: CtorResolver>(
    els: &Vec<ArrayPatternElement>,
    t: &RcType,
    interner: &mut Interner,
    ctors: &R,
) -> (r: Pat)
    requires
        old(interner).wf(),
        type_wf(*t),
    ensures
        final(interner).wf(),
        final(interner)@.len() >= old(interner)@.len(),
        (pat_view(r), final(interner)@) == lowered_elements(els@, *t, old(interner)@, ctors),
    decreases els@, 0nat,
{
    let mut acc = nullary(EMPTY_LIST_ID);
    let mut i: usize = els.len();
    proof {
        assert(els@.skip(i as int) =~= Seq::empty());
    }
    while i > 0
        invariant
            i <= els.len(),
            interner.wf(),
            interner@.len() >= old(interner)@.len(),
            type_wf(*t),
            (pat_view(acc), interner@) == lowered_elements(
                els@.skip(i as int),
                *t,
                old(interner)@,
                ctors,
            ),
        decreases i,
    {
        i -= 1;
        proof {
            assert(els@.skip(i as int).drop_first() =~= els@.skip(i + 1));
            assert(els@.skip(i as int)[0] == els@[i as int]);
        }
        match &els[i] {
            ArrayPatternElement::Spread { span: _ } => {
                acc = Pat::Wildcard;
            },
            ArrayPatternElement::Pattern(p) => {
                let head = lower_pattern(p, t, interner, ctors);
                let mut args: Vec<Pat> = Vec::new();
                let ghost tail = acc;
                args.push(head);
                args.push(acc);
                proof {
                    lemma_pat_views(args@);
                    assert(pat_views(args@) =~= seq![pat_view(head), pat_view(tail)]);
                }
                acc = Pat::Ctor { id: CONS_ID, args: Rc::new(args) };
            },
        }
    }
    proof {
        assert(els@.skip(0) =~= els@);
    }
    acc
}

/// How a pattern is written, its constructors named by `names`.
pub open spec fn rendered(p: PatView, t: RcType, names: Names) -> Seq<char>
    decreases p, 1nat,
{
    match p {
        PatView::Wildcard => "_"@,
        PatView::Ctor { id, args } => if id == EMPTY_LIST_ID {
            "[]"@
        } else if id == CONS_ID {
            "["@ + joined(rendered_list(p, element_type(t), names), ", "@) + "]"@
        } else {
            let name = names[id as int];
            let types = match find_sig(ctors_of(t), id) {
                Some(c) => c.types,
                None => Seq::empty(),
            };
            let parts = rendered_args(args, types, names);
            if "#tuple"@.is_prefix_of(name) {
                "("@ + joined(parts, ", "@) + ")"@
            } else if parts.len() == 0 {
                name
            } else {
                name + "("@ + joined(parts, ", "@) + ")"@
            }
        },
        PatView::Or { patterns } => joined(rendered_all(patterns, t, names), " | "@),
    }
}

/// The items of an array pattern; a tail that is not spelled out shows as
/// `..`.
pub open spec fn rendered_list(p: PatView, element: RcType, names: Names) -> Seq<Seq<char>>
    decreases p, 0nat,
{
    match p {
        PatView::Ctor { id, args } => if id == CONS_ID && args.len() == 2 {
            seq![rendered(args[0], element, names)] + rendered_list(args[1], element, names)
        } else if id == EMPTY_LIST_ID {
            Seq::empty()
        } else {
            seq![".."@]
        },
        _ => seq![".."@],
    }
}

pub open spec fn rendered_args(args: Seq<PatView>, types: Seq<RcType>, names: Names) -> Seq<
    Seq<char>,
>
    decreases args, 0nat,
{
    if args.len() == 0 {
        Seq::empty()
    } else {
        rendered_args(args.drop_last(), types, names).push(
            rendered(args.last(), type_at(types, args.len() - 1), names),
        )
    }
}

pub open spec fn rendered_all(ps: Seq<PatView>, t: RcType, names: Names) -> Seq<Seq<char>>
    decreases ps, 0nat,
{
    if ps.len() == 0 {
        Seq::empty()
    } else {
        rendered_all(ps.drop_last(), t, names).push(rendered(ps.last(), t, names))
    }
}

/// Every constructor id in `p` is below `n`.
pub open spec fn pat_below(p: PatView, n: nat) -> bool
    decreases p,
{
    match p {
        PatView::Wildcard => true,
        PatView::Ctor { id, args } => id < n && pats_below(args, n),
        PatView::Or { patterns } => pats_below(patterns, n),
    }
}

pub open spec fn pats_below(ps: Seq<PatView>, n: nat) -> bool
    decreases ps,
{
    forall|i: int| 0 <= i < ps.len() ==> pat_below(#[trigger] ps[i], n)
}

/// A pattern as source text writes it.
pub fn pat_to_string(p: &Pat, t: &RcType, interner: &Interner) -> (r: String)
    requires
        type_wf(*t),
        pat_below(pat_view(*p), interner@.len()),
    ensures
        r@ == rendered(pat_view(*p), *t, interner@),
    decreases p, 1nat,
{
    match p {
        Pat::Wildcard => "_".to_owned(),
        Pat::Ctor { id, args } => {
            proof {
                lemma_pat_views(args@);
            }
            if *id == EMPTY_LIST_ID {
                return "[]".to_owned();
            }
            if *id == CONS_ID {
                let mut heads: Vec<String> = Vec::new();
                match t {
                    RcType::Array(arr) => {
                        list_to_strings(p, &arr.element, interner, &mut heads);
                    },
                    _ => {
                        list_to_strings(p, &RcType::Infinite, interner, &mut heads);
                    },
                }
                let mut out = "[".to_owned();
                let list = join(&heads, ", ");
                proof {
                    assert(texts(heads@) =~= rendered_list(
                        pat_view(*p),
                        element_type(*t),
                        interner@,
                    ));
                }
                out.append(list.as_str());
                out.append("]");
                return out;
            }
            let name = interner.name(*id);
            let type_ctors = get_type_ctors(t);
            let no_types: Vec<RcType> = Vec::new();
            let found = type_ctors.find(*id);
            let types: &Vec<RcType> = match found {
                Some(c) => &c.types,
                None => &no_types,
            };
            proof {
                if let Some(c) = found {
                    let k = choose|k: int|
                        0 <= k < type_ctors.ctors@.len() && type_ctors.ctors@[k] == *c;
                    lemma_ctor_types_wf(type_ctors, k);
                }
                assert(no_types@ =~= Seq::empty());
            }
            let parts = args_to_strings(args, types, interner);
            let list = join(&parts, ", ");
            if starts_with(name, "#tuple") {
                let mut out = "(".to_owned();
                out.append(list.as_str());
                out.append(")");
                return out;
            }
            proof {
                assert(texts(parts@).len() == parts@.len());
            }
            if parts.len() == 0 {
                return name.to_owned();
            }
            let mut out = name.to_owned();
            out.append("(");
            out.append(list.as_str());
            out.append(")");
            out
        },
        Pat::Or { patterns } => {
            proof {
                lemma_pat_views(patterns@);
            }
            let parts = all_to_strings(patterns, t, interner);
            join(&parts, " | ")
        },
    }
}

fn list_to_strings(p: &Pat, element: &RcType, interner: &Interner, out: &mut Vec<String>)
    requires
        type_wf(*element),
        pat_below(pat_view(*p), interner@.len()),
    ensures
        texts(final(out)@) == texts(old(out)@) + rendered_list(
            pat_view(*p),
            *element,
            interner@,
        ),
    decreases p, 0nat,
{
    match p {
        Pat::Ctor { id, args } => {
            proof {
                lemma_pat_views(args@);
            }
            if *id == CONS_ID && args.len() == 2 {
                proof {
                    assert(pat_views(args@)[0] == pat_view(args@[0]));
                    assert(pat_views(args@)[1] == pat_view(args@[1]));
                }
                let head = pat_to_string(&args[0], element, interner);
                let ghost before = out@;
                out.push(head);
                proof {
                    assert(texts(out@) =~= texts(before).push(head@));
                }
                list_to_strings(&args[1], element, interner, out);
                proof {
                    assert(texts(out@) =~= texts(before) + rendered_list(
                        pat_view(*p),
                        *element,
                        interner@,
                    ));
                }
            } else if *id == EMPTY_LIST_ID {
                proof {
                    assert(texts(out@) =~= texts(out@) + Seq::empty());
                }
            } else {
                let ghost before = out@;
                out.push("..".to_owned());
                proof {
                    assert(texts(out@) =~= texts(before) + seq![".."@]);
                }
            }
        },
        _ => {
            let ghost before = out@;
            out.push("..".to_owned());
            proof {
                assert(texts(out@) =~= texts(before) + seq![".."@]);
            }
        },
    }
}

fn args_to_strings(args: &Vec<Pat>, types: &Vec<RcType>, interner: &Interner) -> (r: Vec<String>)
    requires
        types_wf(types@),
        pats_below(pat_views(args@), interner@.len()),
    ensures
        texts(r@) == rendered_args(pat_views(args@), types@, interner@),
    decreases args@, 0nat,
{
    let ghost views = pat_views(args@);
    let mut out: Vec<String> = Vec::new();
    let mut i: usize = 0;
    proof {
        lemma_pat_views(args@);
        assert(views.take(0) =~= Seq::empty());
        assert(texts(out@) =~= Seq::empty());
    }
    while i < args.len()
        invariant
            i <= args.len(),
            views == pat_views(args@),
            views.len() == args@.len(),
            types_wf(types@),
            pats_below(views, interner@.len()),
            forall|k: int| 0 <= k < args@.len() ==> #[trigger] views[k] == pat_view(args@[k]),
            texts(out@) == rendered_args(views.take(i as int), types@, interner@),
        decreases args.len() - i,
    {
        let ghost before = out@;
        proof {
            assert(views[i as int] == pat_view(args@[i as int]));
            assert(views.take(i + 1).drop_last() =~= views.take(i as int));
        }
        let part = if i < types.len() {
            pat_to_string(&args[i], &types[i], interner)
        } else {
            pat_to_string(&args[i], &RcType::Infinite, interner)
        };
        out.push(part);
        proof {
            assert(texts(out@) =~= texts(before).push(part@));
        }
        i += 1;
    }
    proof {
        assert(views.take(i as int) =~= views);
    }
    out
}

fn all_to_strings(ps: &Vec<Pat>, t: &RcType, interner: &Interner) -> (r: Vec<String>)
    requires
        type_wf(*t),
        pats_below(pat_views(ps@), interner@.len()),
    ensures
        texts(r@) == rendered_all(pat_views(ps@), *t, interner@),
    decreases ps@, 0nat,
{
    let ghost views = pat_views(ps@);
    let mut out: Vec<String> = Vec::new();
    let mut i: usize = 0;
    proof {
        lemma_pat_views(ps@);
        assert(views.take(0) =~= Seq::empty());
        assert(texts(out@) =~= Seq::empty());
    }
    while i < ps.len()
        invariant
            i <= ps.len(),
            views == pat_views(ps@),
            views.len() == ps@.len(),
            type_wf(*t),
            pats_below(views, interner@.len()),
            forall|k: int| 0 <= k < ps@.len() ==> #[trigger] views[k] == pat_view(ps@[k]),
            texts(out@) == rendered_all(views.take(i as int), *t, interner@),
        decreases ps.len() - i,
    {
        let ghost before = out@;
        proof {
            assert(views[i as int] == pat_view(ps@[i as int]));
            assert(views.take(i + 1).drop_last() =~= views.take(i as int));
        }
        let part = pat_to_string(&ps[i], t, interner);
        out.push(part);
        proof {
            assert(texts(out@) =~= texts(before).push(part@));
        }
        i += 1;
    }
    proof {
        assert(views.take(i as int) =~= views);
    }
    out
}

proof fn lemma_ctors_below(t: RcType, n: nat, k: int)
    requires
        ids_below(t, n),
        0 <= k < ctors_of(t).len(),
    ensures
        ctors_of(t)[k].id < n,
        types_below(ctors_of(t)[k].types, n),
{
    match t {
        RcType::Infinite => {},
        RcType::Array(a) => {},
        RcType::Named(c) => {
            assert(ctors_below(*c, n));
            assert(ctors_of(t)[k] == sig_of(c.ctors@[k]));
            assert forall|j: int| 0 <= j < c.ctors@[k].types@.len() implies ids_below(
                #[trigger] ctors_of(t)[k].types[j],
                n,
            ) by {
                assert(ids_below(c.ctors@[k].types@[j], n));
            }
        },
        RcType::Tuple(c) => {
            assert(ctors_below(*c, n));
            assert(ctors_of(t)[k] == sig_of(c.ctors@[k]));
            assert forall|j: int| 0 <= j < c.ctors@[k].types@.len() implies ids_below(
                #[trigger] ctors_of(t)[k].types[j],
                n,
            ) by {
                assert(ids_below(c.ctors@[k].types@[j], n));
            }
        },
    }
}

pub proof fn lemma_first_missing_is(rows: Seq<Seq<Pat>>, cs: Seq<CtorSig>)
    ensures
        match first_missing(rows, cs) {
            Some(c) => exists|k: int|
                0 <= k < cs.len() && #[trigger] cs[k] == c && !is_seen(rows, c.id),
            None => forall|k: int| 0 <= k < cs.len() ==> is_seen(rows, (#[trigger] cs[k]).id),
        },
    decreases cs.len(),
{
    if cs.len() > 0 {
        if !is_seen(rows, cs[0].id) {
            assert(cs[0] == first_missing(rows, cs)->0);
        } else {
            let rest = cs.drop_first();
            lemma_first_missing_is(rows, rest);
            match first_missing(rows, rest) {
                Some(c) => {
                    let k = choose|k: int|
                        0 <= k < rest.len() && #[trigger] rest[k] == c && !is_seen(rows, c.id);
                    assert(cs[k + 1] == c);
                },
                None => {
                    assert forall|k: int| 0 <= k < cs.len() implies is_seen(
                        rows,
                        (#[trigger] cs[k]).id,
                    ) by {
                        if k > 0 {
                            assert(rest[k - 1] == cs[k]);
                        }
                    }
                },
            }
        }
    }
}

proof fn lemma_witness_below(rows: Seq<Seq<Pat>>, ts: Seq<RcType>, n: nat)
    requires
        types_below(ts, n),
    ensures
        witness(rows, ts) matches Some(w) ==> pats_below(w, n),
    decreases rows_weight(rows), ts.len(), 1nat, 0nat,
{
    if ts.len() > 0 {
        lemma_step_weight(rows, 0, 0);
        if is_complete_in(rows, ts[0]) {
            lemma_witness_from_below(rows, ts, 0, n);
        } else {
            assert(types_below(ts.drop_first(), n));
            lemma_witness_below(defaulted(heads(rows)), ts.drop_first(), n);
            lemma_first_missing_is(rows, ctors_of(ts[0]));
            if let Some(c) = first_missing(rows, ctors_of(ts[0])) {
                let k = choose|k: int| 0 <= k < ctors_of(ts[0]).len() && ctors_of(ts[0])[k] == c;
                lemma_ctors_below(ts[0], n, k);
                assert(pats_below(wild_views(c.types.len()), n));
            }
            assert(pat_below(missing_head(rows, ts[0]), n));
        }
    }
}

proof fn lemma_witness_from_below(rows: Seq<Seq<Pat>>, ts: Seq<RcType>, k: nat, n: nat)
    requires
        ts.len() > 0,
        types_below(ts, n),
    ensures
        witness_from(rows, ts, k) matches Some(w) ==> pats_below(w, n),
    decreases rows_weight(rows), ts.len(), 0nat, ctors_of(ts[0]).len() - k,
{
    let cs = ctors_of(ts[0]);
    if k < cs.len() && is_complete_in(rows, ts[0]) {
        let c = cs[k as int];
        lemma_step_weight(rows, cs[k as int].id, c.types.len());
        lemma_ctors_below(ts[0], n, k as int);
        let sub = specialized(heads(rows), c.id, c.types.len());
        assert(types_below(c.types + ts.drop_first(), n));
        lemma_witness_below(sub, c.types + ts.drop_first(), n);
        lemma_witness_len(sub, c.types + ts.drop_first());
        lemma_witness_from_below(rows, ts, k + 1, n);
        if let Some(w) = witness(sub, c.types + ts.drop_first()) {
            let args = w.take(c.types.len() as int);
            assert(pats_below(args, n));
            assert(pats_below(w.skip(c.types.len() as int), n));
        }
    }
}

/// Incremental usefulness checker for one match expression: each unguarded arm
/// is pushed once after it is checked.
pub struct UsefulnessMatrix {
    matrix: PatternMatrix,
    subject_type: RcType,
    interner: Interner,
}

/// One row for each pattern.
pub open spec fn single_rows(ps: Seq<Pat>) -> Seq<Seq<Pat>> {
    ps.map_values(|p: Pat| seq![p])
}

/// What the arms `ps` leave out of `t`: a pattern for a value none of them
/// matches, written out, or `None` when they match every value.
pub open spec fn missing_text(ps: Seq<Pat>, t: RcType, names: Names) -> Option<Seq<char>> {
    if !useful(single_rows(ps), seq![Pat::Wildcard], seq![t]) {
        None
    } else {
        match witness(single_rows(ps), seq![t]) {
            Some(w) => Some(rendered(w[0], t, names)),
            None => Some("_"@),
        }
    }
}

impl UsefulnessMatrix {
    /// The arms pushed so far.
    pub closed spec fn rows(&self) -> Seq<Seq<Pat>> {
        self.matrix@
    }

    /// The type the arms match on.
    pub closed spec fn subject(&self) -> RcType {
        self.subject_type
    }

    /// The constructor names met so far.
    pub closed spec fn names(&self) -> Names {
        self.interner@
    }

    pub closed spec fn wf(&self) -> bool {
        &&& self.interner.wf()
        &&& type_wf(self.subject_type)
        &&& ids_below(self.subject_type, self.interner@.len())
    }

    pub fn new(subject_type: Type) -> (r: UsefulnessMatrix)
        ensures
            r.wf(),
            r.rows() == Seq::<Seq<Pat>>::empty(),
            (type_view(r.subject()), r.names()) == lowered_type(subject_type, base_names()),
    {
        let mut interner = Interner::new();
        let subject = rc_type(&subject_type, &mut interner);
        UsefulnessMatrix { matrix: PatternMatrix::new(), subject_type: subject, interner }
    }

    /// Lower a written pattern against this checker's subject type, resolving
    /// constructor heads through `ctors`.
    pub fn lower<R: CtorResolver>(&mut self, p: &Pattern, ctors: &R) -> (r: Pat)
        requires
            old(self).wf(),
        ensures
            final(self).wf(),
            final(self).rows() == old(self).rows(),
            final(self).subject() == old(self).subject(),
            (pat_view(r), final(self).names()) == lowered(
                *p,
                old(self).subject(),
                old(self).names(),
                ctors,
            ),
    {
        let ghost n = self.interner@.len();
        let r = lower_pattern(p, &self.subject_type, &mut self.interner, ctors);
        proof {
            lemma_ids_below(self.subject_type, n, self.interner@.len());
        }
        r
    }

    /// The id of the constructor named `name`.
    pub fn ctor_id(&mut self, name: &str) -> (r: u32)
        requires
            old(self).wf(),
        ensures
            final(self).wf(),
            final(self).rows() == old(self).rows(),
            final(self).subject() == old(self).subject(),
            final(self).names() == with(old(self).names(), name@),
            r == id_in(old(self).names(), name@),
    {
        let ghost n = self.interner@.len();
        let r = self.interner.intern(name);
        proof {
            lemma_ids_below(self.subject_type, n, self.interner@.len());
        }
        r
    }

    /// Whether `pat` matches a value no arm pushed so far does.
    pub fn is_useful(&self, pat: &Pat) -> (r: bool)
        requires
            self.wf(),
        ensures
            r == useful(self.rows(), seq![*pat], seq![self.subject()]),
    {
        let pats = Stack::one(pat.share());
        let types = Stack::one(self.subject_type.share());
        is_useful(&self.matrix, &pats, &types)
    }

    /// Add an arm.
    pub fn push(&mut self, pat: &Pat)
        requires
            old(self).wf(),
        ensures
            final(self).wf(),
            final(self).rows() == old(self).rows().push(seq![*pat]),
            final(self).subject() == old(self).subject(),
            final(self).names() == old(self).names(),
    {
        self.matrix.push(Stack::one(pat.share()));
    }

    /// A pattern the given arms fail to cover, written out, or `None` if they
    /// are exhaustive. The arms passed here form their own matrix; the arms
    /// pushed so far are not consulted.
    pub fn find_missing(&self, patterns: &Vec<Pat>) -> (r: Option<String>)
        requires
            self.wf(),
        ensures
            match r {
                Some(s) => missing_text(patterns@, self.subject(), self.names()) == Some(s@),
                None => missing_text(patterns@, self.subject(), self.names()) is None,
            },
    {
        let mut matrix = PatternMatrix::new();
        let mut i: usize = 0;
        proof {
            assert(matrix@ =~= single_rows(patterns@.take(0)));
        }
        while i < patterns.len()
            invariant
                i <= patterns.len(),
                matrix@ == single_rows(patterns@.take(i as int)),
            decreases patterns.len() - i,
        {
            matrix.push(Stack::one(patterns[i].share()));
            i += 1;
            proof {
                assert(matrix@ =~= single_rows(patterns@.take(i as int)));
            }
        }
        proof {
            assert(patterns@.take(i as int) =~= patterns@);
        }
        let types = Stack::one(self.subject_type.share());
        if !is_useful(&matrix, &Stack::one(Pat::Wildcard), &types) {
            return None;
        }
        proof {
            lemma_witness_len(matrix@, types@);
            assert(types_below(types@, self.interner@.len()));
            lemma_witness_below(matrix@, types@, self.interner@.len());
        }
        let found = match find_witness_vec(&matrix, &types) {
            Some(w) => {
                proof {
                    lemma_pat_views(w@);
                    assert(pat_views(w@)[0] == pat_view(w@[0]));
                }
                w[0].share()
            },
            None => Pat::Wildcard,
        };
        let text = pat_to_string(&found, &self.subject_type, &self.interner);
        Some(text)
    }
}

} // verus!
