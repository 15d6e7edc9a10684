//! What a written pattern matches, and that lowering a pattern keeps it.
//!
//! A value is told here by what it is: an Int, a text, a tuple, a variant of its
//! type. The matrix of [`crate::types::exhaustiveness`] works on constructor
//! trees instead, whose ids are places among the names of a check.

use crate::names::{lemma_position, lemma_with, position, with};
use crate::slots::{first_to, law_slotted};
use crate::syntax::{
    ArrayPatternElement, BinSegmentPat, NumberLiteral, Pattern, PatternArg, PatternLiteral,
};
use crate::text::{decimal, decimal_int};
use crate::types::exhaustiveness::{
    arg_labels, bin_key, ctors_of, element_type, head_of, id_in, lemma_find_sig_is, lowered,
    lowered_arg, lowered_args, lowered_each, lowered_elements, lowered_slots, named_head,
    number_key, opt_name, pat_view, sig_fields, sig_of, tuple_name, tuple_types, type_at, CONS_ID,
    CtorResolver, CtorSig, EMPTY_LIST_ID, Names, Pat, PatView, RcType, TypeCtors,
};
use crate::types::shape::{
    is_numeral, law_key_is_injective, lemma_decimal_int, lemma_decimal_int_tells,
    lemma_decimal_tells, number_ok, segments_ok, shape,
};
use crate::types::usefulness::{Val, view_matches};
use vstd::prelude::*;

verus! {

/// A value that a pattern is held against.
pub enum Datum {
    Int(i64),
    /// A number that no 64-bit Int is, told by its digits.
    Number(Seq<char>),
    Text(Seq<char>),
    /// A value of a range, told only by how the range is written.
    Among(Seq<char>),
    /// A binary of a shape that is not looked into, and whether it goes on.
    Shaped(Seq<BinSegmentPat>, bool),
    Tuple(Seq<Datum>),
    Array(Seq<Datum>),
    /// The variant at a place in its type's declaration, over its fields.
    Variant(int, Seq<Datum>),
    /// A constructor of a type that is not known, over its arguments.
    Applied(Seq<char>, Seq<Datum>),
    /// Any value that none of these is.
    Other,
}

/// A constructor's name: nothing else that a check names begins like one.
pub open spec fn plain_name(n: Seq<char>) -> bool {
    n.len() > 0 && n[0] != 'l' && n[0] != 'r' && n[0] != '#' && n[0] != '[' && n[0] != ':'
}

/// Whether a value has the type.
pub open spec fn of_type(d: Datum, t: RcType) -> bool
    decreases d,
{
    match t {
        RcType::Infinite => match d {
            Datum::Number(digits) => is_numeral(digits) && forall|i: i64|
                digits != #[trigger] decimal_int(i as int),
            Datum::Shaped(ss, _) => segments_ok(ss),
            Datum::Tuple(ds) => forall|i: int|
                0 <= i < ds.len() ==> of_type(#[trigger] ds[i], RcType::Infinite),
            Datum::Array(ds) => forall|i: int|
                0 <= i < ds.len() ==> of_type(#[trigger] ds[i], RcType::Infinite),
            Datum::Applied(name, ds) => plain_name(name) && forall|i: int|
                0 <= i < ds.len() ==> of_type(#[trigger] ds[i], RcType::Infinite),
            Datum::Variant(..) => false,
            _ => true,
        },
        RcType::Array(a) => d matches Datum::Array(ds) && forall|i: int|
            0 <= i < ds.len() ==> of_type(#[trigger] ds[i], a.element),
        RcType::Named(c) => d matches Datum::Variant(k, ds) && 0 <= k < ctors_of(t).len()
            && ds.len() == ctors_of(t)[k].types.len() && forall|i: int|
            0 <= i < ds.len() ==> of_type(#[trigger] ds[i], ctors_of(t)[k].types[i]),
        RcType::Tuple(c) => d matches Datum::Tuple(ds) && ds.len() == tuple_types(t).len()
            && forall|i: int| 0 <= i < ds.len() ==> of_type(#[trigger] ds[i], tuple_types(t)[i]),
    }
}

/// The variant of `t` that a pattern's head names: the one its scope resolves
/// it to, or the one with the written name.
pub open spec fn is_head<R: CtorResolver>(
    t: RcType,
    names: Names,
    qualifier: Option<Seq<char>>,
    name: Seq<char>,
    res: &R,
    k: int,
) -> bool {
    let cs = ctors_of(t);
    &&& 0 <= k < cs.len()
    &&& match res.resolves(qualifier, name) {
        Some(i) => if i < cs.len() {
            k == i
        } else {
            names[cs[k].id as int] == name
        },
        None => names[cs[k].id as int] == name,
    }
}

/// Whether a written pattern matches a value of type `t`, whose variants'
/// names are at their ids in `names`.
pub open spec fn matches_written<R: CtorResolver>(
    p: Pattern,
    t: RcType,
    names: Names,
    res: &R,
    d: Datum,
) -> bool
    decreases p,
{
    match p {
        Pattern::Var { name } => true,
        Pattern::Literal(PatternLiteral::Number(n)) => match n.int {
            Some(i) => d == Datum::Int(i),
            None => d == Datum::Number(n.digits@),
        },
        Pattern::Literal(PatternLiteral::String(s)) => d == Datum::Text(s.value@),
        Pattern::Constructor { qualifier, name, args, rest, span } => match d {
            Datum::Variant(k, ds) => is_head(t, names, opt_name(qualifier), name.name@, res, k)
                && forall|a: int, f: int|
                0 <= a < args@.len() && 0 <= f < ds.len() && #[trigger] first_to(
                    sig_fields(ctors_of(t)[k]),
                    arg_labels(args@),
                    a,
                    f,
                ) ==> matches_arg(args@[a], ctors_of(t)[k].types[f], names, res, ds[f]),
            Datum::Applied(said, ds) => t is Infinite && said == name.name@ && ds.len()
                == args@.len() && forall|a: int|
                0 <= a < args@.len() ==> matches_arg(
                    #[trigger] args@[a],
                    RcType::Infinite,
                    names,
                    res,
                    ds[a],
                ),
            _ => false,
        },
        Pattern::Tuple { elements, span } => match d {
            Datum::Tuple(ds) => ds.len() == elements@.len() && forall|i: int|
                0 <= i < elements@.len() ==> matches_written(
                    #[trigger] elements@[i],
                    type_at(tuple_types(t), i),
                    names,
                    res,
                    ds[i],
                ),
            _ => false,
        },
        Pattern::Array { elements, span } => matches_elements(
            elements@,
            element_type(t),
            names,
            res,
            match d {
                Datum::Array(ds) => Some(ds),
                _ => None,
            },
        ),
        Pattern::Binary { segments, rest, span } => segments@.len() == 0 && rest is Some || (
        d matches Datum::Shaped(ss, more) && shape(ss) == shape(segments@) && more == (
        rest is Some)),
        Pattern::Or { first, rest, span } => matches_written(*first, t, names, res, d)
            || exists|i: int|
            0 <= i < rest@.len() && matches_written(#[trigger] rest@[i], t, names, res, d),
        Pattern::Range { start, end, span } => d == Datum::Among(
            start.value@ + ".."@ + end.value@,
        ),
    }
}

pub open spec fn matches_arg<R: CtorResolver>(
    a: PatternArg,
    t: RcType,
    names: Names,
    res: &R,
    d: Datum,
) -> bool
    decreases a,
{
    match a {
        PatternArg::Positional(p) => matches_written(p, t, names, res, d),
        PatternArg::Labeled { label, pattern } => matches_written(pattern, t, names, res, d),
    }
}

/// Whether an array pattern's elements match an array's, one by one; a spread
/// matches whatever is left.
pub open spec fn matches_elements<R: CtorResolver>(
    els: Seq<ArrayPatternElement>,
    t: RcType,
    names: Names,
    res: &R,
    ds: Option<Seq<Datum>>,
) -> bool
    decreases els,
{
    if els.len() == 0 {
        ds matches Some(left) && left.len() == 0
    } else {
        match els[0] {
            ArrayPatternElement::Spread { span } => true,
            ArrayPatternElement::Pattern(p) => ds matches Some(left) && left.len() > 0
                && matches_written(p, t, names, res, left[0]) && matches_elements(
                els.drop_first(),
                t,
                names,
                res,
                Some(left.drop_first()),
            ),
        }
    }
}

/// A pattern as a program has it: its numbers and constructors are written as
/// such, and a constructor is held only against a type that has variants or is
/// not known.
pub open spec fn well_written<R: CtorResolver>(p: Pattern, t: RcType, names: Names, res: &R) -> bool
    decreases p,
{
    match p {
        Pattern::Literal(PatternLiteral::Number(n)) => number_ok(n),
        Pattern::Constructor { qualifier, name, args, rest, span } => {
            &&& plain_name(name.name@)
            &&& t is Named || t is Infinite
            &&& forall|a: int|
                0 <= a < args@.len() ==> well_written_arg(
                    #[trigger] args@[a],
                    RcType::Infinite,
                    names,
                    res,
                )
            &&& forall|k: int, a: int, f: int|
                #![trigger ctors_of(t)[k].types[f], args@[a]]
                0 <= k < ctors_of(t).len() && 0 <= f < ctors_of(t)[k].types.len() && 0 <= a
                    < args@.len() && is_head(t, names, opt_name(qualifier), name.name@, res, k)
                    && first_to(sig_fields(ctors_of(t)[k]), arg_labels(args@), a, f)
                    ==> well_written_arg(args@[a], ctors_of(t)[k].types[f], names, res)
        },
        Pattern::Tuple { elements, span } => forall|i: int|
            0 <= i < elements@.len() ==> well_written(
                #[trigger] elements@[i],
                type_at(tuple_types(t), i),
                names,
                res,
            ),
        Pattern::Array { elements, span } => forall|i: int|
            0 <= i < elements@.len() ==> ((#[trigger] elements@[i]) matches
            ArrayPatternElement::Pattern(q) ==> well_written(q, element_type(t), names, res)),
        Pattern::Binary { segments, rest, span } => segments_ok(segments@),
        Pattern::Or { first, rest, span } => well_written(*first, t, names, res) && forall|i: int|
            0 <= i < rest@.len() ==> well_written(#[trigger] rest@[i], t, names, res),
        _ => true,
    }
}

pub open spec fn well_written_arg<R: CtorResolver>(
    a: PatternArg,
    t: RcType,
    names: Names,
    res: &R,
) -> bool
    decreases a,
{
    match a {
        PatternArg::Positional(p) => well_written(p, t, names, res),
        PatternArg::Labeled { label, pattern } => well_written(pattern, t, names, res),
    }
}

/// A type whose variants have names of their own at their ids, all the way
/// down.
pub open spec fn named_in(t: RcType, names: Names) -> bool
    decreases t,
{
    match t {
        RcType::Infinite => true,
        RcType::Array(a) => named_in(a.element, names),
        RcType::Named(c) => variants_named(*c, names) && forall|i: int|
            0 <= i < c.ctors@.len() ==> (#[trigger] c.ctors@[i]).id < names.len() && plain_name(
                names[c.ctors@[i].id as int],
            ),
        RcType::Tuple(c) => c.ctors@.len() == 1 && variants_named(*c, names) && c.ctors@[0].id
            < names.len() && names[c.ctors@[0].id as int] == tuple_name(c.ctors@[0].types@.len()),
    }
}

pub open spec fn variants_named(c: TypeCtors, names: Names) -> bool
    decreases c,
{
    &&& forall|i: int, j: int|
        0 <= i < j < c.ctors@.len() ==> (#[trigger] c.ctors@[i]).id != (#[trigger] c.ctors@[j]).id
    &&& forall|i: int, j: int|
        0 <= i < c.ctors@.len() && 0 <= j < c.ctors@[i].types@.len() ==> named_in(
            #[trigger] c.ctors@[i].types@[j],
            names,
        )
}

/// The place of a key among the names, or one past the last for a key that is
/// not there.
pub open spec fn key_id(names: Names, key: Seq<char>) -> int {
    match position(names, key) {
        Some(i) => i as int,
        None => names.len() as int,
    }
}

pub open spec fn leaf(id: int) -> Val {
    Val::Node { id, args: Seq::empty() }
}

/// A value as the constructor tree that the matrix works on.
pub open spec fn tree_of(d: Datum, t: RcType, names: Names) -> Val
    decreases d,
{
    match d {
        Datum::Int(i) => leaf(key_id(names, "lit:"@ + decimal_int(i as int))),
        Datum::Number(digits) => leaf(key_id(names, "lit:"@ + digits)),
        Datum::Text(s) => leaf(key_id(names, "lit:'"@ + s + "'"@)),
        Datum::Among(s) => leaf(key_id(names, "range:"@ + s)),
        Datum::Shaped(ss, more) => leaf(key_id(names, bin_key(ss, more))),
        Datum::Tuple(ds) => Val::Node {
            id: key_id(names, tuple_name(ds.len())),
            args: trees_of(ds, tuple_types(t), names),
        },
        Datum::Array(ds) => list_tree(ds, element_type(t), names),
        Datum::Variant(k, ds) => Val::Node {
            id: ctors_of(t)[k].id as int,
            args: trees_of(ds, ctors_of(t)[k].types, names),
        },
        Datum::Applied(name, ds) => Val::Node {
            id: key_id(names, name),
            args: trees_of(ds, Seq::empty(), names),
        },
        Datum::Other => leaf(-1),
    }
}

pub open spec fn trees_of(ds: Seq<Datum>, ts: Seq<RcType>, names: Names) -> Seq<Val>
    decreases ds,
{
    if ds.len() == 0 {
        Seq::empty()
    } else {
        trees_of(ds.drop_last(), ts, names).push(
            tree_of(ds.last(), type_at(ts, ds.len() - 1), names),
        )
    }
}

pub open spec fn list_tree(ds: Seq<Datum>, t: RcType, names: Names) -> Val
    decreases ds,
{
    if ds.len() == 0 {
        leaf(EMPTY_LIST_ID as int)
    } else {
        Val::Node {
            id: CONS_ID as int,
            args: seq![tree_of(ds[0], t, names), list_tree(ds.drop_first(), t, names)],
        }
    }
}

pub proof fn lemma_trees(ds: Seq<Datum>, ts: Seq<RcType>, names: Names)
    ensures
        trees_of(ds, ts, names).len() == ds.len(),
        forall|i: int|
            0 <= i < ds.len() ==> #[trigger] trees_of(ds, ts, names)[i] == tree_of(
                ds[i],
                type_at(ts, i),
                names,
            ),
    decreases ds.len(),
{
    if ds.len() > 0 {
        lemma_trees(ds.drop_last(), ts, names);
    }
}

/// Names that later ones only add to.
pub open spec fn grown(a: Names, b: Names) -> bool {
    a.len() <= b.len() && forall|i: int| 0 <= i < a.len() ==> #[trigger] b[i] == a[i]
}

pub proof fn lemma_key_grows(names: Names, key: Seq<char>)
    requires
        names.no_duplicates(),
    ensures
        with(names, key).no_duplicates(),
        grown(names, with(names, key)),
{
    lemma_with(names, key);
}

proof fn lemma_head_grows<R: CtorResolver>(
    t: RcType,
    q: Option<Seq<char>>,
    name: Seq<char>,
    names: Names,
    res: &R,
)
    requires
        names.no_duplicates(),
    ensures
        head_of(t, q, name, names, res).2.no_duplicates(),
        grown(names, head_of(t, q, name, names, res).2),
{
    lemma_key_grows(names, name);
}

/// Lowering only adds to the names, and each name once.
pub proof fn lemma_lowered_grows<R: CtorResolver>(p: Pattern, t: RcType, names: Names, res: &R)
    requires
        names.no_duplicates(),
    ensures
        lowered(p, t, names, res).1.no_duplicates(),
        grown(names, lowered(p, t, names, res).1),
    decreases p, 0nat,
{
    match p {
        Pattern::Var { name } => {},
        Pattern::Literal(PatternLiteral::Number(n)) => {
            lemma_key_grows(names, "lit:"@ + number_key(n));
        },
        Pattern::Literal(PatternLiteral::String(s)) => {
            lemma_key_grows(names, "lit:'"@ + s.value@ + "'"@);
        },
        Pattern::Constructor { qualifier, name, args, rest, span } => {
            let (id, sig, more) = head_of(t, opt_name(qualifier), name.name@, names, res);
            lemma_head_grows(t, opt_name(qualifier), name.name@, names, res);
            match sig {
                Some(c) => {
                    let slots = crate::slots::slotted(sig_fields(c), arg_labels(args@));
                    lemma_slots_grow(args@, slots, c.types, more, res, slots.len());
                },
                None => {
                    lemma_args_grow(args@, more, res);
                },
            }
        },
        Pattern::Tuple { elements, span } => {
            lemma_each_grows(elements@, tuple_types(t), false, names, res);
            lemma_key_grows(
                lowered_each(elements@, tuple_types(t), false, names, res).1,
                tuple_name(elements@.len()),
            );
        },
        Pattern::Array { elements, span } => {
            lemma_elements_grow(elements@, element_type(t), names, res);
        },
        Pattern::Binary { segments, rest, span } => {
            lemma_key_grows(names, bin_key(segments@, rest is Some));
        },
        Pattern::Or { first, rest, span } => {
            lemma_lowered_grows(*first, t, names, res);
            lemma_each_grows(rest@, seq![t], true, lowered(*first, t, names, res).1, res);
        },
        Pattern::Range { start, end, span } => {
            lemma_key_grows(names, "range:"@ + start.value@ + ".."@ + end.value@);
        },
    }
}

proof fn lemma_arg_grows<R: CtorResolver>(a: PatternArg, t: RcType, names: Names, res: &R)
    requires
        names.no_duplicates(),
    ensures
        lowered_arg(a, t, names, res).1.no_duplicates(),
        grown(names, lowered_arg(a, t, names, res).1),
    decreases a, 0nat,
{
    match a {
        PatternArg::Positional(p) => lemma_lowered_grows(p, t, names, res),
        PatternArg::Labeled { label, pattern } => lemma_lowered_grows(pattern, t, names, res),
    }
}

proof fn lemma_slots_grow<R: CtorResolver>(
    args: Seq<PatternArg>,
    slots: Seq<Option<nat>>,
    types: Seq<RcType>,
    names: Names,
    res: &R,
    n: nat,
)
    requires
        names.no_duplicates(),
    ensures
        lowered_slots(args, slots, types, names, res, n).1.no_duplicates(),
        grown(names, lowered_slots(args, slots, types, names, res, n).1),
    decreases args, n,
{
    if n > 0 {
        let m = (n - 1) as nat;
        lemma_slots_grow(args, slots, types, names, res, m);
        let more = lowered_slots(args, slots, types, names, res, m).1;
        if let Some(a) = slots[n - 1] {
            if a < args.len() {
                lemma_arg_grows(args[a as int], types[n - 1], more, res);
            }
        }
    }
}

proof fn lemma_args_grow<R: CtorResolver>(args: Seq<PatternArg>, names: Names, res: &R)
    requires
        names.no_duplicates(),
    ensures
        lowered_args(args, names, res).1.no_duplicates(),
        grown(names, lowered_args(args, names, res).1),
    decreases args, 0nat,
{
    if args.len() > 0 {
        lemma_args_grow(args.drop_last(), names, res);
        let more = lowered_args(args.drop_last(), names, res).1;
        lemma_arg_grows(args.last(), RcType::Infinite, more, res);
    }
}

proof fn lemma_each_grows<R: CtorResolver>(
    ps: Seq<Pattern>,
    ts: Seq<RcType>,
    same: bool,
    names: Names,
    res: &R,
)
    requires
        names.no_duplicates(),
    ensures
        lowered_each(ps, ts, same, names, res).1.no_duplicates(),
        grown(names, lowered_each(ps, ts, same, names, res).1),
    decreases ps, 0nat,
{
    if ps.len() > 0 {
        lemma_each_grows(ps.drop_last(), ts, same, names, res);
        let more = lowered_each(ps.drop_last(), ts, same, names, res).1;
        let t = if same {
            ts[0]
        } else {
            type_at(ts, ps.len() - 1)
        };
        lemma_lowered_grows(ps.last(), t, more, res);
    }
}

proof fn lemma_elements_grow<R: CtorResolver>(
    els: Seq<ArrayPatternElement>,
    t: RcType,
    names: Names,
    res: &R,
)
    requires
        names.no_duplicates(),
    ensures
        lowered_elements(els, t, names, res).1.no_duplicates(),
        grown(names, lowered_elements(els, t, names, res).1),
    decreases els, 0nat,
{
    if els.len() > 0 {
        lemma_elements_grow(els.drop_first(), t, names, res);
        let more = lowered_elements(els.drop_first(), t, names, res).1;
        if let ArrayPatternElement::Pattern(p) = els[0] {
            lemma_lowered_grows(p, t, more, res);
        }
    }
}

/// The names of a whole check, which those of any part of it grow into.
pub open spec fn check_names(all: Names) -> bool {
    &&& all.no_duplicates()
    &&& 2 <= all.len() <= u32::MAX
    &&& all[0] == "[]"@
    &&& all[1] == "::"@
}

/// A key's id is its place.
pub proof fn lemma_id(names: Names, key: Seq<char>, all: Names)
    requires
        names.no_duplicates(),
        check_names(all),
        grown(with(names, key), all),
    ensures
        id_in(names, key) < all.len(),
        all[id_in(names, key) as int] == key,
        key_id(all, key) == id_in(names, key),
{
    lemma_with(names, key);
    let i = position(with(names, key), key)->Some_0;
    assert(with(names, key)[i as int] == key);
    assert(i < all.len() && all[i as int] == key);
    lemma_position(all, key, i as int);
}

/// Two keys are at one place only if they are the same.
proof fn lemma_key_tells(all: Names, key: Seq<char>, other: Seq<char>, id: int)
    requires
        check_names(all),
        0 <= id < all.len(),
        all[id] == key,
    ensures
        key_id(all, other) == id <==> other == key,
{
    lemma_position(all, key, id);
    if all.contains(other) {
        assert(all[all.index_of(other)] == other);
    }
}

/// The name of a value's outermost constructor.
spec fn head_key(d: Datum, t: RcType, all: Names) -> Seq<char> {
    match d {
        Datum::Int(i) => "lit:"@ + decimal_int(i as int),
        Datum::Number(digits) => "lit:"@ + digits,
        Datum::Text(s) => "lit:'"@ + s + "'"@,
        Datum::Among(s) => "range:"@ + s,
        Datum::Shaped(ss, more) => bin_key(ss, more),
        Datum::Tuple(ds) => tuple_name(ds.len()),
        Datum::Array(ds) => if ds.len() == 0 {
            "[]"@
        } else {
            "::"@
        },
        Datum::Variant(k, ds) => all[ctors_of(t)[k].id as int],
        Datum::Applied(name, ds) => name,
        Datum::Other => Seq::empty(),
    }
}

proof fn lemma_head_key(d: Datum, t: RcType, all: Names)
    requires
        check_names(all),
        named_in(t, all),
        of_type(d, t),
        !(d is Other),
    ensures
        tree_of(d, t, all).id() == key_id(all, head_key(d, t, all)),
{
    match d {
        Datum::Array(ds) => {
            if ds.len() == 0 {
                lemma_position(all, "[]"@, 0);
            } else {
                lemma_position(all, "::"@, 1);
            }
        },
        Datum::Variant(k, ds) => {
            if let RcType::Named(c) = t {
                assert(ctors_of(t)[k] == sig_of(c.ctors@[k]));
                assert(c.ctors@[k].id < all.len());
                lemma_position(all, all[ctors_of(t)[k].id as int], ctors_of(t)[k].id as int);
            }
        },
        _ => {},
    }
}

/// How the keys begin, by which they are told apart.
proof fn lemma_forms(d: Datum, t: RcType, all: Names)
    requires
        named_in(t, all),
        of_type(d, t),
    ensures
        ({
            let k = head_key(d, t, all);
            match d {
                Datum::Int(_) | Datum::Number(_) => k.len() > 4 && k[0] == 'l' && k[4] != '\''
                    && k[3] == ':',
                Datum::Text(_) => k.len() > 4 && k[0] == 'l' && k[4] == '\'',
                Datum::Among(_) => k.len() > 0 && k[0] == 'r',
                Datum::Shaped(..) => k.len() > 1 && k[0] == '#' && k[1] == 'b',
                Datum::Tuple(_) => k.len() > 1 && k[0] == '#' && k[1] == 't',
                Datum::Array(ds) => k.len() > 0 && k[0] == if ds.len() == 0 {
                    '['
                } else {
                    ':'
                },
                Datum::Variant(..) | Datum::Applied(..) => plain_name(k),
                Datum::Other => k.len() == 0,
            }
        }),
{
    reveal_strlit("lit:");
    reveal_strlit("lit:'");
    reveal_strlit("range:");
    reveal_strlit("#bin:");
    reveal_strlit("#tuple");
    reveal_strlit("[]");
    reveal_strlit("::");
    match d {
        Datum::Int(i) => {
            lemma_decimal_int(i as int);
            assert(head_key(d, t, all)[4] == decimal_int(i as int)[0]);
        },
        Datum::Number(digits) => {
            assert(t is Infinite);
            assert(head_key(d, t, all)[4] == digits[0]);
        },
        Datum::Variant(k, ds) => {
            if let RcType::Named(c) = t {
                assert(ctors_of(t)[k] == sig_of(c.ctors@[k]));
                assert(c.ctors@[k].id < all.len());
            }
        },
        Datum::Shaped(ss, more) => {
            assert(head_key(d, t, all)[0] == "#bin:"@[0]);
            assert(head_key(d, t, all)[1] == "#bin:"@[1]);
        },
        Datum::Tuple(ds) => {
            assert(head_key(d, t, all)[0] == "#tuple"@[0]);
            assert(head_key(d, t, all)[1] == "#tuple"@[1]);
        },
        Datum::Text(s) => {
            assert(head_key(d, t, all)[0] == "lit:'"@[0]);
            assert(head_key(d, t, all)[4] == "lit:'"@[4]);
        },
        Datum::Among(s) => {
            assert(head_key(d, t, all)[0] == "range:"@[0]);
        },
        _ => {},
    }
}

/// Two texts behind one beginning are the same when the whole is.
proof fn lemma_behind(head: Seq<char>, a: Seq<char>, b: Seq<char>)
    ensures
        head + a == head + b <==> a == b,
{
    if head + a == head + b {
        assert((head + a).skip(head.len() as int) =~= a);
        assert((head + b).skip(head.len() as int) =~= b);
    }
}

/// A key that is not a constructor's is a value's only where the value is what
/// the key says.
proof fn lemma_keyed(t: RcType, names: Names, all: Names, d: Datum, key: Seq<char>)
    requires
        names.no_duplicates(),
        check_names(all),
        grown(with(names, key), all),
        named_in(t, all),
        of_type(d, t),
    ensures
        view_matches(
            PatView::Ctor { id: id_in(names, key), args: Seq::empty() },
            tree_of(d, t, all),
        ) <==> !(d is Other) && head_key(d, t, all) == key && tree_of(d, t, all).args().len() == 0,
{
    lemma_id(names, key, all);
    let v = tree_of(d, t, all);
    let id = id_in(names, key) as int;
    if d is Other {
    } else {
        lemma_head_key(d, t, all);
        lemma_key_tells(all, key, head_key(d, t, all), id);
    }
}

pub proof fn lemma_grown_then(a: Names, b: Names, c: Names)
    requires
        grown(a, b),
        grown(b, c),
    ensures
        grown(a, c),
{
    assert forall|i: int| 0 <= i < a.len() implies #[trigger] c[i] == a[i] by {
        assert(b[i] == a[i]);
    }
}

/// What holds wherever a pattern is lowered and held against a value.
pub open spec fn held<R: CtorResolver>(
    p: Pattern,
    t: RcType,
    names: Names,
    res: &R,
    all: Names,
    d: Datum,
) -> bool {
    &&& names.no_duplicates()
    &&& check_names(all)
    &&& grown(lowered(p, t, names, res).1, all)
    &&& named_in(t, all)
    &&& of_type(d, t)
    &&& well_written(p, t, all, res)
}

/// The types of a type's parts are named, too.
pub proof fn lemma_parts_named(t: RcType, all: Names)
    requires
        named_in(t, all),
    ensures
        named_in(element_type(t), all),
        forall|i: int| #[trigger] named_in(type_at(tuple_types(t), i), all),
        forall|k: int, i: int|
            t is Named && 0 <= k < ctors_of(t).len() && 0 <= i < ctors_of(t)[k].types.len()
                ==> named_in(#[trigger] ctors_of(t)[k].types[i], all),
{
    match t {
        RcType::Named(c) => {
            assert(variants_named(*c, all));
            assert forall|k: int, i: int|
                0 <= k < ctors_of(t).len() && 0 <= i < ctors_of(t)[k].types.len() implies named_in(
                #[trigger] ctors_of(t)[k].types[i],
                all,
            ) by {
                assert(ctors_of(t)[k] == sig_of(c.ctors@[k]));
                assert(named_in(c.ctors@[k].types@[i], all));
            }
        },
        RcType::Tuple(c) => {
            assert(variants_named(*c, all));
            assert forall|i: int| #[trigger] named_in(type_at(tuple_types(t), i), all) by {
                if 0 <= i < tuple_types(t).len() {
                    assert(named_in(c.ctors@[0].types@[i], all));
                }
            }
        },
        _ => {},
    }
}

/// One of some patterns matches when one of them does.
proof fn lemma_or(every: Seq<PatView>, v: Val)
    ensures
        view_matches(PatView::Or { patterns: every }, v) <==> exists|i: int|
            0 <= i < every.len() && view_matches(#[trigger] every[i], v),
{
    reveal_with_fuel(view_matches, 2);
    let or = PatView::Or { patterns: every };
    if exists|i: int| 0 <= i < every.len() && view_matches(#[trigger] every[i], v) {
        let i = choose|i: int| 0 <= i < every.len() && view_matches(#[trigger] every[i], v);
        assert(or->patterns[i] == every[i]);
        assert(view_matches(or->patterns[i], v));
        assert(view_matches(or, v));
    }
    if view_matches(or, v) {
        assert(exists|i: int|
            0 <= i < or->patterns.len() && view_matches(#[trigger] or->patterns[i], v));
    }
}

pub proof fn lemma_matches<R: CtorResolver>(
    p: Pattern,
    t: RcType,
    names: Names,
    res: &R,
    all: Names,
    d: Datum,
)
    requires
        held(p, t, names, res, all, d),
    ensures
        view_matches(lowered(p, t, names, res).0, tree_of(d, t, all)) <==> matches_written(
            p,
            t,
            all,
            res,
            d,
        ),
    decreases p, 3nat,
{
    let v = tree_of(d, t, all);
    lemma_forms(d, t, all);
    lemma_parts_named(t, all);
    match p {
        Pattern::Var { name } => {},
        Pattern::Literal(PatternLiteral::Number(n)) => {
            let key = "lit:"@ + number_key(n);
            lemma_keyed(t, names, all, d, key);
            lemma_number_key(n, t, all, d);
        },
        Pattern::Literal(PatternLiteral::String(s)) => {
            let key = "lit:'"@ + s.value@ + "'"@;
            lemma_keyed(t, names, all, d, key);
            lemma_text_key(s.value@, t, all, d);
        },
        Pattern::Constructor { qualifier, name, args, rest, span } => {
            if t is Infinite {
                lemma_applied(p, t, names, res, all, d);
            } else {
                lemma_variant(p, t, names, res, all, d);
            }
        },
        Pattern::Tuple { elements, span } => {
            let (ps, more) = lowered_each(elements@, tuple_types(t), false, names, res);
            let key = tuple_name(elements@.len());
            lemma_each_grows(elements@, tuple_types(t), false, names, res);
            lemma_key_grows(more, key);
            lemma_id(more, key, all);
            lemma_each_len(elements@, tuple_types(t), false, names, res);
            lemma_forms(Datum::Tuple(Seq::empty()), RcType::Infinite, all);
            reveal_strlit("#tuple");
            assert(key[0] == "#tuple"@[0] && key[1] == "#tuple"@[1]);
            if !(d is Other) {
                lemma_head_key(d, t, all);
                lemma_key_tells(all, key, head_key(d, t, all), id_in(more, key) as int);
            }
            if let Datum::Tuple(ds) = d {
                lemma_behind("#tuple"@, decimal(ds.len()), decimal(elements@.len()));
                if decimal(ds.len()) == decimal(elements@.len()) {
                    lemma_decimal_tells(ds.len(), elements@.len());
                }
                lemma_trees(ds, tuple_types(t), all);
                if ds.len() == elements@.len() {
                    lemma_grown_then(more, with(more, key), all);
                    lemma_each_matches(elements@, tuple_types(t), names, res, all, ds);
                    assert(view_matches(lowered(p, t, names, res).0, v) <==> forall|i: int|
                        0 <= i < ps.len() ==> view_matches(#[trigger] ps[i], v.args()[i]));
                    if matches_written(p, t, all, res, d) {
                        assert forall|i: int| 0 <= i < ps.len() implies view_matches(
                            #[trigger] ps[i],
                            v.args()[i],
                        ) by {
                            assert(elements@[i] == elements@[i]);
                        }
                    }
                    if view_matches(lowered(p, t, names, res).0, v) {
                        assert forall|i: int| 0 <= i < elements@.len() implies matches_written(
                            #[trigger] elements@[i],
                            type_at(tuple_types(t), i),
                            all,
                            res,
                            ds[i],
                        ) by {
                            assert(view_matches(ps[i], v.args()[i]));
                        }
                    }
                }
            }
        },
        Pattern::Array { elements, span } => {
            let ds = match d {
                Datum::Array(ds) => Some(ds),
                _ => None,
            };
            if !(d is Array) && !(d is Other) {
                lemma_head_key(d, t, all);
                reveal_strlit("[]");
                reveal_strlit("::");
                lemma_key_tells(all, "[]"@, head_key(d, t, all), 0);
                lemma_key_tells(all, "::"@, head_key(d, t, all), 1);
            }
            lemma_elements_match(elements@, element_type(t), names, res, all, v, ds);
        },
        Pattern::Binary { segments, rest, span } => {
            if !(segments@.len() == 0 && rest is Some) {
                let key = bin_key(segments@, rest is Some);
                lemma_keyed(t, names, all, d, key);
                reveal_strlit("#bin:");
                assert(key[0] == "#bin:"@[0] && key[1] == "#bin:"@[1]);
                if let Datum::Shaped(ss, more) = d {
                    law_key_is_injective(ss, more, segments@, rest is Some);
                }
            }
        },
        Pattern::Or { first, rest, span } => {
            let (a, more) = lowered(*first, t, names, res);
            let (ps, after) = lowered_each(rest@, seq![t], true, more, res);
            lemma_lowered_grows(*first, t, names, res);
            lemma_each_grows(rest@, seq![t], true, more, res);
            lemma_grown_then(more, after, all);
            lemma_matches(*first, t, names, res, all, d);
            lemma_alternatives(rest@, t, more, res, all, d);
            lemma_each_len(rest@, seq![t], true, more, res);
            let every = seq![a] + ps;
            assert(lowered(p, t, names, res).0 == PatView::Or { patterns: every });
            let or = PatView::Or { patterns: every };
            lemma_or(every, v);
            if view_matches(or, v) {
                let i = choose|i: int| 0 <= i < every.len() && view_matches(#[trigger] every[i], v);
                if i > 0 {
                    assert(every[i] == ps[i - 1]);
                    assert(matches_written(rest@[i - 1], t, all, res, d));
                } else {
                    assert(every[0] == a);
                }
                assert(matches_written(p, t, all, res, d));
            }
            if matches_written(p, t, all, res, d) {
                if matches_written(*first, t, all, res, d) {
                    assert(every[0] == a);
                    assert(view_matches(every[0], v));
                } else {
                    let i = choose|i: int|
                        0 <= i < rest@.len() && matches_written(
                            #[trigger] rest@[i],
                            t,
                            all,
                            res,
                            d,
                        );
                    assert(every[i + 1] == ps[i]);
                    assert(view_matches(every[i + 1], v));
                }
                assert(view_matches(or, v));
            }
        },
        Pattern::Range { start, end, span } => {
            let key = "range:"@ + start.value@ + ".."@ + end.value@;
            let told = start.value@ + ".."@ + end.value@;
            assert(key =~= "range:"@ + told);
            lemma_keyed(t, names, all, d, key);
            lemma_range_key(told, t, all, d);
            assert(matches_written(p, t, all, res, d) <==> d == Datum::Among(told));
        },
    }
}

/// A number's key is that of the number alone.
proof fn lemma_number_key(n: NumberLiteral, t: RcType, all: Names, d: Datum)
    requires
        number_ok(n),
        named_in(t, all),
        of_type(d, t),
    ensures
        !(d is Other) && head_key(d, t, all) == "lit:"@ + number_key(n) <==> match n.int {
            Some(i) => d == Datum::Int(i),
            None => d == Datum::Number(n.digits@),
        },
{
    let key = "lit:"@ + number_key(n);
    lemma_forms(d, t, all);
    reveal_strlit("lit:");
    if let Some(i) = n.int {
        lemma_decimal_int(i as int);
    }
    assert(key.len() > 4 && key[0] == 'l' && key[4] == number_key(n)[0]);
    assert(key[4] != '\'');
    match d {
        Datum::Int(j) => {
            lemma_behind("lit:"@, decimal_int(j as int), number_key(n));
            if let Some(i) = n.int {
                if decimal_int(i as int) == decimal_int(j as int) {
                    lemma_decimal_int_tells(i as int, j as int);
                }
            }
        },
        Datum::Number(digits) => {
            lemma_behind("lit:"@, digits, number_key(n));
        },
        _ => {},
    }
}

/// A text's key is that of the text alone.
proof fn lemma_text_key(s: Seq<char>, t: RcType, all: Names, d: Datum)
    requires
        named_in(t, all),
        of_type(d, t),
    ensures
        !(d is Other) && head_key(d, t, all) == "lit:'"@ + s + "'"@ <==> d == Datum::Text(s),
{
    let key = "lit:'"@ + s + "'"@;
    lemma_forms(d, t, all);
    reveal_strlit("lit:'");
    assert(key[0] == "lit:'"@[0] && key[4] == "lit:'"@[4]);
    if let Datum::Text(x) = d {
        if head_key(d, t, all) == key {
            let n = "lit:'"@.len() as int;
            let m = "'"@.len() as int;
            assert(key.subrange(n, key.len() - m) =~= s);
            assert(head_key(d, t, all).subrange(n, key.len() - m) =~= x);
        }
    }
}

/// A range's key is that of the range as it is written.
proof fn lemma_range_key(told: Seq<char>, t: RcType, all: Names, d: Datum)
    requires
        named_in(t, all),
        of_type(d, t),
    ensures
        !(d is Other) && head_key(d, t, all) == "range:"@ + told <==> d == Datum::Among(told),
{
    let key = "range:"@ + told;
    lemma_forms(d, t, all);
    reveal_strlit("range:");
    assert(key[0] == "range:"@[0]);
    if let Datum::Among(s) = d {
        lemma_behind("range:"@, s, told);
    }
}

proof fn lemma_each_len<R: CtorResolver>(
    ps: Seq<Pattern>,
    ts: Seq<RcType>,
    same: bool,
    names: Names,
    res: &R,
)
    ensures
        lowered_each(ps, ts, same, names, res).0.len() == ps.len(),
    decreases ps.len(),
{
    if ps.len() > 0 {
        lemma_each_len(ps.drop_last(), ts, same, names, res);
    }
}

proof fn lemma_each_matches<R: CtorResolver>(
    ps: Seq<Pattern>,
    ts: Seq<RcType>,
    names: Names,
    res: &R,
    all: Names,
    ds: Seq<Datum>,
)
    requires
        names.no_duplicates(),
        check_names(all),
        grown(lowered_each(ps, ts, false, names, res).1, all),
        ps.len() <= ds.len(),
        forall|i: int| #[trigger] named_in(type_at(ts, i), all),
        forall|i: int| 0 <= i < ps.len() ==> of_type(#[trigger] ds[i], type_at(ts, i)),
        forall|i: int|
            0 <= i < ps.len() ==> well_written(#[trigger] ps[i], type_at(ts, i), all, res),
    ensures
        forall|i: int|
            0 <= i < ps.len() ==> (view_matches(
                #[trigger] lowered_each(ps, ts, false, names, res).0[i],
                tree_of(ds[i], type_at(ts, i), all),
            ) <==> matches_written(ps[i], type_at(ts, i), all, res, ds[i])),
    decreases ps, 0nat,
{
    if ps.len() > 0 {
        let n = ps.len() - 1;
        let init = ps.drop_last();
        let (before, more) = lowered_each(init, ts, false, names, res);
        lemma_each_grows(init, ts, false, names, res);
        lemma_lowered_grows(ps.last(), type_at(ts, n), more, res);
        lemma_grown_then(more, lowered(ps.last(), type_at(ts, n), more, res).1, all);
        assert forall|i: int| 0 <= i < init.len() implies well_written(
            #[trigger] init[i],
            type_at(ts, i),
            all,
            res,
        ) by {
            assert(init[i] == ps[i]);
        }
        lemma_each_matches(init, ts, names, res, all, ds);
        assert(ps.last() == ps[n]);
        assert(of_type(ds[n], type_at(ts, n)));
        assert(named_in(type_at(ts, n), all));
        lemma_matches(ps.last(), type_at(ts, n), more, res, all, ds[n]);
        lemma_each_len(init, ts, false, names, res);
        let out = lowered_each(ps, ts, false, names, res).0;
        assert forall|i: int| 0 <= i < ps.len() implies (view_matches(
            #[trigger] out[i],
            tree_of(ds[i], type_at(ts, i), all),
        ) <==> matches_written(ps[i], type_at(ts, i), all, res, ds[i])) by {
            if i < n {
                assert(out[i] == before[i]);
                assert(init[i] == ps[i]);
            }
        }
    }
}

proof fn lemma_alternatives<R: CtorResolver>(
    ps: Seq<Pattern>,
    t: RcType,
    names: Names,
    res: &R,
    all: Names,
    d: Datum,
)
    requires
        names.no_duplicates(),
        check_names(all),
        grown(lowered_each(ps, seq![t], true, names, res).1, all),
        named_in(t, all),
        of_type(d, t),
        forall|i: int| 0 <= i < ps.len() ==> well_written(#[trigger] ps[i], t, all, res),
    ensures
        forall|i: int|
            0 <= i < ps.len() ==> (view_matches(
                #[trigger] lowered_each(ps, seq![t], true, names, res).0[i],
                tree_of(d, t, all),
            ) <==> matches_written(ps[i], t, all, res, d)),
    decreases ps, 0nat,
{
    if ps.len() > 0 {
        let n = ps.len() - 1;
        let init = ps.drop_last();
        let ts = seq![t];
        let (before, more) = lowered_each(init, ts, true, names, res);
        lemma_each_grows(init, ts, true, names, res);
        lemma_lowered_grows(ps.last(), t, more, res);
        lemma_grown_then(more, lowered(ps.last(), t, more, res).1, all);
        assert forall|i: int| 0 <= i < init.len() implies well_written(
            #[trigger] init[i],
            t,
            all,
            res,
        ) by {
            assert(init[i] == ps[i]);
        }
        lemma_alternatives(init, t, names, res, all, d);
        assert(ps.last() == ps[n]);
        lemma_matches(ps.last(), t, more, res, all, d);
        lemma_each_len(init, ts, true, names, res);
        let out = lowered_each(ps, ts, true, names, res).0;
        assert forall|i: int| 0 <= i < ps.len() implies (view_matches(
            #[trigger] out[i],
            tree_of(d, t, all),
        ) <==> matches_written(ps[i], t, all, res, d)) by {
            if i < n {
                assert(out[i] == before[i]);
                assert(init[i] == ps[i]);
            }
        }
    }
}

proof fn lemma_elements_match<R: CtorResolver>(
    els: Seq<ArrayPatternElement>,
    t: RcType,
    names: Names,
    res: &R,
    all: Names,
    v: Val,
    ds: Option<Seq<Datum>>,
)
    requires
        names.no_duplicates(),
        check_names(all),
        grown(lowered_elements(els, t, names, res).1, all),
        named_in(t, all),
        match ds {
            Some(left) => v == list_tree(left, t, all) && forall|i: int|
                0 <= i < left.len() ==> of_type(#[trigger] left[i], t),
            None => v.id() != EMPTY_LIST_ID && v.id() != CONS_ID,
        },
        forall|i: int|
            0 <= i < els.len() ==> ((#[trigger] els[i]) matches ArrayPatternElement::Pattern(q)
                ==> well_written(q, t, all, res)),
    ensures
        view_matches(lowered_elements(els, t, names, res).0, v) <==> matches_elements(
            els,
            t,
            all,
            res,
            ds,
        ),
    decreases els, 0nat,
{
    if els.len() > 0 {
        let rest = els.drop_first();
        let (tail, more) = lowered_elements(rest, t, names, res);
        lemma_elements_grow(rest, t, names, res);
        if let ArrayPatternElement::Pattern(p) = els[0] {
            let (head, after) = lowered(p, t, more, res);
            lemma_lowered_grows(p, t, more, res);
            lemma_grown_then(more, after, all);
            let out = PatView::Ctor { id: CONS_ID, args: seq![head, tail] };
            assert(lowered_elements(els, t, names, res).0 == out);
            if let Some(left) = ds {
                if left.len() > 0 {
                    let back = left.drop_first();
                    assert forall|i: int| 0 <= i < back.len() implies of_type(
                        #[trigger] back[i],
                        t,
                    ) by {
                        assert(back[i] == left[i + 1]);
                    }
                    assert forall|i: int| 0 <= i < rest.len() implies ((#[trigger] rest[i]) matches
                    ArrayPatternElement::Pattern(q) ==> well_written(q, t, all, res)) by {
                        assert(rest[i] == els[i + 1]);
                    }
                    let u = list_tree(back, t, all);
                    lemma_elements_match(rest, t, names, res, all, u, Some(back));
                    assert(of_type(left[0], t));
                    lemma_matches(p, t, more, res, all, left[0]);
                    let w = tree_of(left[0], t, all);
                    assert(v.args() == seq![w, u]);
                    let ps = seq![head, tail];
                    if view_matches(out, v) {
                        assert(view_matches(ps[0], v.args()[0]));
                        assert(view_matches(ps[1], v.args()[1]));
                    }
                    if view_matches(head, w) && view_matches(tail, u) {
                        assert forall|i: int| 0 <= i < ps.len() implies view_matches(
                            #[trigger] ps[i],
                            v.args()[i],
                        ) by {
                            if i == 0 {
                            } else {
                            }
                        }
                    }
                }
            }
        }
    }
}

proof fn lemma_args_match<R: CtorResolver>(
    args: Seq<PatternArg>,
    names: Names,
    res: &R,
    all: Names,
    ds: Seq<Datum>,
)
    requires
        names.no_duplicates(),
        check_names(all),
        grown(lowered_args(args, names, res).1, all),
        args.len() <= ds.len(),
        forall|i: int| 0 <= i < args.len() ==> of_type(#[trigger] ds[i], RcType::Infinite),
        forall|i: int|
            0 <= i < args.len() ==> well_written_arg(
                #[trigger] args[i],
                RcType::Infinite,
                all,
                res,
            ),
    ensures
        lowered_args(args, names, res).0.len() == args.len(),
        forall|i: int|
            0 <= i < args.len() ==> (view_matches(
                #[trigger] lowered_args(args, names, res).0[i],
                tree_of(ds[i], RcType::Infinite, all),
            ) <==> matches_arg(args[i], RcType::Infinite, all, res, ds[i])),
    decreases args, 0nat,
{
    if args.len() > 0 {
        let n = args.len() - 1;
        let init = args.drop_last();
        let (before, more) = lowered_args(init, names, res);
        lemma_args_grow(init, names, res);
        lemma_arg_grows(args.last(), RcType::Infinite, more, res);
        lemma_grown_then(more, lowered_arg(args.last(), RcType::Infinite, more, res).1, all);
        assert forall|i: int| 0 <= i < init.len() implies well_written_arg(
            #[trigger] init[i],
            RcType::Infinite,
            all,
            res,
        ) by {
            assert(init[i] == args[i]);
        }
        lemma_args_match(init, names, res, all, ds);
        assert(args.last() == args[n]);
        assert(of_type(ds[n], RcType::Infinite));
        lemma_arg_matches(args.last(), RcType::Infinite, more, res, all, ds[n]);
        let out = lowered_args(args, names, res).0;
        assert forall|i: int| 0 <= i < args.len() implies (view_matches(
            #[trigger] out[i],
            tree_of(ds[i], RcType::Infinite, all),
        ) <==> matches_arg(args[i], RcType::Infinite, all, res, ds[i])) by {
            if i < n {
                assert(out[i] == before[i]);
                assert(init[i] == args[i]);
            }
        }
    }
}

proof fn lemma_arg_matches<R: CtorResolver>(
    a: PatternArg,
    t: RcType,
    names: Names,
    res: &R,
    all: Names,
    d: Datum,
)
    requires
        names.no_duplicates(),
        check_names(all),
        grown(lowered_arg(a, t, names, res).1, all),
        named_in(t, all),
        of_type(d, t),
        well_written_arg(a, t, all, res),
    ensures
        view_matches(lowered_arg(a, t, names, res).0, tree_of(d, t, all)) <==> matches_arg(
            a,
            t,
            all,
            res,
            d,
        ),
    decreases a, 0nat,
{
    match a {
        PatternArg::Positional(p) => lemma_matches(p, t, names, res, all, d),
        PatternArg::Labeled { label, pattern } => lemma_matches(pattern, t, names, res, all, d),
    }
}

proof fn lemma_slots_match<R: CtorResolver>(
    args: Seq<PatternArg>,
    slots: Seq<Option<nat>>,
    types: Seq<RcType>,
    names: Names,
    res: &R,
    n: nat,
    all: Names,
    ds: Seq<Datum>,
)
    requires
        names.no_duplicates(),
        check_names(all),
        grown(lowered_slots(args, slots, types, names, res, n).1, all),
        n <= slots.len(),
        n <= types.len(),
        n <= ds.len(),
        forall|i: int| 0 <= i < n ==> named_in(#[trigger] types[i], all),
        forall|i: int| 0 <= i < n ==> of_type(#[trigger] ds[i], types[i]),
        forall|i: int|
            0 <= i < n ==> ((#[trigger] slots[i]) matches Some(a) ==> a < args.len() ==> well_written_arg(
                args[a as int],
                types[i],
                all,
                res,
            )),
    ensures
        lowered_slots(args, slots, types, names, res, n).0.len() == n,
        forall|i: int|
            0 <= i < n ==> (view_matches(
                #[trigger] lowered_slots(args, slots, types, names, res, n).0[i],
                tree_of(ds[i], types[i], all),
            ) <==> (slots[i] matches Some(a) ==> a < args.len() ==> matches_arg(
                args[a as int],
                types[i],
                all,
                res,
                ds[i],
            ))),
    decreases args, n,
{
    if n > 0 {
        let m = (n - 1) as nat;
        let (before, more) = lowered_slots(args, slots, types, names, res, m);
        lemma_slots_grow(args, slots, types, names, res, m);
        let (out, after) = lowered_slots(args, slots, types, names, res, n);
        assert(named_in(types[m as int], all));
        assert(of_type(ds[m as int], types[m as int]));
        match slots[m as int] {
            Some(a) => {
                if a < args.len() {
                    lemma_arg_grows(args[a as int], types[m as int], more, res);
                    lemma_grown_then(more, after, all);
                    lemma_arg_matches(
                        args[a as int],
                        types[m as int],
                        more,
                        res,
                        all,
                        ds[m as int],
                    );
                }
            },
            None => {},
        }
        lemma_slots_match(args, slots, types, names, res, m, all, ds);
        assert forall|i: int| 0 <= i < n implies (view_matches(
            #[trigger] out[i],
            tree_of(ds[i], types[i], all),
        ) <==> (slots[i] matches Some(a) ==> a < args.len() ==> matches_arg(
            args[a as int],
            types[i],
            all,
            res,
            ds[i],
        ))) by {
            if i < m {
                assert(out[i] == before[i]);
            }
        }
    }
}

/// A constructor of a type that is not known.
proof fn lemma_applied<R: CtorResolver>(
    p: Pattern,
    t: RcType,
    names: Names,
    res: &R,
    all: Names,
    d: Datum,
)
    requires
        held(p, t, names, res, all, d),
        p is Constructor,
        t is Infinite,
    ensures
        view_matches(lowered(p, t, names, res).0, tree_of(d, t, all)) <==> matches_written(
            p,
            t,
            all,
            res,
            d,
        ),
    decreases p, 1nat,
{
    let v = tree_of(d, t, all);
    if let Pattern::Constructor { qualifier, name, args, rest, span } = p {
        let key = name.name@;
        let more = with(names, key);
        let (ps, after) = lowered_args(args@, more, res);
        lemma_key_grows(names, key);
        lemma_args_grow(args@, more, res);
        lemma_find_sig_is(ctors_of(t), id_in(names, key));
        assert(head_of(t, opt_name(qualifier), key, names, res) == (
            id_in(names, key),
            None::<CtorSig>,
            more,
        ));
        assert(lowered(p, t, names, res) == (PatView::Ctor { id: id_in(names, key), args: ps }, after));
        lemma_grown_then(more, after, all);
        lemma_id(names, key, all);
        lemma_forms(d, t, all);
        if !(d is Other) {
            lemma_head_key(d, t, all);
            lemma_key_tells(all, key, head_key(d, t, all), id_in(names, key) as int);
        }
        if let Datum::Applied(said, ds) = d {
            lemma_trees(ds, Seq::empty(), all);
            lemma_args_len(args@, more, res);
            if ds.len() == args@.len() {
                lemma_args_match(args@, more, res, all, ds);
                if matches_written(p, t, all, res, d) {
                    assert forall|i: int| 0 <= i < ps.len() implies view_matches(
                        #[trigger] ps[i],
                        v.args()[i],
                    ) by {
                        assert(matches_arg(args@[i], RcType::Infinite, all, res, ds[i]));
                    }
                }
                if view_matches(lowered(p, t, names, res).0, v) {
                    assert forall|a: int| 0 <= a < args@.len() implies matches_arg(
                        #[trigger] args@[a],
                        RcType::Infinite,
                        all,
                        res,
                        ds[a],
                    ) by {
                        assert(view_matches(ps[a], v.args()[a]));
                    }
                }
            }
        }
    }
}

proof fn lemma_args_len<R: CtorResolver>(args: Seq<PatternArg>, names: Names, res: &R)
    ensures
        lowered_args(args, names, res).0.len() == args.len(),
    decreases args.len(),
{
    if args.len() > 0 {
        lemma_args_len(args.drop_last(), names, res);
    }
}

/// A variant of a type.
proof fn lemma_variant<R: CtorResolver>(
    p: Pattern,
    t: RcType,
    names: Names,
    res: &R,
    all: Names,
    d: Datum,
)
    requires
        held(p, t, names, res, all, d),
        p is Constructor,
        t is Named,
    ensures
        view_matches(lowered(p, t, names, res).0, tree_of(d, t, all)) <==> matches_written(
            p,
            t,
            all,
            res,
            d,
        ),
    decreases p, 2nat,
{
    let v = tree_of(d, t, all);
    if let Pattern::Constructor { qualifier, name, args, rest, span } = p {
        let key = name.name@;
        let q = opt_name(qualifier);
        let cs = ctors_of(t);
        let (id, sig, more) = head_of(t, q, key, names, res);
        let (out, after) = lowered(p, t, names, res);
        lemma_head_grows(t, q, key, names, res);
        match sig {
            Some(c) => {
                let slots = crate::slots::slotted(sig_fields(c), arg_labels(args@));
                lemma_slots_grow(args@, slots, c.types, more, res, slots.len());
            },
            None => {
                lemma_args_grow(args@, more, res);
            },
        }
        lemma_grown_then(more, after, all);
        if let Datum::Variant(k, ds) = d {
            lemma_heads(t, q, key, names, res, all, k);
            lemma_trees(ds, cs[k].types, all);
            if is_head(t, all, q, key, res, k) {
                lemma_variant_fields(p, t, names, res, all, k, ds);
            }
        }
    }
}

/// A head's id is a variant's exactly when the head names it.
proof fn lemma_heads<R: CtorResolver>(
    t: RcType,
    q: Option<Seq<char>>,
    key: Seq<char>,
    names: Names,
    res: &R,
    all: Names,
    k: int,
)
    requires
        names.no_duplicates(),
        check_names(all),
        grown(head_of(t, q, key, names, res).2, all),
        named_in(t, all),
        t is Named,
        0 <= k < ctors_of(t).len(),
    ensures
        head_of(t, q, key, names, res).0 == ctors_of(t)[k].id <==> is_head(t, all, q, key, res, k),
        is_head(t, all, q, key, res, k) ==> head_of(t, q, key, names, res).1 == Some(
            ctors_of(t)[k],
        ),
{
    let cs = ctors_of(t);
    if let RcType::Named(c) = t {
        assert(variants_named(*c, all));
        assert forall|i: int, j: int| 0 <= i < cs.len() && 0 <= j < cs.len() && i != j implies (
        #[trigger] cs[i]).id != (#[trigger] cs[j]).id by {
            assert(cs[i] == sig_of(c.ctors@[i]));
            assert(cs[j] == sig_of(c.ctors@[j]));
            if i < j {
                assert(c.ctors@[i].id != c.ctors@[j].id);
            } else {
                assert(c.ctors@[j].id != c.ctors@[i].id);
            }
        }
        assert(cs[k] == sig_of(c.ctors@[k]));
        assert(c.ctors@[k].id < all.len());
        let by_name = match res.resolves(q, key) {
            Some(i) => i >= cs.len(),
            None => true,
        };
        if by_name {
            let id = id_in(names, key);
            lemma_id(names, key, all);
            lemma_find_sig_is(cs, id);
            assert(head_of(t, q, key, names, res) == named_head(t, key, names));
            assert(all[id as int] == all[cs[k].id as int] <==> id == cs[k].id);
        }
    }
}

/// A variant whose head fits matches by its fields.
proof fn lemma_variant_fields<R: CtorResolver>(
    p: Pattern,
    t: RcType,
    names: Names,
    res: &R,
    all: Names,
    k: int,
    ds: Seq<Datum>,
)
    requires
        held(p, t, names, res, all, Datum::Variant(k, ds)),
        p is Constructor,
        t is Named,
        is_head(t, all, opt_name(p->qualifier), p->Constructor_name.name@, res, k),
        head_of(t, opt_name(p->qualifier), p->Constructor_name.name@, names, res).0 == ctors_of(
            t,
        )[k].id,
        head_of(t, opt_name(p->qualifier), p->Constructor_name.name@, names, res).1 == Some(
            ctors_of(t)[k],
        ),
    ensures
        view_matches(
            lowered(p, t, names, res).0,
            tree_of(Datum::Variant(k, ds), t, all),
        ) <==> matches_written(p, t, all, res, Datum::Variant(k, ds)),
    decreases p, 1nat,
{
    let d = Datum::Variant(k, ds);
    let v = tree_of(d, t, all);
    if let Pattern::Constructor { qualifier, name, args, rest, span } = p {
        let c = ctors_of(t)[k];
        let fields = sig_fields(c);
        let labels = arg_labels(args@);
        let slots = crate::slots::slotted(fields, labels);
        let more = head_of(t, opt_name(qualifier), name.name@, names, res).2;
        lemma_head_grows(t, opt_name(qualifier), name.name@, names, res);
        law_slotted(fields, labels);
        crate::slots::lemma_slotted(fields, labels);
        lemma_parts_named(t, all);
        lemma_trees(ds, c.types, all);
        let n = slots.len();
        assert(n == c.types.len() && n == ds.len());
        assert(labels.len() == args@.len());
        assert forall|i: int| 0 <= i < n implies ((#[trigger] slots[i]) matches Some(a) ==> a
            < args@.len() ==> well_written_arg(args@[a as int], c.types[i], all, res)) by {
            if let Some(a) = slots[i] {
                assert(first_to(fields, labels, a as int, i));
                assert(well_written_arg(args@[a as int], ctors_of(t)[k].types[i], all, res));
            }
        }
        assert forall|i: int| 0 <= i < n implies named_in(#[trigger] c.types[i], all) by {
            assert(named_in(ctors_of(t)[k].types[i], all));
        }
        lemma_slots_match(args@, slots, c.types, more, res, n, all, ds);
        let ps = lowered_slots(args@, slots, c.types, more, res, n).0;
        assert(lowered(p, t, names, res).0 == PatView::Ctor { id: c.id, args: ps });
        assert(v.args().len() == n);
        if view_matches(lowered(p, t, names, res).0, v) {
            assert forall|a: int, f: int|
                0 <= a < args@.len() && 0 <= f < ds.len() && #[trigger] first_to(
                    sig_fields(ctors_of(t)[k]),
                    arg_labels(args@),
                    a,
                    f,
                ) implies matches_arg(args@[a], ctors_of(t)[k].types[f], all, res, ds[f]) by {
                assert(slots[f] == Some(a as nat));
                assert(view_matches(ps[f], v.args()[f]));
            }
        }
        if matches_written(p, t, all, res, d) {
            assert forall|i: int| 0 <= i < ps.len() implies view_matches(
                #[trigger] ps[i],
                v.args()[i],
            ) by {
                if let Some(a) = slots[i] {
                    assert(first_to(fields, labels, a as int, i));
                    assert(matches_arg(args@[a as int], c.types[i], all, res, ds[i]));
                }
            }
        }
    }
}

/// Lowering keeps what a pattern matches: the lowered pattern matches the tree of
/// a value exactly when the written one matches the value. `before` and `after`
/// are the names before and after lowering, and `all` those of the whole check.
pub proof fn law_lowering_keeps_what_matches<R: CtorResolver>(
    p: Pattern,
    t: RcType,
    lower: Pat,
    before: Names,
    after: Names,
    all: Names,
    res: &R,
    d: Datum,
)
    requires
        (pat_view(lower), after) == lowered(p, t, before, res),
        before.no_duplicates(),
        check_names(all),
        grown(after, all),
        named_in(t, all),
        well_written(p, t, all, res),
        of_type(d, t),
    ensures
        view_matches(pat_view(lower), tree_of(d, t, all)) <==> matches_written(p, t, all, res, d),
{
    lemma_matches(p, t, before, res, all, d);
}

/// A number in a pattern is not irrefutable: of all values of its type it
/// matches only its own. So numbers of different values match different values.
pub proof fn law_a_number_matches_itself_alone<R: CtorResolver>(
    n: NumberLiteral,
    m: NumberLiteral,
    before: Names,
    then: Names,
    all: Names,
    res: &R,
    d: Datum,
)
    requires
        before.no_duplicates(),
        then.no_duplicates(),
        check_names(all),
        number_ok(n),
        number_ok(m),
        grown(
            lowered(Pattern::Literal(PatternLiteral::Number(n)), RcType::Infinite, before, res).1,
            all,
        ),
        grown(
            lowered(Pattern::Literal(PatternLiteral::Number(m)), RcType::Infinite, then, res).1,
            all,
        ),
        of_type(d, RcType::Infinite),
    ensures
        ({
            let p = lowered(
                Pattern::Literal(PatternLiteral::Number(n)),
                RcType::Infinite,
                before,
                res,
            ).0;
            let q = lowered(
                Pattern::Literal(PatternLiteral::Number(m)),
                RcType::Infinite,
                then,
                res,
            ).0;
            let v = tree_of(d, RcType::Infinite, all);
            &&& n.int matches Some(i) ==> (view_matches(p, v) <==> d == Datum::Int(i))
            &&& !view_matches(p, tree_of(Datum::Other, RcType::Infinite, all))
            &&& view_matches(p, v) && view_matches(q, v) ==> number_key(n) == number_key(m)
            &&& n.int matches Some(i) ==> m.int matches Some(j) ==> view_matches(p, v)
                && view_matches(q, v) ==> i == j
        }),
{
    let p = Pattern::Literal(PatternLiteral::Number(n));
    let q = Pattern::Literal(PatternLiteral::Number(m));
    lemma_matches(p, RcType::Infinite, before, res, all, d);
    lemma_matches(q, RcType::Infinite, then, res, all, d);
    lemma_matches(p, RcType::Infinite, before, res, all, Datum::Other);
    assert(matches_written(p, RcType::Infinite, all, res, d) <==> match n.int {
        Some(i) => d == Datum::Int(i),
        None => d == Datum::Number(n.digits@),
    });
}

} // verus!
