//! Which instance of a nominal type is which: the key of its arguments tells
//! them apart as far as resolution needs.

use crate::text::decimal_int;
use crate::type_def::PrimitiveKind;
use crate::types::resolved::{keys_of, Resolved, type_key};
use crate::types::shape::{lemma_decimal_int, lemma_decimal_int_tells, lemma_split, lemma_strip};
use vstd::prelude::*;

verus! {

/// A type without the names of its variables and without the variants of its
/// nominal types, which the type's id and arguments already fix.
pub enum Outline {
    Primitive(PrimitiveKind),
    Var,
    Array(Box<Outline>),
    Tuple(Seq<Outline>),
    Function(Seq<Outline>, Box<Outline>),
    Named(int, Seq<Outline>),
}

pub open spec fn outline(t: Resolved) -> Outline
    decreases t,
{
    match t {
        Resolved::Primitive { kind } => Outline::Primitive(kind),
        Resolved::Var { name } => Outline::Var,
        Resolved::Array { element } => Outline::Array(Box::new(outline(*element))),
        Resolved::Tuple { elements } => Outline::Tuple(outlines(elements)),
        Resolved::Function { params, ret } => Outline::Function(
            outlines(params),
            Box::new(outline(*ret)),
        ),
        Resolved::Named { id, name, args, variants } => Outline::Named(
            id.0 as int,
            outlines(args),
        ),
    }
}

pub open spec fn outlines(ts: Seq<Resolved>) -> Seq<Outline>
    decreases ts,
{
    if ts.len() == 0 {
        Seq::empty()
    } else {
        outlines(ts.drop_last()).push(outline(ts.last()))
    }
}

proof fn lemma_outlines(ts: Seq<Resolved>)
    requires
        ts.len() > 0,
    ensures
        outlines(ts) == seq![outline(ts[0])] + outlines(ts.subrange(1, ts.len() as int)),
        outlines(ts).len() > 0,
    decreases ts.len(),
{
    let more = ts.subrange(1, ts.len() as int);
    if ts.len() == 1 {
        assert(ts.drop_last() =~= Seq::empty());
        assert(more =~= Seq::empty());
    } else {
        lemma_outlines(ts.drop_last());
        assert(ts.drop_last().subrange(1, ts.len() - 1) =~= more.drop_last());
        assert(more.last() == ts.last());
    }
    assert(outlines(ts) =~= seq![outline(ts[0])] + outlines(more));
}

proof fn lemma_keys(ts: Seq<Resolved>)
    requires
        ts.len() > 0,
    ensures
        keys_of(ts) == type_key(ts[0]) + (seq![','] + keys_of(ts.subrange(1, ts.len() as int))),
    decreases ts.len(),
{
    let more = ts.subrange(1, ts.len() as int);
    if ts.len() == 1 {
        assert(ts.drop_last() =~= Seq::empty());
        assert(more =~= Seq::empty());
    } else {
        lemma_keys(ts.drop_last());
        assert(ts.drop_last().subrange(1, ts.len() - 1) =~= more.drop_last());
        assert(more.last() == ts.last());
    }
    assert(keys_of(ts) =~= type_key(ts[0]) + (seq![','] + keys_of(more)));
}

/// The character a type's key begins with.
spec fn opening(t: Resolved) -> char {
    match t {
        Resolved::Primitive { kind } => match kind {
            PrimitiveKind::Int => 'i',
            PrimitiveKind::Float => 'f',
            PrimitiveKind::String => 's',
        },
        Resolved::Var { name } => '_',
        Resolved::Array { element } => '[',
        Resolved::Tuple { elements } => '(',
        Resolved::Function { params, ret } => '{',
        Resolved::Named { id, name, args, variants } => 'N',
    }
}

proof fn lemma_opening(t: Resolved)
    ensures
        type_key(t).len() > 0,
        type_key(t)[0] == opening(t),
{
}

/// No type begins here, so a list of types ends.
spec fn closes(u: Seq<char>) -> bool {
    u.len() == 0 || u[0] == ')' || u[0] == '-' || u[0] == '>'
}

/// What follows a type's key is told from it.
#[verifier::rlimit(40)]
proof fn lemma_key_tells(a: Resolved, u: Seq<char>, b: Resolved, v: Seq<char>)
    requires
        type_key(a) + u == type_key(b) + v,
    ensures
        outline(a) == outline(b),
        u == v,
    decreases a,
{
    lemma_opening(a);
    lemma_opening(b);
    assert((type_key(a) + u)[0] == opening(a));
    assert((type_key(b) + v)[0] == opening(b));
    match a {
        Resolved::Primitive { kind } => {
            assert(type_key(a) =~= seq![opening(a)]);
            assert(type_key(b) =~= seq![opening(b)]);
            lemma_strip(opening(a), u, v);
        },
        Resolved::Var { name } => {
            assert(type_key(b) =~= seq!['_']);
            lemma_strip('_', u, v);
        },
        Resolved::Array { element } => {
            if let Resolved::Array { element: other } = b {
                let (p, q) = (seq![']'] + u, seq![']'] + v);
                assert(type_key(a) + u =~= seq!['['] + (type_key(*element) + p));
                assert(type_key(b) + v =~= seq!['['] + (type_key(*other) + q));
                lemma_strip('[', type_key(*element) + p, type_key(*other) + q);
                lemma_key_tells(*element, p, *other, q);
                lemma_strip(']', u, v);
            }
        },
        Resolved::Tuple { elements } => {
            if let Resolved::Tuple { elements: others } = b {
                let (p, q) = (seq![')'] + u, seq![')'] + v);
                assert(type_key(a) + u =~= seq!['('] + (keys_of(elements) + p));
                assert(type_key(b) + v =~= seq!['('] + (keys_of(others) + q));
                lemma_strip('(', keys_of(elements) + p, keys_of(others) + q);
                lemma_keys_tell(elements, p, others, q);
                lemma_strip(')', u, v);
            }
        },
        Resolved::Function { params, ret } => {
            if let Resolved::Function { params: others, ret: result } = b {
                reveal_strlit("->");
                let (p, q) = (type_key(*ret) + (seq!['}'] + u), type_key(*result) + (seq!['}'] + v));
                let (x, y) = (seq!['-'] + (seq!['>'] + p), seq!['-'] + (seq!['>'] + q));
                assert(type_key(a) + u =~= seq!['{'] + (keys_of(params) + x));
                assert(type_key(b) + v =~= seq!['{'] + (keys_of(others) + y));
                lemma_strip('{', keys_of(params) + x, keys_of(others) + y);
                lemma_keys_tell(params, x, others, y);
                lemma_strip('-', seq!['>'] + p, seq!['>'] + q);
                lemma_strip('>', p, q);
                lemma_key_tells(*ret, seq!['}'] + u, *result, seq!['}'] + v);
                lemma_strip('}', u, v);
            }
        },
        Resolved::Named { id, name, args, variants } => {
            if let Resolved::Named { id: other, name: n, args: others, variants: w } = b {
                let (p, q) = (seq!['>'] + u, seq!['>'] + v);
                let (x, y) = (seq!['<'] + (keys_of(args) + p), seq!['<'] + (keys_of(others) + q));
                let (i, j) = (decimal_int(id.0 as int), decimal_int(other.0 as int));
                assert(type_key(a) + u =~= seq!['N'] + (i + x));
                assert(type_key(b) + v =~= seq!['N'] + (j + y));
                lemma_strip('N', i + x, j + y);
                lemma_decimal_int(id.0 as int);
                lemma_decimal_int(other.0 as int);
                lemma_split(i, x, j, y, |c: char| c == '<');
                lemma_decimal_int_tells(id.0 as int, other.0 as int);
                lemma_strip('<', keys_of(args) + p, keys_of(others) + q);
                lemma_keys_tell(args, p, others, q);
                lemma_strip('>', u, v);
            }
        },
    }
}

/// The same of lists of types.
proof fn lemma_keys_tell(xs: Seq<Resolved>, u: Seq<char>, ys: Seq<Resolved>, v: Seq<char>)
    requires
        keys_of(xs) + u == keys_of(ys) + v,
        closes(u),
        closes(v),
    ensures
        outlines(xs) == outlines(ys),
        u == v,
    decreases xs,
{
    if xs.len() > 0 {
        lemma_keys(xs);
        lemma_opening(xs[0]);
        assert((keys_of(xs) + u)[0] == opening(xs[0]));
    }
    if ys.len() > 0 {
        lemma_keys(ys);
        lemma_opening(ys[0]);
        assert((keys_of(ys) + v)[0] == opening(ys[0]));
    }
    if xs.len() == 0 {
        assert(keys_of(xs) + u =~= u);
    }
    if ys.len() == 0 {
        assert(keys_of(ys) + v =~= v);
    }
    if xs.len() > 0 && ys.len() > 0 {
        let (c, d) = (xs.subrange(1, xs.len() as int), ys.subrange(1, ys.len() as int));
        let (p, q) = (seq![','] + (keys_of(c) + u), seq![','] + (keys_of(d) + v));
        assert(keys_of(xs) + u =~= type_key(xs[0]) + p);
        assert(keys_of(ys) + v =~= type_key(ys[0]) + q);
        lemma_key_tells(xs[0], p, ys[0], q);
        lemma_strip(',', keys_of(c) + u, keys_of(d) + v);
        lemma_keys_tell(c, u, d, v);
        lemma_outlines(xs);
        lemma_outlines(ys);
    } else if xs.len() > 0 {
        assert((keys_of(xs) + u).len() > 0);
    } else if ys.len() > 0 {
        assert((keys_of(ys) + v).len() > 0);
    }
}

proof fn lemma_one_outline_one_key(a: Resolved, b: Resolved)
    requires
        outline(a) == outline(b),
    ensures
        type_key(a) == type_key(b),
    decreases a,
{
    match a {
        Resolved::Array { element } => {
            if let Resolved::Array { element: other } = b {
                lemma_one_outline_one_key(*element, *other);
            }
        },
        Resolved::Tuple { elements } => {
            if let Resolved::Tuple { elements: others } = b {
                lemma_one_outline_one_keys(elements, others);
            }
        },
        Resolved::Function { params, ret } => {
            if let Resolved::Function { params: others, ret: result } = b {
                lemma_one_outline_one_keys(params, others);
                lemma_one_outline_one_key(*ret, *result);
            }
        },
        Resolved::Named { id, name, args, variants } => {
            if let Resolved::Named { id: other, name: n, args: others, variants: w } = b {
                lemma_one_outline_one_keys(args, others);
            }
        },
        _ => {},
    }
}

proof fn lemma_one_outline_one_keys(xs: Seq<Resolved>, ys: Seq<Resolved>)
    requires
        outlines(xs) == outlines(ys),
    ensures
        keys_of(xs) == keys_of(ys),
    decreases xs,
{
    if xs.len() > 0 {
        lemma_outlines(xs);
    }
    if ys.len() > 0 {
        lemma_outlines(ys);
    }
    if xs.len() > 0 && ys.len() > 0 {
        assert(outlines(xs).drop_last() =~= outlines(xs.drop_last()));
        assert(outlines(ys).drop_last() =~= outlines(ys.drop_last()));
        assert(outlines(xs).last() == outline(xs.last()));
        assert(outlines(ys).last() == outline(ys.last()));
        lemma_one_outline_one_keys(xs.drop_last(), ys.drop_last());
        lemma_one_outline_one_key(xs.last(), ys.last());
    }
}

/// The key of a type's arguments pins the instance: two lists of arguments have
/// one key exactly when they agree but for the names of their variables and for
/// the variants of the nominal types in them.
pub proof fn law_key_pins_the_instance(xs: Seq<Resolved>, ys: Seq<Resolved>)
    ensures
        keys_of(xs) == keys_of(ys) <==> outlines(xs) == outlines(ys),
{
    if keys_of(xs) == keys_of(ys) {
        lemma_keys_tell(xs, Seq::empty(), ys, Seq::empty());
    }
    if outlines(xs) == outlines(ys) {
        lemma_one_outline_one_keys(xs, ys);
    }
}

} // verus!
