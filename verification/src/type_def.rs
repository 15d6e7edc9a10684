//! Resolved types: what a type is once inference has settled it.

use crate::text::{join, joined, texts};
use vstd::prelude::*;

verus! {

/// The nominal identity of a type.
#[derive(Debug, Clone, Copy, PartialEq, Eq, Structural, Hash)]
pub struct TypeId(pub i32);

#[derive(Debug, Clone, Copy, PartialEq, Eq, Structural)]
pub enum PrimitiveKind {
    Int,
    Float,
    String,
}

/// The name the prelude gives a primitive.
pub open spec fn prim_text(kind: PrimitiveKind) -> Seq<char> {
    match kind {
        PrimitiveKind::Int => "Int"@,
        PrimitiveKind::Float => "Float"@,
        PrimitiveKind::String => "String"@,
    }
}

pub fn prim_name(kind: PrimitiveKind) -> (r: &'static str)
    ensures
        r@ == prim_text(kind),
{
    match kind {
        PrimitiveKind::Int => "Int",
        PrimitiveKind::Float => "Float",
        PrimitiveKind::String => "String",
    }
}

/// A labelled field of a constructor variant, its type already substituted.
#[derive(Debug, PartialEq)]
pub struct FieldDef {
    pub label: String,
    pub ty: Type,
}

/// One constructor of a resolved nominal type, with its fields in declaration
/// order.
#[derive(Debug, PartialEq)]
pub struct VariantDef {
    pub name: String,
    pub fields: Vec<FieldDef>,
}

#[derive(Debug, PartialEq)]
pub enum Type {
    Primitive { kind: PrimitiveKind },
    Array { element: Box<Type> },
    Function { params: Vec<Type>, ret: Box<Type> },
    /// A user-defined nominal type. `variants` is in declaration order and has
    /// field types already substituted for `type_args`.
    Named { id: TypeId, name: String, type_args: Vec<Type>, variants: Vec<VariantDef> },
    Var { name: String },
    Tuple { elements: Vec<Type> },
}

/// How a type is written.
pub open spec fn type_text(t: Type) -> Seq<char>
    decreases t,
{
    match t {
        Type::Primitive { kind } => prim_text(kind),
        Type::Array { element } => "Array("@ + type_text(*element) + ")"@,
        Type::Function { params, ret } => "fn("@ + joined(type_texts(params@), ", "@) + ") "@
            + type_text(*ret),
        Type::Named { id, name, type_args, variants } => if type_args@.len() == 0 {
            name@
        } else {
            name@ + "("@ + joined(type_texts(type_args@), ", "@) + ")"@
        },
        Type::Var { name } => name@,
        Type::Tuple { elements } => "("@ + joined(type_texts(elements@), ", "@) + ")"@,
    }
}

/// How each of `ts` is written.
pub open spec fn type_texts(ts: Seq<Type>) -> Seq<Seq<char>>
    decreases ts,
{
    if ts.len() == 0 {
        Seq::empty()
    } else {
        type_texts(ts.drop_last()).push(type_text(ts.last()))
    }
}

impl Type {
    /// The type as source text writes it.
    pub fn text(&self) -> (r: String)
        ensures
            r@ == type_text(*self),
        decreases self,
    {
        match self {
            Type::Primitive { kind } => prim_name(*kind).to_owned(),
            Type::Array { element } => {
                let inner = element.text();
                let mut out = "Array(".to_owned();
                out.append(inner.as_str());
                out.append(")");
                out
            },
            Type::Function { params, ret } => {
                let ps = texts_of(params);
                let list = join(&ps, ", ");
                let r = ret.text();
                let mut out = "fn(".to_owned();
                out.append(list.as_str());
                out.append(") ");
                out.append(r.as_str());
                out
            },
            Type::Named { id: _, name, type_args, variants: _ } => {
                let mut out = name.clone();
                if type_args.len() > 0 {
                    let ts = texts_of(type_args);
                    let list = join(&ts, ", ");
                    out.append("(");
                    out.append(list.as_str());
                    out.append(")");
                }
                out
            },
            Type::Var { name } => name.clone(),
            Type::Tuple { elements } => {
                let ts = texts_of(elements);
                let list = join(&ts, ", ");
                let mut out = "(".to_owned();
                out.append(list.as_str());
                out.append(")");
                out
            },
        }
    }
}

fn texts_of(ts: &Vec<Type>) -> (r: Vec<String>)
    ensures
        texts(r@) == type_texts(ts@),
    decreases ts@,
{
    let mut out: Vec<String> = Vec::new();
    let mut i: usize = 0;
    proof {
        assert(texts(out@) =~= type_texts(ts@.take(0)));
    }
    while i < ts.len()
        invariant
            i <= ts.len(),
            texts(out@) == type_texts(ts@.take(i as int)),
        decreases ts.len() - i,
    {
        let t = ts[i].text();
        let ghost before = out@;
        out.push(t);
        proof {
            let next = ts@.take(i + 1);
            assert(next.drop_last() =~= ts@.take(i as int));
            assert(texts(out@) =~= texts(before).push(t@));
        }
        i += 1;
    }
    proof {
        assert(ts@.take(i as int) =~= ts@);
    }
    out
}

pub fn t_int() -> (r: Type)
    ensures
        r == (Type::Primitive { kind: PrimitiveKind::Int }),
{
    Type::Primitive { kind: PrimitiveKind::Int }
}

pub fn t_float() -> (r: Type)
    ensures
        r == (Type::Primitive { kind: PrimitiveKind::Float }),
{
    Type::Primitive { kind: PrimitiveKind::Float }
}

pub fn t_string() -> (r: Type)
    ensures
        r == (Type::Primitive { kind: PrimitiveKind::String }),
{
    Type::Primitive { kind: PrimitiveKind::String }
}

pub fn t_var(name: &str) -> (r: Type)
    ensures
        r matches Type::Var { name: n } && n@ == name@,
{
    Type::Var { name: name.to_owned() }
}

pub fn t_array(element: Type) -> (r: Type)
    ensures
        r == (Type::Array { element: Box::new(element) }),
{
    Type::Array { element: Box::new(element) }
}

pub fn t_tuple(elements: Vec<Type>) -> (r: Type)
    ensures
        r == (Type::Tuple { elements }),
{
    Type::Tuple { elements }
}

pub fn t_named(id: TypeId, name: &str, type_args: Vec<Type>, variants: Vec<VariantDef>) -> (r: Type)
    ensures
        r matches Type::Named { id: i, name: n, type_args: ta, variants: vs } && i == id && n@
            == name@ && ta == type_args && vs == variants,
{
    Type::Named { id, name: name.to_owned(), type_args, variants }
}

} // verus!
