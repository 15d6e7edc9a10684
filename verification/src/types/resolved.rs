//! What resolving a type gives: the nominal types it mentions are looked up
//! and their variant tables unrolled, as far as the path of types being
//! unrolled allows.

use crate::entries::Entries;
use crate::text::{decimal_int, joined};
use crate::type_def::{
    FieldDef, prim_text, PrimitiveKind, Type, type_text, type_texts, TypeId, VariantDef,
};
use crate::types::environment::{TypeBody, TypeInfo, TypeParam, Variant, VariantField};
use crate::types::letters::letters;
use crate::types::naming::Naming;
use crate::types::node::{Constraint, covered, PrimIds, Ty};
use crate::types::rewrite::{rewritten, substituting, weight};
use crate::types::term::{occurs, Term};
use vstd::prelude::*;

verus! {

/// A resolved type as a value.
pub enum Resolved {
    Primitive { kind: PrimitiveKind },
    Array { element: Box<Resolved> },
    Function { params: Seq<Resolved>, ret: Box<Resolved> },
    Named { id: TypeId, name: Seq<char>, args: Seq<Resolved>, variants: Seq<ResolvedVariant> },
    Var { name: Seq<char> },
    Tuple { elements: Seq<Resolved> },
}

pub struct ResolvedVariant {
    pub name: Seq<char>,
    pub fields: Seq<ResolvedField>,
}

pub struct ResolvedField {
    pub label: Seq<char>,
    pub ty: Resolved,
}

pub open spec fn type_value(t: Type) -> Resolved
    decreases t, 1nat,
{
    match t {
        Type::Primitive { kind } => Resolved::Primitive { kind },
        Type::Array { element } => Resolved::Array { element: Box::new(type_value(*element)) },
        Type::Function { params, ret } => Resolved::Function {
            params: type_values(params@),
            ret: Box::new(type_value(*ret)),
        },
        Type::Named { id, name, type_args, variants } => Resolved::Named {
            id,
            name: name@,
            args: type_values(type_args@),
            variants: variant_values(variants@),
        },
        Type::Var { name } => Resolved::Var { name: name@ },
        Type::Tuple { elements } => Resolved::Tuple { elements: type_values(elements@) },
    }
}

pub open spec fn type_values(ts: Seq<Type>) -> Seq<Resolved>
    decreases ts, 0nat,
{
    Seq::new(
        ts.len(),
        |i: int|
            if 0 <= i < ts.len() {
                type_value(ts[i])
            } else {
                Resolved::Tuple { elements: Seq::empty() }
            },
    )
}

pub open spec fn variant_values(vs: Seq<VariantDef>) -> Seq<ResolvedVariant>
    decreases vs, 0nat,
{
    Seq::new(
        vs.len(),
        |i: int|
            if 0 <= i < vs.len() {
                variant_value(vs[i])
            } else {
                ResolvedVariant { name: Seq::empty(), fields: Seq::empty() }
            },
    )
}

pub open spec fn variant_value(v: VariantDef) -> ResolvedVariant
    decreases v, 1nat,
{
    ResolvedVariant { name: v.name@, fields: field_values(v.fields@) }
}

pub open spec fn field_values(fs: Seq<FieldDef>) -> Seq<ResolvedField>
    decreases fs, 0nat,
{
    Seq::new(
        fs.len(),
        |i: int|
            if 0 <= i < fs.len() {
                field_value(fs[i])
            } else {
                ResolvedField { label: Seq::empty(), ty: Resolved::Tuple { elements: Seq::empty() } }
            },
    )
}

pub open spec fn field_value(f: FieldDef) -> ResolvedField
    decreases f, 1nat,
{
    ResolvedField { label: f.label@, ty: type_value(f.ty) }
}

/// The key of a type within the path: its shape, with variables alike and
/// without variant tables.
pub open spec fn type_key(t: Resolved) -> Seq<char>
    decreases t,
{
    match t {
        Resolved::Primitive { kind } => match kind {
            PrimitiveKind::Int => seq!['i'],
            PrimitiveKind::Float => seq!['f'],
            PrimitiveKind::String => seq!['s'],
        },
        Resolved::Var { name } => seq!['_'],
        Resolved::Array { element } => seq!['['] + type_key(*element) + seq![']'],
        Resolved::Tuple { elements } => seq!['('] + keys_of(elements) + seq![')'],
        Resolved::Function { params, ret } => seq!['{'] + keys_of(params) + "->"@ + type_key(*ret)
            + seq!['}'],
        Resolved::Named { id, name, args, variants } => seq!['N'] + decimal_int(id.0 as int)
            + seq!['<'] + keys_of(args) + seq!['>'],
    }
}

/// The keys of some types, each with a comma behind it.
pub open spec fn keys_of(ts: Seq<Resolved>) -> Seq<char>
    decreases ts,
{
    if ts.len() == 0 {
        Seq::empty()
    } else {
        keys_of(ts.drop_last()) + type_key(ts.last()) + seq![',']
    }
}

/// What resolution reads beside the type itself.
pub struct World {
    pub prims: PrimIds,
    pub ids: Entries<i32, TypeInfo>,
    pub variants: Seq<Variant>,
    pub fields: Seq<VariantField>,
    pub params: Seq<TypeParam>,
    pub strings: Seq<Seq<char>>,
    pub known: spec_fn(Ty) -> bool,
    pub types: spec_fn(Ty) -> Term,
    pub constraints: spec_fn(i32) -> Option<Constraint>,
}

pub open spec fn field_ok(w: World, f: VariantField) -> bool {
    f.label.0 < w.strings.len() && (w.known)(f.ty)
}

pub open spec fn variant_ok(w: World, v: Variant) -> bool {
    &&& v.name.0 < w.strings.len()
    &&& v.fields.start + v.fields.len <= w.fields.len()
    &&& forall|i: int|
        0 <= i < v.fields.len ==> field_ok(w, #[trigger] covered(w.fields, v.fields)[i])
}

pub open spec fn info_ok(w: World, ti: TypeInfo) -> bool {
    &&& ti.type_params.start + ti.type_params.len <= w.params.len()
    &&& match ti.body {
        TypeBody::Custom { variants, ctors_public, must_name_variants } => variants.start
            + variants.len <= w.variants.len() && forall|i: int|
            0 <= i < variants.len ==> variant_ok(w, #[trigger] covered(w.variants, variants)[i]),
        TypeBody::Alias { target } => (w.known)(target),
        _ => true,
    }
}

/// Everything the type records refer to is there.
pub open spec fn world_ok(w: World) -> bool {
    &&& w.ids.wf()
    &&& forall|i: int| 0 <= i < w.ids.vals.len() ==> info_ok(w, #[trigger] w.ids.vals[i])
}

/// The nominal types being unrolled, outermost first, each with the key of its
/// arguments.
pub type Path = Seq<(TypeId, Seq<char>)>;

/// How often this very instance is on the path.
pub open spec fn exact(path: Path, id: TypeId, key: Seq<char>) -> nat
    decreases path.len(),
{
    if path.len() == 0 {
        0
    } else {
        exact(path.drop_last(), id, key) + if path.last().0 == id && path.last().1 == key {
            1nat
        } else {
            0nat
        }
    }
}

/// How often other instances of the type are on the path.
pub open spec fn distinct(path: Path, id: TypeId, key: Seq<char>) -> nat
    decreases path.len(),
{
    if path.len() == 0 {
        0
    } else {
        distinct(path.drop_last(), id, key) + if path.last().0 == id && path.last().1 != key {
            1nat
        } else {
            0nat
        }
    }
}

/// How many times one nominal type may re-occur along a path, with other
/// arguments each time, before it is cut off. Bounds types such as
/// `type Nest(t) { More(Nest((t, t))) Done }`, whose argument grows forever.
pub const MAX_NOMINAL_RECURRENCE: usize = 16;

/// Hard cap on how often one exact instance may be unrolled.
pub const MAX_SAME_INSTANCE_UNROLL: usize = 32;

/// The instance would recur: it is on the path `limit` times already, or the
/// type is there too often with other arguments.
pub open spec fn recurs(path: Path, id: TypeId, key: Seq<char>, limit: nat) -> bool {
    exact(path, id, key) >= limit || distinct(path, id, key) >= MAX_NOMINAL_RECURRENCE
}

/// No path gets this long; see [`law_paths_are_short`].
pub open spec fn cap(w: World, limit: nat) -> nat {
    w.ids.keys.len() * (MAX_NOMINAL_RECURRENCE + limit) as nat
}

pub open spec fn left(w: World, path: Path, limit: nat) -> nat {
    if path.len() < cap(w, limit) {
        (cap(w, limit) - path.len()) as nat
    } else {
        0
    }
}

/// What resolving gives: the type, the display names given out, and a bound on
/// how many nodes and strings it adds to the engine.
pub struct Out {
    pub ty: Resolved,
    pub naming: Naming,
    pub cost: nat,
}

pub struct Outs {
    pub tys: Seq<Resolved>,
    pub naming: Naming,
    pub cost: nat,
}

pub struct FieldOuts {
    pub fields: Seq<ResolvedField>,
    pub naming: Naming,
    pub cost: nat,
}

pub struct VariantOuts {
    pub variants: Seq<ResolvedVariant>,
    pub naming: Naming,
    pub cost: nat,
}

/// A variant at the end of the table, or in the place of one with its name.
pub open spec fn put_variant(vs: Seq<ResolvedVariant>, v: ResolvedVariant) -> Seq<ResolvedVariant> {
    if exists|i: int| 0 <= i < vs.len() && (#[trigger] vs[i]).name == v.name {
        vs.update(first_named(vs, v.name), v)
    } else {
        vs.push(v)
    }
}

pub open spec fn first_named(vs: Seq<ResolvedVariant>, name: Seq<char>) -> int
    decreases vs.len(),
{
    if vs.len() == 0 {
        0
    } else if vs[0].name == name {
        0
    } else {
        1 + first_named(vs.skip(1), name)
    }
}

/// A type, resolved.
pub open spec fn resolved(w: World, t: Term, n: Naming, path: Path, limit: nat) -> Out
    decreases left(w, path, limit), 1nat, t,
{
    match t {
        Term::Var(v) => match (w.constraints)(v) {
            Some(c) => Out { ty: Resolved::Var { name: c.spec_name() }, naming: n, cost: 0 },
            None => {
                let m = n.named(v);
                Out {
                    ty: Resolved::Var { name: m.names[v] },
                    naming: m,
                    cost: if n.names.contains_key(v) {
                        0
                    } else {
                        1
                    },
                }
            },
        },
        Term::Bound(i) => Out {
            ty: Resolved::Var { name: letters(i as nat) },
            naming: n,
            cost: 0,
        },
        Term::Fun { params, ret } => {
            let ps = resolved_all(w, params, n, path, limit);
            let r = resolved(w, *ret, ps.naming, path, limit);
            Out {
                ty: Resolved::Function { params: ps.tys, ret: Box::new(r.ty) },
                naming: r.naming,
                cost: ps.cost + r.cost,
            }
        },
        Term::Tuple { elems } => {
            let es = resolved_all(w, elems, n, path, limit);
            Out {
                ty: Resolved::Tuple { elements: es.tys },
                naming: es.naming,
                cost: es.cost,
            }
        },
        Term::Con { id, name, args } => match w.prims.spec_prim_of(id) {
            Some(kind) => Out { ty: Resolved::Primitive { kind }, naming: n, cost: 0 },
            None => if id == w.prims.array {
                if args.len() == 0 {
                    Out {
                        ty: Resolved::Array { element: Box::new(Resolved::Var { name: "a"@ }) },
                        naming: n,
                        cost: 0,
                    }
                } else {
                    let e = resolved(w, args[0], n, path, limit);
                    Out {
                        ty: Resolved::Array { element: Box::new(e.ty) },
                        naming: e.naming,
                        cost: e.cost,
                    }
                }
            } else {
                let a = resolved_all(w, args, n, path, limit);
                let key = keys_of(a.tys);
                let bare = Out {
                    ty: Resolved::Named {
                        id,
                        name: w.strings[name.0 as int],
                        args: a.tys,
                        variants: Seq::empty(),
                    },
                    naming: a.naming,
                    cost: a.cost,
                };
                match w.ids.get(id.0) {
                    Some(info) => if recurs(path, id, key, limit) || path.len() >= cap(w, limit) {
                        bare
                    } else {
                        let inner = path.push((id, key));
                        let params = covered(w.params, info.type_params);
                        match info.body {
                            TypeBody::Custom { variants, ctors_public, must_name_variants } => {
                                let vs = resolved_variants(
                                    w,
                                    covered(w.variants, variants),
                                    params,
                                    args,
                                    a.naming,
                                    inner,
                                    limit,
                                );
                                Out {
                                    ty: Resolved::Named {
                                        id,
                                        name: w.strings[name.0 as int],
                                        args: a.tys,
                                        variants: vs.variants,
                                    },
                                    naming: vs.naming,
                                    cost: a.cost + vs.cost,
                                }
                            },
                            TypeBody::Alias { target } => {
                                let body = (w.types)(target);
                                let o = resolved(
                                    w,
                                    rewritten(substituting(params, args), body),
                                    a.naming,
                                    inner,
                                    limit,
                                );
                                Out {
                                    ty: o.ty,
                                    naming: o.naming,
                                    cost: a.cost + weight(body) + o.cost,
                                }
                            },
                            _ => bare,
                        }
                    },
                    None => bare,
                }
            },
        },
    }
}

pub open spec fn resolved_all(w: World, ts: Seq<Term>, n: Naming, path: Path, limit: nat) -> Outs
    decreases left(w, path, limit), 1nat, ts,
{
    if ts.len() == 0 {
        Outs { tys: Seq::empty(), naming: n, cost: 0 }
    } else {
        let init = resolved_all(w, ts.drop_last(), n, path, limit);
        let o = resolved(w, ts.last(), init.naming, path, limit);
        Outs { tys: init.tys.push(o.ty), naming: o.naming, cost: init.cost + o.cost }
    }
}

pub open spec fn resolved_fields(
    w: World,
    fs: Seq<VariantField>,
    params: Seq<TypeParam>,
    args: Seq<Term>,
    n: Naming,
    path: Path,
    limit: nat,
) -> FieldOuts
    decreases left(w, path, limit), 2nat, fs,
{
    if fs.len() == 0 {
        FieldOuts { fields: Seq::empty(), naming: n, cost: 0 }
    } else {
        let init = resolved_fields(w, fs.drop_last(), params, args, n, path, limit);
        let f = fs.last();
        let body = (w.types)(f.ty);
        let o = resolved(
            w,
            rewritten(substituting(params, args), body),
            init.naming,
            path,
            limit,
        );
        FieldOuts {
            fields: init.fields.push(
                ResolvedField { label: w.strings[f.label.0 as int], ty: o.ty },
            ),
            naming: o.naming,
            cost: init.cost + weight(body) + o.cost,
        }
    }
}

pub open spec fn resolved_variants(
    w: World,
    vs: Seq<Variant>,
    params: Seq<TypeParam>,
    args: Seq<Term>,
    n: Naming,
    path: Path,
    limit: nat,
) -> VariantOuts
    decreases left(w, path, limit), 3nat, vs,
{
    if vs.len() == 0 {
        VariantOuts { variants: Seq::empty(), naming: n, cost: 0 }
    } else {
        let init = resolved_variants(w, vs.drop_last(), params, args, n, path, limit);
        let v = vs.last();
        let fs = resolved_fields(
            w,
            covered(w.fields, v.fields),
            params,
            args,
            init.naming,
            path,
            limit,
        );
        VariantOuts {
            variants: put_variant(
                init.variants,
                ResolvedVariant { name: w.strings[v.name.0 as int], fields: fs.fields },
            ),
            naming: fs.naming,
            cost: init.cost + fs.cost,
        }
    }
}

/// The costs of a prefix are part of the costs of the whole.
pub proof fn lemma_all_cost(w: World, ts: Seq<Term>, n: Naming, path: Path, limit: nat, i: int)
    requires
        0 <= i <= ts.len(),
    ensures
        resolved_all(w, ts.take(i), n, path, limit).cost <= resolved_all(w, ts, n, path, limit).cost,
        resolved_all(w, ts, n, path, limit).tys.len() == ts.len(),
    decreases ts.len(),
{
    if ts.len() > 0 {
        if i < ts.len() {
            lemma_all_cost(w, ts.drop_last(), n, path, limit, i);
            assert(ts.drop_last().take(i) =~= ts.take(i));
        } else {
            assert(ts.take(i) =~= ts);
            lemma_all_cost(w, ts.drop_last(), n, path, limit, 0);
        }
    } else {
        assert(ts.take(i) =~= ts);
    }
}

pub proof fn lemma_fields_cost(
    w: World,
    fs: Seq<VariantField>,
    params: Seq<TypeParam>,
    args: Seq<Term>,
    n: Naming,
    path: Path,
    limit: nat,
    i: int,
)
    requires
        0 <= i <= fs.len(),
    ensures
        resolved_fields(w, fs.take(i), params, args, n, path, limit).cost <= resolved_fields(
            w,
            fs,
            params,
            args,
            n,
            path,
            limit,
        ).cost,
    decreases fs.len(),
{
    if i < fs.len() {
        lemma_fields_cost(w, fs.drop_last(), params, args, n, path, limit, i);
        assert(fs.drop_last().take(i) =~= fs.take(i));
    } else {
        assert(fs.take(i) =~= fs);
    }
}

pub proof fn lemma_variants_cost(
    w: World,
    vs: Seq<Variant>,
    params: Seq<TypeParam>,
    args: Seq<Term>,
    n: Naming,
    path: Path,
    limit: nat,
    i: int,
)
    requires
        0 <= i <= vs.len(),
    ensures
        resolved_variants(w, vs.take(i), params, args, n, path, limit).cost <= resolved_variants(
            w,
            vs,
            params,
            args,
            n,
            path,
            limit,
        ).cost,
    decreases vs.len(),
{
    if i < vs.len() {
        lemma_variants_cost(w, vs.drop_last(), params, args, n, path, limit, i);
        assert(vs.drop_last().take(i) =~= vs.take(i));
    } else {
        assert(vs.take(i) =~= vs);
    }
}

/// Every step of the path was taken only because the type did not recur, and
/// is a registered type.
pub open spec fn path_ok(w: World, path: Path, limit: nat) -> bool {
    forall|i: int| 0 <= i < path.len() ==> #[trigger] step_ok(w, path, i, limit)
}

pub open spec fn step_ok(w: World, path: Path, i: int, limit: nat) -> bool {
    w.ids.has(path[i].0.0) && !recurs(path.take(i), path[i].0, path[i].1, limit)
}

/// How often a type is on the path.
spec fn times(path: Path, id: i32) -> nat
    decreases path.len(),
{
    if path.len() == 0 {
        0
    } else {
        times(path.drop_last(), id) + if path.last().0.0 == id {
            1nat
        } else {
            0nat
        }
    }
}

spec fn total(keys: Seq<i32>, path: Path) -> nat
    decreases keys.len(),
{
    if keys.len() == 0 {
        0
    } else {
        total(keys.drop_last(), path) + times(path, keys.last())
    }
}

proof fn lemma_times(path: Path, id: TypeId, key: Seq<char>)
    ensures
        times(path, id.0) == exact(path, id, key) + distinct(path, id, key),
    decreases path.len(),
{
    if path.len() > 0 {
        lemma_times(path.drop_last(), id, key);
        assert(path.last().0 == id <==> path.last().0.0 == id.0);
    }
}

proof fn lemma_times_bound(w: World, path: Path, limit: nat, id: i32)
    requires
        path_ok(w, path, limit),
        limit >= 1,
    ensures
        times(path, id) <= limit + 15,
    decreases path.len(),
{
    if path.len() > 0 {
        let init = path.drop_last();
        let last = path.last();
        assert(path_ok(w, init, limit)) by {
            assert forall|i: int| 0 <= i < init.len() implies #[trigger] step_ok(
                w,
                init,
                i,
                limit,
            ) by {
                assert(step_ok(w, path, i, limit));
                assert(init.take(i) =~= path.take(i));
            }
        }
        lemma_times_bound(w, init, limit, id);
        if last.0.0 == id {
            assert(step_ok(w, path, path.len() - 1, limit));
            assert(path.take(path.len() - 1) =~= init);
            lemma_times(init, last.0, last.1);
        }
    }
}

proof fn lemma_total_push(keys: Seq<i32>, path: Path, x: (TypeId, Seq<char>))
    requires
        keys.no_duplicates(),
    ensures
        total(keys, path.push(x)) == total(keys, path) + (if keys.contains(x.0.0) {
            1nat
        } else {
            0nat
        }),
    decreases keys.len(),
{
    if keys.len() > 0 {
        let init = keys.drop_last();
        lemma_total_push(init, path, x);
        assert(path.push(x).drop_last() =~= path);
        assert(path.push(x).last() == x);
        if keys.last() == x.0.0 {
            assert(!init.contains(x.0.0)) by {
                if init.contains(x.0.0) {
                    let i = init.index_of(x.0.0);
                    assert(keys[i] == keys[keys.len() - 1]);
                }
            }
            assert(keys[keys.len() - 1] == x.0.0);
        } else {
            assert(init.contains(x.0.0) <==> keys.contains(x.0.0)) by {
                if keys.contains(x.0.0) {
                    let i = keys.index_of(x.0.0);
                    assert(init[i] == x.0.0);
                }
                if init.contains(x.0.0) {
                    let i = init.index_of(x.0.0);
                    assert(keys[i] == x.0.0);
                }
            }
        }
    }
}

proof fn lemma_total_len(w: World, path: Path, limit: nat)
    requires
        w.ids.wf(),
        path_ok(w, path, limit),
    ensures
        total(w.ids.keys, path) == path.len(),
    decreases path.len(),
{
    if path.len() == 0 {
        lemma_total_empty(w.ids.keys, path);
    } else {
        let init = path.drop_last();
        assert(path_ok(w, init, limit)) by {
            assert forall|i: int| 0 <= i < init.len() implies #[trigger] step_ok(
                w,
                init,
                i,
                limit,
            ) by {
                assert(step_ok(w, path, i, limit));
                assert(init.take(i) =~= path.take(i));
            }
        }
        lemma_total_len(w, init, limit);
        assert(step_ok(w, path, path.len() - 1, limit));
        lemma_total_push(w.ids.keys, init, path.last());
        assert(init.push(path.last()) =~= path);
    }
}

proof fn lemma_total_empty(keys: Seq<i32>, path: Path)
    requires
        path.len() == 0,
    ensures
        total(keys, path) == 0,
    decreases keys.len(),
{
    if keys.len() > 0 {
        lemma_total_empty(keys.drop_last(), path);
    }
}

proof fn lemma_total_bound(w: World, keys: Seq<i32>, path: Path, limit: nat)
    requires
        path_ok(w, path, limit),
        limit >= 1,
    ensures
        total(keys, path) <= keys.len() * (limit + 15),
    decreases keys.len(),
{
    if keys.len() > 0 {
        lemma_total_bound(w, keys.drop_last(), path, limit);
        lemma_times_bound(w, path, limit, keys.last());
        assert((keys.len() - 1) * (limit + 15) + (limit + 15) == keys.len() * (limit + 15))
            by (nonlinear_arith);
    }
}

/// Unrolling comes to an end: a path on which nothing recurs is shorter than
/// the cap, so the cap never cuts anything off.
pub proof fn law_paths_are_short(w: World, path: Path, limit: nat)
    requires
        w.ids.wf(),
        w.ids.keys.len() > 0,
        limit >= 1,
        path_ok(w, path, limit),
    ensures
        path.len() < cap(w, limit),
{
    lemma_total_len(w, path, limit);
    lemma_total_bound(w, w.ids.keys, path, limit);
    let k = w.ids.keys.len();
    assert(k * (limit + 15) < k * (16 + limit)) by (nonlinear_arith)
        requires
            k > 0,
    ;
}

/// How a resolved type is written.
pub open spec fn value_text(t: Resolved) -> Seq<char>
    decreases t,
{
    match t {
        Resolved::Primitive { kind } => prim_text(kind),
        Resolved::Array { element } => "Array("@ + value_text(*element) + ")"@,
        Resolved::Function { params, ret } => "fn("@ + joined(value_texts(params), ", "@) + ") "@
            + value_text(*ret),
        Resolved::Named { id, name, args, variants } => if args.len() == 0 {
            name
        } else {
            name + "("@ + joined(value_texts(args), ", "@) + ")"@
        },
        Resolved::Var { name } => name,
        Resolved::Tuple { elements } => "("@ + joined(value_texts(elements), ", "@) + ")"@,
    }
}

pub open spec fn value_texts(ts: Seq<Resolved>) -> Seq<Seq<char>>
    decreases ts,
{
    if ts.len() == 0 {
        Seq::empty()
    } else {
        value_texts(ts.drop_last()).push(value_text(ts.last()))
    }
}

/// A type is written as its value is.
pub proof fn lemma_value_text(t: Type)
    ensures
        type_text(t) == value_text(type_value(t)),
    decreases t, 1nat,
{
    match t {
        Type::Primitive { kind } => {},
        Type::Var { name } => {},
        Type::Array { element } => {
            lemma_value_text(*element);
        },
        Type::Function { params, ret } => {
            lemma_value_texts(params@);
            lemma_value_text(*ret);
        },
        Type::Named { id, name, type_args, variants } => {
            lemma_value_texts(type_args@);
        },
        Type::Tuple { elements } => {
            lemma_value_texts(elements@);
        },
    }
}

proof fn lemma_value_texts(ts: Seq<Type>)
    ensures
        type_texts(ts) == value_texts(type_values(ts)),
    decreases ts, 0nat,
{
    if ts.len() > 0 {
        lemma_value_texts(ts.drop_last());
        lemma_value_text(ts.last());
        assert(type_values(ts).drop_last() =~= type_values(ts.drop_last()));
        assert(type_values(ts).last() == type_value(ts.last()));
    }
}

/// The variables below `count` that have no name yet.
pub open spec fn nameless(n: Naming, count: int) -> Set<i32> {
    Set::new(|v: i32| 0 <= v < count && !n.names.contains_key(v))
}

pub proof fn lemma_nameless_finite(n: Naming, count: int)
    ensures
        nameless(n, count).finite(),
    decreases count,
{
    if count <= 0 {
        assert(nameless(n, count) =~= Set::empty());
    } else {
        lemma_nameless_finite(n, count - 1);
        let rest = nameless(n, count - 1);
        let v = (count - 1) as i32;
        if count - 1 <= i32::MAX {
            assert(nameless(n, count).subset_of(rest.insert(v)));
            vstd::set_lib::lemma_set_subset_finite(rest.insert(v), nameless(n, count));
        } else {
            assert(nameless(n, count) =~= rest);
        }
    }
}

pub open spec fn vars_below(t: Term, count: int) -> bool {
    forall|v: i32| #[trigger] occurs(v, t) ==> 0 <= v < count
}

pub open spec fn all_vars_below(ts: Seq<Term>, count: int) -> bool {
    forall|i: int| 0 <= i < ts.len() ==> vars_below(#[trigger] ts[i], count)
}

/// With no nominal type to look up, all that resolving costs is names: one for
/// each variable that had none.
pub proof fn lemma_names_cost(w: World, t: Term, n: Naming, path: Path, limit: nat, count: int)
    requires
        w.ids.keys.len() == 0,
        w.ids.vals.len() == 0,
        vars_below(t, count),
    ensures
        ({
            let o = resolved(w, t, n, path, limit);
            o.cost + nameless(o.naming, count).len() <= nameless(n, count).len()
        }),
    decreases t, 1nat,
{
    lemma_nameless_finite(n, count);
    match t {
        Term::Var(v) => {
            assert(occurs(v, t));
            if (w.constraints)(v) is None && !n.names.contains_key(v) {
                assert(nameless(n.named(v), count) =~= nameless(n, count).remove(v));
            }
        },
        Term::Bound(i) => {},
        Term::Fun { params, ret } => {
            assert forall|v: i32| #[trigger] occurs(v, *ret) implies 0 <= v < count by {
                assert(occurs(v, t));
            }
            assert(all_vars_below(params, count)) by {
                assert forall|i: int| 0 <= i < params.len() implies vars_below(
                    #[trigger] params[i],
                    count,
                ) by {
                    assert forall|v: i32| #[trigger] occurs(v, params[i]) implies 0 <= v
                        < count by {
                        assert(occurs(v, t));
                    }
                }
            }
            lemma_names_costs(w, params, n, path, limit, count);
            let ps = resolved_all(w, params, n, path, limit);
            lemma_names_cost(w, *ret, ps.naming, path, limit, count);
        },
        Term::Tuple { elems } => {
            assert forall|i: int| 0 <= i < elems.len() implies vars_below(
                #[trigger] elems[i],
                count,
            ) by {
                assert forall|v: i32| #[trigger] occurs(v, elems[i]) implies 0 <= v < count by {
                    assert(occurs(v, t));
                }
            }
            lemma_names_costs(w, elems, n, path, limit, count);
        },
        Term::Con { id, name, args } => {
            assert forall|i: int| 0 <= i < args.len() implies vars_below(
                #[trigger] args[i],
                count,
            ) by {
                assert forall|v: i32| #[trigger] occurs(v, args[i]) implies 0 <= v < count by {
                    assert(occurs(v, t));
                }
            }
            lemma_names_costs(w, args, n, path, limit, count);
            if args.len() > 0 {
                lemma_names_cost(w, args[0], n, path, limit, count);
            }
            assert(!w.ids.keys.contains(id.0));
        },
    }
}

proof fn lemma_names_costs(
    w: World,
    ts: Seq<Term>,
    n: Naming,
    path: Path,
    limit: nat,
    count: int,
)
    requires
        w.ids.keys.len() == 0,
        w.ids.vals.len() == 0,
        all_vars_below(ts, count),
    ensures
        ({
            let o = resolved_all(w, ts, n, path, limit);
            o.cost + nameless(o.naming, count).len() <= nameless(n, count).len()
        }),
    decreases ts, 0nat,
{
    if ts.len() > 0 {
        assert forall|i: int| 0 <= i < ts.drop_last().len() implies vars_below(
            #[trigger] ts.drop_last()[i],
            count,
        ) by {
            assert(ts.drop_last()[i] == ts[i]);
        }
        lemma_names_costs(w, ts.drop_last(), n, path, limit, count);
        assert(vars_below(ts[ts.len() - 1], count));
        lemma_names_cost(
            w,
            ts.last(),
            resolved_all(w, ts.drop_last(), n, path, limit).naming,
            path,
            limit,
            count,
        );
    }
}

} // verus!
