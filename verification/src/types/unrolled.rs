//! What resolving keeps of a type: its shape, the names and fields of its
//! variants, and what its aliases stand for.

use crate::type_def::PrimitiveKind;
use crate::types::environment::{TypeBody, TypeParam, Variant, VariantField};
use crate::types::naming::Naming;
use crate::types::node::covered;
use crate::types::resolved::{
    cap, keys_of, Path, put_variant, recurs, Resolved, resolved, resolved_all, resolved_fields,
    ResolvedField, resolved_variants, ResolvedVariant, World,
};
use crate::types::rewrite::{rewritten, substituting};
use crate::types::term::Term;
use vstd::prelude::*;

verus! {

/// `ty` is what `t` resolves to on this path, whatever names were given out
/// before.
pub open spec fn comes_from(w: World, t: Term, path: Path, limit: nat, ty: Resolved) -> bool {
    exists|n: Naming| (#[trigger] resolved(w, t, n, path, limit)).ty == ty
}

/// Types resolved one for one.
pub open spec fn come_from(
    w: World,
    ts: Seq<Term>,
    path: Path,
    limit: nat,
    tys: Seq<Resolved>,
) -> bool {
    tys.len() == ts.len() && forall|i: int|
        0 <= i < ts.len() ==> comes_from(w, ts[i], path, limit, #[trigger] tys[i])
}

/// A variant's fields resolved, in order and under their labels, with the type's
/// parameters replaced by its arguments.
pub open spec fn fields_come_from(
    w: World,
    fs: Seq<VariantField>,
    params: Seq<TypeParam>,
    args: Seq<Term>,
    path: Path,
    limit: nat,
    tys: Seq<ResolvedField>,
) -> bool {
    tys.len() == fs.len() && forall|i: int|
        0 <= i < fs.len() ==> (#[trigger] tys[i]).label == w.strings[fs[i].label.0 as int]
            && comes_from(
            w,
            rewritten(substituting(params, args), (w.types)(fs[i].ty)),
            path,
            limit,
            tys[i].ty,
        )
}

/// No two variants have one name.
pub open spec fn names_differ(w: World, vs: Seq<Variant>) -> bool {
    forall|i: int, j: int|
        0 <= i < j < vs.len() ==> w.strings[(#[trigger] vs[i]).name.0 as int]
            != w.strings[(#[trigger] vs[j]).name.0 as int]
}

/// The variants resolved, in order and under their names.
pub open spec fn variants_come_from(
    w: World,
    vs: Seq<Variant>,
    params: Seq<TypeParam>,
    args: Seq<Term>,
    path: Path,
    limit: nat,
    tys: Seq<ResolvedVariant>,
) -> bool {
    tys.len() == vs.len() && forall|i: int|
        0 <= i < vs.len() ==> (#[trigger] tys[i]).name == w.strings[vs[i].name.0 as int]
            && fields_come_from(
            w,
            covered(w.fields, vs[i].fields),
            params,
            args,
            path,
            limit,
            tys[i].fields,
        )
}

proof fn lemma_all(w: World, ts: Seq<Term>, n: Naming, path: Path, limit: nat)
    ensures
        come_from(w, ts, path, limit, resolved_all(w, ts, n, path, limit).tys),
    decreases ts.len(),
{
    if ts.len() > 0 {
        let init = ts.drop_last();
        lemma_all(w, init, n, path, limit);
        let before = resolved_all(w, init, n, path, limit);
        let tys = resolved_all(w, ts, n, path, limit).tys;
        let last = resolved(w, ts.last(), before.naming, path, limit);
        assert(tys == before.tys.push(last.ty));
        assert forall|i: int| 0 <= i < ts.len() implies comes_from(
            w,
            ts[i],
            path,
            limit,
            #[trigger] tys[i],
        ) by {
            if i < init.len() {
                assert(init[i] == ts[i]);
                assert(tys[i] == before.tys[i]);
                assert(comes_from(w, init[i], path, limit, before.tys[i]));
            } else {
                assert(resolved(w, ts[i], before.naming, path, limit).ty == tys[i]);
            }
        }
    }
}

proof fn lemma_fields(
    w: World,
    fs: Seq<VariantField>,
    params: Seq<TypeParam>,
    args: Seq<Term>,
    n: Naming,
    path: Path,
    limit: nat,
)
    ensures
        fields_come_from(
            w,
            fs,
            params,
            args,
            path,
            limit,
            resolved_fields(w, fs, params, args, n, path, limit).fields,
        ),
    decreases fs.len(),
{
    if fs.len() > 0 {
        let init = fs.drop_last();
        lemma_fields(w, init, params, args, n, path, limit);
        let before = resolved_fields(w, init, params, args, n, path, limit);
        let tys = resolved_fields(w, fs, params, args, n, path, limit).fields;
        let body = rewritten(substituting(params, args), (w.types)(fs.last().ty));
        let last = resolved(w, body, before.naming, path, limit);
        assert(tys == before.fields.push(
            ResolvedField { label: w.strings[fs.last().label.0 as int], ty: last.ty },
        ));
        assert forall|i: int| 0 <= i < fs.len() implies (#[trigger] tys[i]).label
            == w.strings[fs[i].label.0 as int] && comes_from(
            w,
            rewritten(substituting(params, args), (w.types)(fs[i].ty)),
            path,
            limit,
            tys[i].ty,
        ) by {
            if i < init.len() {
                assert(init[i] == fs[i]);
                assert(tys[i] == before.fields[i]);
            } else {
                assert(resolved(w, body, before.naming, path, limit).ty == tys[i].ty);
            }
        }
    }
}

proof fn lemma_variants(
    w: World,
    vs: Seq<Variant>,
    params: Seq<TypeParam>,
    args: Seq<Term>,
    n: Naming,
    path: Path,
    limit: nat,
)
    requires
        names_differ(w, vs),
    ensures
        variants_come_from(
            w,
            vs,
            params,
            args,
            path,
            limit,
            resolved_variants(w, vs, params, args, n, path, limit).variants,
        ),
    decreases vs.len(),
{
    if vs.len() > 0 {
        let init = vs.drop_last();
        let v = vs.last();
        assert(names_differ(w, init)) by {
            assert forall|i: int, j: int| 0 <= i < j < init.len() implies w.strings[(
            #[trigger] init[i]).name.0 as int] != w.strings[(#[trigger] init[j]).name.0 as int] by {
                assert(init[i] == vs[i] && init[j] == vs[j]);
            }
        }
        lemma_variants(w, init, params, args, n, path, limit);
        let before = resolved_variants(w, init, params, args, n, path, limit);
        let fs = resolved_fields(
            w,
            covered(w.fields, v.fields),
            params,
            args,
            before.naming,
            path,
            limit,
        );
        lemma_fields(w, covered(w.fields, v.fields), params, args, before.naming, path, limit);
        let last = ResolvedVariant { name: w.strings[v.name.0 as int], fields: fs.fields };
        let tys = resolved_variants(w, vs, params, args, n, path, limit).variants;
        assert(!(exists|i: int|
            0 <= i < before.variants.len() && (#[trigger] before.variants[i]).name == last.name)) by {
            if exists|i: int|
                0 <= i < before.variants.len() && (#[trigger] before.variants[i]).name
                    == last.name {
                let i = choose|i: int|
                    0 <= i < before.variants.len() && (#[trigger] before.variants[i]).name
                        == last.name;
                assert(init[i] == vs[i]);
                assert(vs[vs.len() - 1] == v);
            }
        }
        assert(tys == put_variant(before.variants, last));
        assert(tys == before.variants.push(last));
        assert forall|i: int| 0 <= i < vs.len() implies (#[trigger] tys[i]).name
            == w.strings[vs[i].name.0 as int] && fields_come_from(
            w,
            covered(w.fields, vs[i].fields),
            params,
            args,
            path,
            limit,
            tys[i].fields,
        ) by {
            if i < init.len() {
                assert(init[i] == vs[i]);
                assert(tys[i] == before.variants[i]);
            }
        }
    }
}

/// Resolving keeps a type's shape. A variable stays a variable; a function, a
/// tuple and an array are resolved part by part; the primitives are told by
/// their ids. A nominal type keeps its id, its name and its arguments, and, as
/// long as it does not recur, lists its variants in order, each field under its
/// label and with the type's parameters replaced by the arguments. An alias comes
/// to what its target does with its parameters replaced.
pub proof fn law_resolving_keeps_the_shape(w: World, t: Term, n: Naming, path: Path, limit: nat)
    ensures
        ({
            let ty = resolved(w, t, n, path, limit).ty;
            match t {
                Term::Var(_) | Term::Bound(_) => ty is Var,
                Term::Fun { params, ret } => ty matches Resolved::Function { params: ps, ret: r }
                    && come_from(w, params, path, limit, ps) && comes_from(
                    w,
                    *ret,
                    path,
                    limit,
                    *r,
                ),
                Term::Tuple { elems } => ty matches Resolved::Tuple { elements } && come_from(
                    w,
                    elems,
                    path,
                    limit,
                    elements,
                ),
                Term::Con { id, name, args } => if id == w.prims.int {
                    ty == (Resolved::Primitive { kind: PrimitiveKind::Int })
                } else if id == w.prims.float {
                    ty == (Resolved::Primitive { kind: PrimitiveKind::Float })
                } else if id == w.prims.string {
                    ty == (Resolved::Primitive { kind: PrimitiveKind::String })
                } else if id == w.prims.array {
                    ty matches Resolved::Array { element } && (args.len() > 0 ==> comes_from(
                        w,
                        args[0],
                        path,
                        limit,
                        *element,
                    ))
                } else {
                    named_keeps(w, t, path, limit, ty)
                },
            }
        }),
{
    let ty = resolved(w, t, n, path, limit).ty;
    match t {
        Term::Fun { params, ret } => {
            lemma_all(w, params, n, path, limit);
            let ps = resolved_all(w, params, n, path, limit);
            assert(ty->Function_params == ps.tys);
            assert(resolved(w, *ret, ps.naming, path, limit).ty == *ty->Function_ret);
        },
        Term::Tuple { elems } => {
            lemma_all(w, elems, n, path, limit);
        },
        Term::Con { id, name, args } => {
            if w.prims.spec_prim_of(id) is None {
                if id == w.prims.array {
                    if args.len() > 0 {
                        assert(resolved(w, args[0], n, path, limit).ty == *ty->element);
                    }
                } else {
                    lemma_named_keeps(w, t, n, path, limit);
                }
            }
        },
        _ => {},
    }
}

/// What resolving keeps of a nominal type that is no primitive.
pub open spec fn named_keeps(w: World, t: Term, path: Path, limit: nat, ty: Resolved) -> bool {
    let id = t->Con_id;
    let args = t->Con_args;
    let cut = exists|tys: Seq<Resolved>|
        #![trigger come_from(w, args, path, limit, tys)]
        come_from(w, args, path, limit, tys) && (recurs(path, id, keys_of(tys), limit) || path.len()
            >= cap(w, limit));
    let alias = w.ids.get(id.0) matches Some(info) && info.body is Alias;
    &&& !alias ==> (ty matches Resolved::Named { id: i, name, args: a, variants } && i == id
        && name == w.strings[t->Con_name.0 as int] && come_from(w, args, path, limit, a))
    &&& !cut ==> match w.ids.get(id.0) {
        Some(info) => {
            let params = covered(w.params, info.type_params);
            exists|inner: Path| {
                &&& #[trigger] inner.drop_last() == path
                &&& inner.len() == path.len() + 1
                &&& inner.last().0 == id
                &&& match info.body {
                    TypeBody::Custom { variants, .. } => names_differ(
                        w,
                        covered(w.variants, variants),
                    ) ==> variants_come_from(
                        w,
                        covered(w.variants, variants),
                        params,
                        args,
                        inner,
                        limit,
                        ty->Named_variants,
                    ),
                    TypeBody::Alias { target } => comes_from(
                        w,
                        rewritten(substituting(params, args), (w.types)(target)),
                        inner,
                        limit,
                        ty,
                    ),
                    _ => ty->Named_variants.len() == 0,
                }
            }
        },
        None => ty->Named_variants.len() == 0,
    }
}

proof fn lemma_named_keeps(w: World, t: Term, n: Naming, path: Path, limit: nat)
    requires
        t is Con,
        w.prims.spec_prim_of(t->Con_id) is None,
        t->Con_id != w.prims.array,
    ensures
        named_keeps(w, t, path, limit, resolved(w, t, n, path, limit).ty),
{
    let ty = resolved(w, t, n, path, limit).ty;
    if let Term::Con { id, name, args } = t {
        lemma_all(w, args, n, path, limit);
        let a = resolved_all(w, args, n, path, limit);
        let key = keys_of(a.tys);
        let inner = path.push((id, key));
        assert(inner.drop_last() =~= path);
        assert(come_from(w, args, path, limit, a.tys));
        if let Some(info) = w.ids.get(id.0) {
            let params = covered(w.params, info.type_params);
            if !recurs(path, id, key, limit) && path.len() < cap(w, limit) {
                match info.body {
                    TypeBody::Custom { variants, .. } => {
                        let vs = covered(w.variants, variants);
                        if names_differ(w, vs) {
                            lemma_variants(w, vs, params, args, a.naming, inner, limit);
                        }
                    },
                    TypeBody::Alias { target } => {
                        let body = rewritten(substituting(params, args), (w.types)(target));
                        assert(resolved(w, body, a.naming, inner, limit).ty == ty);
                    },
                    _ => {},
                }
            }
        }
    }
}

} // verus!
