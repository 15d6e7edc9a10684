//! What a check of a match says of the values themselves: arms that are found
//! exhaustive match every value of the type, and an arm that is found redundant
//! matches none that an earlier arm does not.

use crate::names::{lemma_position, with};
use crate::syntax::Pattern;
use crate::text::texts;
use crate::type_def::{FieldDef, Type, VariantDef};
use crate::types::exhaustiveness::{
    ctor_view, ctor_views, ctors_of, ctors_wf, element_type, field_labels, id_in, lemma_pat_views,
    lemma_type_views, lowered, lowered_fields, lowered_type, lowered_types, lowered_variants,
    pat_view, pat_views, sig_of, tuple_name, tuple_types, type_at, type_view, type_views, type_wf,
    types_wf, useful, CtorInfo, CtorResolver, CtorView, Names, Pat, RcType,
};
use crate::types::usefulness::{
    ids_distinct, law_useful, left_over, matches_val, row_matches, rows_typed, val_typed,
    vals_typed, view_matches, Val,
};
use crate::types::written::{
    check_names, Datum, grown, lemma_grown_then, lemma_id, lemma_key_grows, lemma_lowered_grows,
    lemma_matches, lemma_parts_named, lemma_trees, list_tree, matches_written, named_in, of_type,
    tree_of, well_written,
};
use vstd::prelude::*;

verus! {

/// The two ways to say that a pattern matches agree.
proof fn lemma_views_agree(p: Pat, v: Val)
    ensures
        matches_val(p, v) <==> view_matches(pat_view(p), v),
    decreases p,
{
    reveal_with_fuel(view_matches, 2);
    match p {
        Pat::Wildcard => {},
        Pat::Ctor { id, args } => {
            lemma_pat_views(args@);
            let ps = pat_views(args@);
            assert forall|i: int| 0 <= i < args@.len() && i < v.args().len() implies matches_val(
                #[trigger] args@[i],
                v.args()[i],
            ) == view_matches(ps[i], v.args()[i]) by {
                lemma_views_agree(args@[i], v.args()[i]);
            }
            if matches_val(p, v) {
                assert forall|i: int| 0 <= i < ps.len() implies view_matches(
                    #[trigger] ps[i],
                    v.args()[i],
                ) by {
                    assert(matches_val(args@[i], v.args()[i]));
                }
            }
            if view_matches(pat_view(p), v) {
                assert forall|i: int| 0 <= i < args@.len() implies matches_val(
                    #[trigger] args@[i],
                    v.args()[i],
                ) by {
                    assert(view_matches(ps[i], v.args()[i]));
                }
            }
        },
        Pat::Or { patterns } => {
            lemma_pat_views(patterns@);
            let ps = pat_views(patterns@);
            assert forall|i: int| 0 <= i < patterns@.len() implies matches_val(
                #[trigger] patterns@[i],
                v,
            ) == view_matches(ps[i], v) by {
                lemma_views_agree(patterns@[i], v);
            }
            if matches_val(p, v) {
                let i = choose|i: int|
                    0 <= i < patterns@.len() && matches_val(#[trigger] patterns@[i], v);
                assert(view_matches(ps[i], v));
            }
            if view_matches(pat_view(p), v) {
                let i = choose|i: int| 0 <= i < ps.len() && view_matches(#[trigger] ps[i], v);
                assert(matches_val(patterns@[i], v));
            }
        },
    }
}

/// The tree of a value of a type has the type.
proof fn lemma_tree_typed(d: Datum, t: RcType, all: Names)
    requires
        check_names(all),
        type_wf(t),
        named_in(t, all),
        of_type(d, t),
    ensures
        val_typed(tree_of(d, t, all), t),
    decreases d, 1nat,
{
    let v = tree_of(d, t, all);
    lemma_parts_named(t, all);
    match t {
        RcType::Infinite => {},
        RcType::Array(a) => {
            if let Datum::Array(ds) = d {
                lemma_list_typed(ds, t, all);
            }
        },
        RcType::Named(c) => {
            if let Datum::Variant(k, ds) = d {
                assert(ctors_wf(*c));
                assert(ctors_of(t)[k] == sig_of(c.ctors@[k]));
                let ts = ctors_of(t)[k].types;
                lemma_trees(ds, ts, all);
                assert forall|i: int| 0 <= i < v.args().len() implies val_typed(
                    #[trigger] v.args()[i],
                    ts[i],
                ) by {
                    assert(named_in(ctors_of(t)[k].types[i], all));
                    assert(type_wf(c.ctors@[k].types@[i]));
                    assert(of_type(ds[i], ts[i]));
                    lemma_tree_typed(ds[i], ts[i], all);
                }
                assert(v.id() == ctors_of(t)[k].id);
            }
        },
        RcType::Tuple(c) => {
            if let Datum::Tuple(ds) = d {
                assert(ctors_wf(*c));
                assert(ctors_of(t)[0] == sig_of(c.ctors@[0]));
                let ts = tuple_types(t);
                lemma_trees(ds, ts, all);
                lemma_position(all, tuple_name(ds.len()), c.ctors@[0].id as int);
                assert forall|i: int| 0 <= i < v.args().len() implies val_typed(
                    #[trigger] v.args()[i],
                    ts[i],
                ) by {
                    assert(named_in(type_at(tuple_types(t), i), all));
                    assert(type_wf(c.ctors@[0].types@[i]));
                    assert(of_type(ds[i], ts[i]));
                    lemma_tree_typed(ds[i], ts[i], all);
                }
                assert(v.id() == ctors_of(t)[0].id);
                assert(v.args().len() == ctors_of(t)[0].types.len());
            }
        },
    }
}

proof fn lemma_list_typed(ds: Seq<Datum>, t: RcType, all: Names)
    requires
        check_names(all),
        type_wf(t),
        named_in(t, all),
        t is Array,
        forall|i: int| 0 <= i < ds.len() ==> of_type(#[trigger] ds[i], t->Array_0.element),
    ensures
        val_typed(list_tree(ds, t->Array_0.element, all), t),
    decreases ds, 0nat,
{
    let e = t->Array_0.element;
    let v = list_tree(ds, e, all);
    if ds.len() == 0 {
        assert(v.id() == ctors_of(t)[0].id);
        assert(ctors_of(t)[0].types.len() == 0);
    } else {
        let back = ds.drop_first();
        assert forall|i: int| 0 <= i < back.len() implies of_type(#[trigger] back[i], e) by {
            assert(back[i] == ds[i + 1]);
        }
        lemma_list_typed(back, t, all);
        assert(of_type(ds[0], e));
        lemma_tree_typed(ds[0], e, all);
        let k = ctors_of(t)[1];
        assert(k.types =~= seq![e, t]);
        assert forall|i: int| 0 <= i < v.args().len() implies val_typed(
            #[trigger] v.args()[i],
            k.types[i],
        ) by {
            if i == 0 {
                assert(v.args()[0] == tree_of(ds[0], e, all));
            } else {
                assert(v.args()[1] == list_tree(back, e, all));
            }
        }
        assert(v.id() == ctors_of(t)[1].id);
    }
}

/// Arms lowered one after the other, and the names between them.
pub open spec fn lowered_in_turn<R: CtorResolver>(
    arms: Seq<Pattern>,
    t: RcType,
    lowers: Seq<Pat>,
    names: Seq<Names>,
    res: &R,
) -> bool {
    &&& lowers.len() == arms.len()
    &&& names.len() == arms.len() + 1
    &&& forall|i: int|
        0 <= i < arms.len() ==> (pat_view(#[trigger] lowers[i]), names[i + 1]) == lowered(
            arms[i],
            t,
            names[i],
            res,
        )
}

/// A matrix of one column.
pub open spec fn column(lowers: Seq<Pat>) -> Seq<Seq<Pat>> {
    Seq::new(lowers.len(), |i: int| seq![lowers[i]])
}

proof fn lemma_names_in_turn<R: CtorResolver>(
    arms: Seq<Pattern>,
    t: RcType,
    lowers: Seq<Pat>,
    names: Seq<Names>,
    res: &R,
    i: int,
    n: int,
)
    requires
        lowered_in_turn(arms, t, lowers, names, res),
        names[0].no_duplicates(),
        0 <= i <= n < names.len(),
    ensures
        names[i].no_duplicates(),
        grown(names[i], names[n]),
    decreases n,
{
    if n > 0 {
        if i == n {
            lemma_names_in_turn(arms, t, lowers, names, res, n - 1, n - 1);
        } else {
            lemma_names_in_turn(arms, t, lowers, names, res, i, n - 1);
            lemma_names_in_turn(arms, t, lowers, names, res, n - 1, n - 1);
        }
        assert((pat_view(lowers[n - 1]), names[n]) == lowered(arms[n - 1], t, names[n - 1], res));
        lemma_lowered_grows(arms[n - 1], t, names[n - 1], res);
        if i < n {
            lemma_grown_then(names[i], names[n - 1], names[n]);
        }
    }
}

/// What holds of a check of arms: they are lowered one after the other against a
/// type that is laid out as the matrix needs it, and fit the type.
pub open spec fn checked<R: CtorResolver>(
    arms: Seq<Pattern>,
    t: RcType,
    lowers: Seq<Pat>,
    names: Seq<Names>,
    all: Names,
    res: &R,
    arity: spec_fn(u32) -> nat,
) -> bool {
    &&& lowered_in_turn(arms, t, lowers, names, res)
    &&& names[0].no_duplicates()
    &&& check_names(all)
    &&& grown(names.last(), all)
    &&& type_wf(t)
    &&& ids_distinct(t)
    &&& named_in(t, all)
    &&& forall|i: int| 0 <= i < arms.len() ==> well_written(#[trigger] arms[i], t, all, res)
    &&& rows_typed(column(lowers), seq![t], arity)
}

/// An arm's lowered pattern matches a value's tree when the arm matches it.
proof fn lemma_arm_matches<R: CtorResolver>(
    arms: Seq<Pattern>,
    t: RcType,
    lowers: Seq<Pat>,
    names: Seq<Names>,
    all: Names,
    res: &R,
    arity: spec_fn(u32) -> nat,
    d: Datum,
    i: int,
)
    requires
        checked(arms, t, lowers, names, all, res, arity),
        of_type(d, t),
        0 <= i < arms.len(),
    ensures
        row_matches(column(lowers)[i], seq![tree_of(d, t, all)]) <==> matches_written(
            arms[i],
            t,
            all,
            res,
            d,
        ),
{
    let v = tree_of(d, t, all);
    let n = arms.len() as int;
    lemma_names_in_turn(arms, t, lowers, names, res, i, n);
    lemma_names_in_turn(arms, t, lowers, names, res, i + 1, n);
    lemma_grown_then(names[i + 1], names[n], all);
    assert((pat_view(lowers[i]), names[i + 1]) == lowered(arms[i], t, names[i], res));
    assert(well_written(arms[i], t, all, res));
    lemma_matches(arms[i], t, names[i], res, all, d);
    lemma_views_agree(lowers[i], v);
    let row = column(lowers)[i];
    assert(row == seq![lowers[i]]);
    if row_matches(row, seq![v]) {
        assert(matches_val(row[0], seq![v][0]));
    }
    if matches_val(lowers[i], v) {
        assert forall|j: int| 0 <= j < row.len() implies matches_val(
            #[trigger] row[j],
            seq![v][j],
        ) by {}
    }
}

/// Arms that are found exhaustive match every value of the type: where a wildcard
/// would not be useful behind them, each value is matched by one of them.
pub proof fn law_exhaustive_arms_match_every_value<R: CtorResolver>(
    arms: Seq<Pattern>,
    t: RcType,
    lowers: Seq<Pat>,
    names: Seq<Names>,
    all: Names,
    res: &R,
    arity: spec_fn(u32) -> nat,
    d: Datum,
)
    requires
        checked(arms, t, lowers, names, all, res, arity),
        !useful(column(lowers), seq![Pat::Wildcard], seq![t]),
        of_type(d, t),
    ensures
        exists|i: int| 0 <= i < arms.len() && matches_written(#[trigger] arms[i], t, all, res, d),
{
    let rows = column(lowers);
    let q = seq![Pat::Wildcard];
    let ts = seq![t];
    let vs = seq![tree_of(d, t, all)];
    law_useful(rows, q, ts, arity);
    lemma_tree_typed(d, t, all);
    assert(vals_typed(vs, ts));
    assert(row_matches(q, vs));
    assert(!left_over(rows, q, ts, vs));
    let i = choose|i: int| 0 <= i < rows.len() && row_matches(#[trigger] rows[i], vs);
    lemma_arm_matches(arms, t, lowers, names, all, res, arity, d, i);
    assert(matches_written(arms[i], t, all, res, d));
}

/// An arm that is found redundant matches no value that an earlier arm does not
/// match.
pub proof fn law_a_redundant_arm_is_matched_before<R: CtorResolver>(
    arms: Seq<Pattern>,
    t: RcType,
    lowers: Seq<Pat>,
    names: Seq<Names>,
    all: Names,
    res: &R,
    arity: spec_fn(u32) -> nat,
    k: int,
    d: Datum,
)
    requires
        checked(arms, t, lowers, names, all, res, arity),
        0 <= k < arms.len(),
        !useful(column(lowers).take(k), seq![lowers[k]], seq![t]),
        of_type(d, t),
        matches_written(arms[k], t, all, res, d),
    ensures
        exists|i: int| 0 <= i < k && matches_written(#[trigger] arms[i], t, all, res, d),
{
    let rows = column(lowers).take(k);
    let q = seq![lowers[k]];
    let ts = seq![t];
    let vs = seq![tree_of(d, t, all)];
    assert forall|i: int| 0 <= i < rows.len() implies crate::types::usefulness::row_typed(
        #[trigger] rows[i],
        ts,
        arity,
    ) by {
        assert(rows[i] == column(lowers)[i]);
    }
    assert(column(lowers)[k] == q);
    law_useful(rows, q, ts, arity);
    lemma_tree_typed(d, t, all);
    assert(vals_typed(vs, ts));
    lemma_arm_matches(arms, t, lowers, names, all, res, arity, d, k);
    assert(!left_over(rows, q, ts, vs));
    let i = choose|i: int| 0 <= i < rows.len() && row_matches(#[trigger] rows[i], vs);
    assert(rows[i] == column(lowers)[i]);
    lemma_arm_matches(arms, t, lowers, names, all, res, arity, d, i);
    assert(matches_written(arms[i], t, all, res, d));
}

/// A type laid out for the matrix: an array over its element, a tuple over its
/// elements, and a nominal type's variants in order, each under its name and
/// over its fields. Any other type has no variants to list.
pub open spec fn lays_out(ty: Type, t: RcType, all: Names) -> bool
    decreases ty,
{
    match ty {
        Type::Array { element } => t matches RcType::Array(a) && lays_out(*element, a.element, all),
        Type::Tuple { elements } => t matches RcType::Tuple(c) && c.ctors@.len() == 1
            && c.ctors@[0].id < all.len() && all[c.ctors@[0].id as int] == tuple_name(
            elements@.len(),
        ) && c.ctors@[0].types@.len() == elements@.len() && forall|i: int|
            0 <= i < elements@.len() ==> lays_out(
                #[trigger] elements@[i],
                c.ctors@[0].types@[i],
                all,
            ),
        Type::Named { id, name, type_args, variants } => if variants@.len() == 0 {
            t is Infinite
        } else {
            t matches RcType::Named(c) && c.ctors@.len() == variants@.len() && forall|k: int|
                0 <= k < variants@.len() ==> variant_laid(
                    #[trigger] variants@[k],
                    c.ctors@[k],
                    all,
                )
        },
        _ => t is Infinite,
    }
}

pub open spec fn variant_laid(v: VariantDef, c: CtorInfo, all: Names) -> bool
    decreases v,
{
    &&& c.id < all.len()
    &&& all[c.id as int] == v.name@
    &&& texts(c.labels@) == field_labels(v.fields@)
    &&& c.types@.len() == v.fields@.len()
    &&& forall|j: int|
        0 <= j < v.fields@.len() ==> field_laid(#[trigger] v.fields@[j], c.types@[j], all)
}

pub open spec fn field_laid(f: FieldDef, t: RcType, all: Names) -> bool
    decreases f,
{
    lays_out(f.ty, t, all)
}

proof fn lemma_type_grows(ty: Type, names: Names)
    requires
        names.no_duplicates(),
    ensures
        lowered_type(ty, names).1.no_duplicates(),
        grown(names, lowered_type(ty, names).1),
    decreases ty,
{
    match ty {
        Type::Array { element } => lemma_type_grows(*element, names),
        Type::Tuple { elements } => {
            lemma_types_grow(elements@, names);
            let (ts, more) = lowered_types(elements@, names);
            lemma_key_grows(more, tuple_name(ts.len()));
        },
        Type::Named { id, name, type_args, variants } => {
            if variants@.len() > 0 {
                lemma_variants_grow(variants@, names);
            }
        },
        _ => {},
    }
}

proof fn lemma_types_grow(tys: Seq<Type>, names: Names)
    requires
        names.no_duplicates(),
    ensures
        lowered_types(tys, names).1.no_duplicates(),
        grown(names, lowered_types(tys, names).1),
    decreases tys,
{
    if tys.len() > 0 {
        lemma_types_grow(tys.drop_last(), names);
        lemma_type_grows(tys.last(), lowered_types(tys.drop_last(), names).1);
    }
}

proof fn lemma_fields_grow(fs: Seq<FieldDef>, names: Names)
    requires
        names.no_duplicates(),
    ensures
        lowered_fields(fs, names).1.no_duplicates(),
        grown(names, lowered_fields(fs, names).1),
    decreases fs,
{
    if fs.len() > 0 {
        lemma_fields_grow(fs.drop_last(), names);
        lemma_type_grows(fs.last().ty, lowered_fields(fs.drop_last(), names).1);
    }
}

proof fn lemma_variants_grow(vs: Seq<VariantDef>, names: Names)
    requires
        names.no_duplicates(),
    ensures
        lowered_variants(vs, names).1.no_duplicates(),
        grown(names, lowered_variants(vs, names).1),
    decreases vs,
{
    if vs.len() > 0 {
        lemma_variants_grow(vs.drop_last(), names);
        let more = lowered_variants(vs.drop_last(), names).1;
        lemma_key_grows(more, vs.last().name@);
        lemma_fields_grow(vs.last().fields@, with(more, vs.last().name@));
    }
}

proof fn lemma_ctor_views(cs: Seq<CtorInfo>)
    ensures
        ctor_views(cs).len() == cs.len(),
    decreases cs.len(),
{
    if cs.len() > 0 {
        lemma_ctor_views(cs.drop_last());
    }
}

/// A lowered type lays out the type it was lowered from: each constructor is
/// under its own name among those of the check.
pub proof fn law_a_lowered_type_lays_out_the_type(ty: Type, t: RcType, names: Names, all: Names)
    requires
        type_view(t) == lowered_type(ty, names).0,
        type_wf(t),
        names.no_duplicates(),
        check_names(all),
        grown(lowered_type(ty, names).1, all),
    ensures
        lays_out(ty, t, all),
    decreases ty,
{
    match ty {
        Type::Array { element } => {
            law_a_lowered_type_lays_out_the_type(*element, element_type(t), names, all);
        },
        Type::Tuple { elements } => {
            let (vs, more) = lowered_types(elements@, names);
            lemma_types_grow(elements@, names);
            if let RcType::Tuple(c) = t {
                assert(ctors_wf(*c));
                let ts = c.ctors@[0].types@;
                assert(ctor_view(c.ctors@[0]).types == type_views(ts));
                lemma_type_views(ts);
                lemma_types_len(elements@, names);
                let key = tuple_name(vs.len());
                lemma_key_grows(more, key);
                lemma_id(more, key, all);
                lemma_grown_then(more, with(more, key), all);
                assert forall|i: int| 0 <= i < ts.len() implies type_wf(#[trigger] ts[i]) by {
                    assert(type_wf(c.ctors@[0].types@[i]));
                }
                lemma_types_laid(elements@, ts, names, all);
            }
        },
        Type::Named { id, name, type_args, variants } => {
            if variants@.len() > 0 {
                if let RcType::Named(c) = t {
                    assert(ctors_wf(*c));
                    lemma_variants_laid(variants@, c.ctors@, names, all);
                }
            }
        },
        _ => {},
    }
}

proof fn lemma_types_len(tys: Seq<Type>, names: Names)
    ensures
        lowered_types(tys, names).0.len() == tys.len(),
    decreases tys.len(),
{
    if tys.len() > 0 {
        lemma_types_len(tys.drop_last(), names);
    }
}

proof fn lemma_types_laid(tys: Seq<Type>, ts: Seq<RcType>, names: Names, all: Names)
    requires
        type_views(ts) == lowered_types(tys, names).0,
        types_wf(ts),
        names.no_duplicates(),
        check_names(all),
        grown(lowered_types(tys, names).1, all),
    ensures
        ts.len() == tys.len(),
        forall|i: int| 0 <= i < tys.len() ==> lays_out(#[trigger] tys[i], ts[i], all),
    decreases tys,
{
    lemma_types_len(tys, names);
    lemma_type_views(ts);
    if tys.len() > 0 {
        let init = tys.drop_last();
        let front = ts.drop_last();
        let (before, more) = lowered_types(init, names);
        lemma_types_grow(init, names);
        lemma_type_grows(tys.last(), more);
        lemma_grown_then(more, lowered_types(tys, names).1, all);
        assert(type_views(ts) == type_views(front).push(type_view(ts.last())));
        assert(type_views(front) =~= type_views(ts).drop_last());
        assert(before =~= lowered_types(tys, names).0.drop_last());
        assert(type_view(ts.last()) == lowered_type(tys.last(), more).0) by {
            assert(type_views(ts).last() == lowered_types(tys, names).0.last());
        }
        assert forall|i: int| 0 <= i < front.len() implies type_wf(#[trigger] front[i]) by {
            assert(front[i] == ts[i]);
        }
        assert(type_wf(ts[ts.len() - 1]));
        lemma_types_laid(init, front, names, all);
        law_a_lowered_type_lays_out_the_type(tys.last(), ts.last(), more, all);
        assert forall|i: int| 0 <= i < tys.len() implies lays_out(#[trigger] tys[i], ts[i], all) by {
            if i < init.len() {
                assert(init[i] == tys[i] && front[i] == ts[i]);
            }
        }
    }
}

proof fn lemma_fields_len(fs: Seq<FieldDef>, names: Names)
    ensures
        lowered_fields(fs, names).0.len() == fs.len(),
    decreases fs.len(),
{
    if fs.len() > 0 {
        lemma_fields_len(fs.drop_last(), names);
    }
}

proof fn lemma_fields_laid(fs: Seq<FieldDef>, ts: Seq<RcType>, names: Names, all: Names)
    requires
        type_views(ts) == lowered_fields(fs, names).0,
        types_wf(ts),
        names.no_duplicates(),
        check_names(all),
        grown(lowered_fields(fs, names).1, all),
    ensures
        ts.len() == fs.len(),
        forall|i: int| 0 <= i < fs.len() ==> field_laid(#[trigger] fs[i], ts[i], all),
    decreases fs,
{
    lemma_fields_len(fs, names);
    lemma_type_views(ts);
    if fs.len() > 0 {
        let init = fs.drop_last();
        let front = ts.drop_last();
        let (before, more) = lowered_fields(init, names);
        lemma_fields_grow(init, names);
        lemma_type_grows(fs.last().ty, more);
        lemma_grown_then(more, lowered_fields(fs, names).1, all);
        assert(type_views(ts) == type_views(front).push(type_view(ts.last())));
        assert(type_views(front) =~= type_views(ts).drop_last());
        assert(before =~= lowered_fields(fs, names).0.drop_last());
        assert(type_view(ts.last()) == lowered_type(fs.last().ty, more).0) by {
            assert(type_views(ts).last() == lowered_fields(fs, names).0.last());
        }
        assert forall|i: int| 0 <= i < front.len() implies type_wf(#[trigger] front[i]) by {
            assert(front[i] == ts[i]);
        }
        assert(type_wf(ts[ts.len() - 1]));
        lemma_fields_laid(init, front, names, all);
        law_a_lowered_type_lays_out_the_type(fs.last().ty, ts.last(), more, all);
        assert forall|i: int| 0 <= i < fs.len() implies field_laid(#[trigger] fs[i], ts[i], all) by {
            if i < init.len() {
                assert(init[i] == fs[i] && front[i] == ts[i]);
            }
        }
    }
}

proof fn lemma_variants_len(vs: Seq<VariantDef>, names: Names)
    ensures
        lowered_variants(vs, names).0.len() == vs.len(),
    decreases vs.len(),
{
    if vs.len() > 0 {
        lemma_variants_len(vs.drop_last(), names);
    }
}

proof fn lemma_variants_laid(vs: Seq<VariantDef>, cs: Seq<CtorInfo>, names: Names, all: Names)
    requires
        ctor_views(cs) == lowered_variants(vs, names).0,
        forall|k: int, i: int|
            0 <= k < cs.len() && 0 <= i < cs[k].types@.len() ==> type_wf(
                #[trigger] cs[k].types@[i],
            ),
        names.no_duplicates(),
        check_names(all),
        grown(lowered_variants(vs, names).1, all),
    ensures
        cs.len() == vs.len(),
        forall|k: int| 0 <= k < vs.len() ==> variant_laid(#[trigger] vs[k], cs[k], all),
    decreases vs,
{
    lemma_variants_len(vs, names);
    lemma_ctor_views(cs);
    if vs.len() > 0 {
        let init = vs.drop_last();
        let front = cs.drop_last();
        let (v, c) = (vs.last(), cs.last());
        let (before, more) = lowered_variants(init, names);
        let named = with(more, v.name@);
        let (types, last) = lowered_fields(v.fields@, named);
        lemma_variants_grow(init, names);
        lemma_key_grows(more, v.name@);
        lemma_fields_grow(v.fields@, named);
        lemma_grown_then(named, last, all);
        lemma_grown_then(more, named, all);
        assert(ctor_views(cs) == ctor_views(front).push(ctor_view(c)));
        assert(ctor_views(front) =~= ctor_views(cs).drop_last());
        assert(before =~= lowered_variants(vs, names).0.drop_last());
        assert(ctor_view(c) == (CtorView {
            id: id_in(more, v.name@),
            labels: field_labels(v.fields@),
            types,
        })) by {
            assert(ctor_views(cs).last() == lowered_variants(vs, names).0.last());
        }
        lemma_id(more, v.name@, all);
        assert forall|k: int, i: int|
            0 <= k < front.len() && 0 <= i < front[k].types@.len() implies type_wf(
            #[trigger] front[k].types@[i],
        ) by {
            assert(front[k] == cs[k]);
            assert(type_wf(cs[k].types@[i]));
        }
        assert forall|i: int| 0 <= i < c.types@.len() implies type_wf(#[trigger] c.types@[i]) by {
            assert(type_wf(cs[cs.len() - 1].types@[i]));
        }
        lemma_variants_laid(init, front, names, all);
        lemma_fields_laid(v.fields@, c.types@, named, all);
        assert(variant_laid(v, c, all));
        assert forall|k: int| 0 <= k < vs.len() implies variant_laid(
            #[trigger] vs[k],
            cs[k],
            all,
        ) by {
            if k < init.len() {
                assert(init[k] == vs[k] && front[k] == cs[k]);
            }
        }
    }
}

} // verus!
