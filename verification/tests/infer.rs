use scarlet::syntax::{Span};
use scarlet::type_def::{t_array, t_int, t_string, t_var, TypeId};
use scarlet::types::arena::new_engine;
use scarlet::types::fun_type::MatchFunTypeError;
use scarlet::types::infer::InferEngine;
use scarlet::types::letters::{bound_letter, next_letter};
use scarlet::types::node::{Constraint, Ty, TypeNode, UnifyError, ValueKind};
use std::collections::HashSet;

fn no_rigid() -> HashSet<i32> {
    HashSet::new()
}

/// Mint a rigid generic carrying constraint `c`, as `generalize` produces
/// from a constrained body var.
fn constrained_generic(e: &mut InferEngine, c: Constraint) -> Ty {
    e.enter_level();
    let v = e.fresh_constrained_var(c);
    e.leave_level();
    let _ = e.generalize(v);
    v
}

fn assert_cannot_unify(e: &mut InferEngine, a: Ty, b: Ty) {
    assert!(matches!(
        e.unify(a, b),
        Err(UnifyError::CouldNotUnify { .. })
    ));
}

#[test]
fn next_letter_sequence() {
    let mut uid = 0u64;
    assert_eq!(next_letter(&mut uid), "a");
    assert_eq!(next_letter(&mut uid), "b");
    let mut uid = 25u64;
    assert_eq!(next_letter(&mut uid), "z");
    assert_eq!(next_letter(&mut uid), "aa");
    assert_eq!(next_letter(&mut uid), "ab");
}

#[test]
fn identity_generalizes_to_forall_a() {
    let mut e = new_engine();
    e.enter_level();
    let x = e.fresh_var();
    let id_ty = e.mk_fun(&[x], x);
    e.leave_level();
    let scheme = e.generalize(id_ty);
    assert_eq!(scheme.quantified.len, 1);
    assert_eq!(e.type_to_str(scheme.ty), "fn(a) a");
}

#[test]
fn let_polymorphism() {
    let mut e = new_engine();
    e.enter_level();
    let x = e.fresh_var();
    let id_ty = e.mk_fun(&[x], x);
    e.leave_level();
    let scheme = e.generalize(id_ty);

    let inst1 = e.instantiate(&scheme, &no_rigid());
    let int_t = e.icon_int();
    let TypeNode::Fun { params, ret } = e.node(inst1) else {
        panic!("expected Fun")
    };
    assert!(e.unify(e.children_of(params)[0], int_t).is_ok());
    assert_eq!(e.type_to_str(ret), "Int");

    let inst2 = e.instantiate(&scheme, &no_rigid());
    let str_t = e.icon_string();
    let TypeNode::Fun { params, ret } = e.node(inst2) else {
        panic!("expected Fun")
    };
    assert!(e.unify(e.children_of(params)[0], str_t).is_ok());
    assert_eq!(e.type_to_str(ret), "String");

    assert!(e.diagnostics.is_empty());
}

#[test]
fn occurs_check_rejects_infinite_type() {
    let mut e = new_engine();
    let a = e.fresh_var();
    let b = e.fresh_var();
    let fn_ty = e.mk_fun(&[a], b);
    let res = e.unify(a, fn_ty);
    assert!(matches!(res, Err(UnifyError::RecursiveType)));
}

#[test]
fn numeric_constraint_rejects_string() {
    let mut e = new_engine();
    let n = e.fresh_constrained_var(Constraint::Numeric);
    let s = e.icon_string();
    assert_cannot_unify(&mut e, n, s);
}

#[test]
fn numeric_constraint_accepts_int() {
    let mut e = new_engine();
    let n = e.fresh_constrained_var(Constraint::Numeric);
    let i = e.icon_int();
    assert!(e.unify(n, i).is_ok());
    assert!(e.diagnostics.is_empty());
    assert_eq!(e.type_to_str(n), "Int");
}

#[test]
fn addable_intersect_numeric_yields_numeric() {
    let mut e = new_engine();
    let a = e.fresh_constrained_var(Constraint::Addable);
    let n = e.fresh_constrained_var(Constraint::Numeric);
    assert!(e.unify(a, n).is_ok());
    assert_eq!(e.type_to_str(a), "numeric");
}

#[test]
fn constraint_not_dropped_against_unconstrained_generic() {
    // Linking would discard the requirement, letting a function do
    // arithmetic on an annotated polymorphic param.
    let mut e = new_engine();
    let n = e.fresh_constrained_var(Constraint::Numeric);
    let (g, _) = e.fresh_generic_var();
    assert_cannot_unify(&mut e, n, g);
}

#[test]
fn constraint_not_dropped_when_generic_is_expected() {
    // Symmetric path: the generic on the `expected` side.
    let mut e = new_engine();
    let (g, _) = e.fresh_generic_var();
    let a = e.fresh_constrained_var(Constraint::Addable);
    assert_cannot_unify(&mut e, g, a);
}

#[test]
fn constrained_var_links_to_satisfying_generic() {
    // Int/Float is a subset of Int/Float/String, so numeric guarantees
    // addable.
    let mut e = new_engine();
    let numeric_generic = constrained_generic(&mut e, Constraint::Numeric);
    let addable = e.fresh_constrained_var(Constraint::Addable);
    assert!(e.unify(addable, numeric_generic).is_ok());
    assert!(e.diagnostics.is_empty());
}

#[test]
fn constrained_var_rejects_insufficient_generic() {
    // An addable generic may still be a String.
    let mut e = new_engine();
    let addable_generic = constrained_generic(&mut e, Constraint::Addable);
    let numeric = e.fresh_constrained_var(Constraint::Numeric);
    assert_cannot_unify(&mut e, numeric, addable_generic);
}

#[test]
fn unify_mismatched_cons_produces_error() {
    let mut e = new_engine();
    let i = e.icon_int();
    let s = e.icon_string();
    assert_cannot_unify(&mut e, i, s);
}

#[test]
fn unify_at_pushes_diagnostic() {
    let mut e = new_engine();
    let i = e.icon_int();
    let s = e.icon_string();
    assert!(!e.unify_at(i, s, Span::point(1, 1)));
    assert_eq!(e.diagnostics.len(), 1);
    assert!(e.diagnostics[0].message.contains("Type mismatch"));
}

#[test]
fn instantiate_gives_fresh_vars() {
    let mut e = new_engine();
    e.enter_level();
    let x = e.fresh_var();
    e.leave_level();
    let scheme = e.generalize(x);
    let i1 = e.instantiate(&scheme, &no_rigid());
    let i2 = e.instantiate(&scheme, &no_rigid());
    let int_t = e.icon_int();
    let str_t = e.icon_string();
    assert!(e.unify(i1, int_t).is_ok());
    assert!(e.unify(i2, str_t).is_ok());
    assert!(e.diagnostics.is_empty());
}

#[test]
fn rigid_generic_stays_rigid() {
    let mut e = new_engine();
    e.enter_level();
    let x = e.fresh_var();
    e.leave_level();
    let scheme = e.generalize(x);
    let rigid: HashSet<i32> = e
        .quants_of(scheme.quantified)
        .iter()
        .filter_map(|q| q.origin_id)
        .collect();
    let inst = e.instantiate(&scheme, &rigid);
    let int_t = e.icon_int();
    assert!(e.unify(inst, int_t).is_err());
}

#[test]
fn generalize_top_ignores_level() {
    let mut e = new_engine();
    let x = e.fresh_var();
    let scheme = e.generalize_top(x);
    assert_eq!(scheme.quantified.len, 1);
    assert!(matches!(scheme.kind, ValueKind::ModuleFn { .. }));
}

fn assert_no_live_vars(e: &InferEngine, ty: Ty) {
    match e.node(ty) {
        TypeNode::Var(id) => panic!("live Var({id}) survived close_over"),
        TypeNode::Bound(_) => {}
        TypeNode::Con { args, .. } => {
            for i in args.range() {
                assert_no_live_vars(e, e.children[i]);
            }
        }
        TypeNode::Fun { params, ret } => {
            for i in params.range() {
                assert_no_live_vars(e, e.children[i]);
            }
            assert_no_live_vars(e, ret);
        }
        TypeNode::Tuple { elems } => {
            for i in elems.range() {
                assert_no_live_vars(e, e.children[i]);
            }
        }
    }
}

#[test]
fn generalize_resolves_linked_vars_in_scheme() {
    // Stored Schemes outlive `truncate_to`'s `vars.clear()`, so a surviving
    // var id would read an unrelated fresh var on the next compile.
    let mut e = new_engine();
    e.enter_level();
    let p = e.fresh_var();
    let r = e.fresh_var();
    let int_t = e.icon_int();
    e.unify(p, int_t).unwrap();
    e.unify(r, int_t).unwrap();
    let f = e.mk_fun(&[p], r);
    e.leave_level();
    let scheme = e.generalize_top(f);
    assert_no_live_vars(&e, scheme.ty);
}

#[test]
fn generalize_resolves_linked_vars_among_unchanged_siblings() {
    // The rebuild must not re-copy the original link-bearing child slots.
    let mut e = new_engine();
    e.enter_level();
    let v = e.fresh_var();
    let int_t = e.icon_int();
    e.unify(v, int_t).unwrap();
    let str_t = e.icon_string();
    let tup = e.mk_tuple(&[str_t, v]);
    let tup2 = e.mk_tuple(&[v, str_t]);
    e.leave_level();
    let s1 = e.generalize_top(tup);
    let s2 = e.generalize_top(tup2);
    assert_no_live_vars(&e, s1.ty);
    assert_no_live_vars(&e, s2.ty);
}

#[test]
fn constrained_generic_reinstantiates_constrained() {
    let mut e = new_engine();
    e.enter_level();
    let n = e.fresh_constrained_var(Constraint::Numeric);
    e.leave_level();
    let scheme = e.generalize(n);
    let inst = e.instantiate(&scheme, &no_rigid());
    let s = e.icon_string();
    assert!(e.unify(inst, s).is_err());
    let inst2 = e.instantiate(&scheme, &no_rigid());
    let i = e.icon_int();
    assert!(e.unify(inst2, i).is_ok());
}

#[test]
fn match_fun_type_on_unbound() {
    let mut e = new_engine();
    let v = e.fresh_var();
    let (params, _ret) = e.match_fun_type(v, 2).ok().expect("should pre-link");
    assert_eq!(params.as_slice().len(), 2);
    let resolved = e.find(v);
    assert!(matches!(e.node(resolved), TypeNode::Fun { .. }));
}

#[test]
fn match_fun_type_rejects_constrained_var() {
    // A numeric/addable var used as a callee must be a type error, not a
    // silent link to a Fun type that erases the constraint.
    let mut e = new_engine();
    let n = e.fresh_constrained_var(Constraint::Numeric);
    assert!(matches!(
        e.match_fun_type(n, 1),
        Err(MatchFunTypeError::NotFn { .. })
    ));
}

#[test]
fn match_fun_type_binds_fresh_vars_at_callee_level() {
    // Calling through a var bound at an outer let level from a deeper
    // scope: the fresh param/ret vars must be lowered to the callee's
    // level, so generalizing back at that level does not quantify them.
    let mut e = new_engine();
    e.enter_level();
    let callee = e.fresh_var();
    e.enter_level();
    let (params, ret) = e.match_fun_type(callee, 1).ok().expect("should bind");
    e.leave_level();
    let param_scheme = e.generalize(params.as_slice()[0]);
    assert_eq!(
        param_scheme.quantified.len, 0,
        "fresh param var tied to outer callee must not be generalized"
    );
    let ret_scheme = e.generalize(ret);
    assert_eq!(ret_scheme.quantified.len, 0);
}

#[test]
fn match_fun_type_arity_mismatch() {
    let mut e = new_engine();
    let i = e.icon_int();
    let f = e.mk_fun(&[i], i);
    let res = e.match_fun_type(f, 2);
    assert!(matches!(
        res,
        Err(MatchFunTypeError::IncorrectArity {
            expected: 1,
            given: 2,
            ..
        })
    ));
}

#[test]
fn match_fun_type_not_fn() {
    let mut e = new_engine();
    let i = e.icon_int();
    assert!(matches!(
        e.match_fun_type(i, 1),
        Err(MatchFunTypeError::NotFn { .. })
    ));
}

#[test]
fn flip_swaps_expected_given() {
    let mut e = new_engine();
    let i = e.icon_int();
    let s = e.icon_string();
    let err = UnifyError::CouldNotUnify {
        expected: i,
        given: s,
        situation: None,
    };
    if let UnifyError::CouldNotUnify {
        expected, given, ..
    } = err.flip()
    {
        assert_eq!(expected, s);
        assert_eq!(given, i);
    } else {
        panic!();
    }
}

#[test]
fn resolve_primitives() {
    let mut e = new_engine();
    let i = e.icon_int();
    assert_eq!(e.resolve(i, None), t_int());
    let s = e.icon_string();
    let arr_id = e.prim_ids.array;
    let arr = e.mk_con(arr_id, "Array", &[s]);
    assert_eq!(e.resolve(arr, None), t_array(t_string()));
}

#[test]
fn resolve_unbound_var_gets_base26_name() {
    let mut e = new_engine();
    let v = e.fresh_var();
    assert_eq!(e.resolve(v, None), t_var("a"));
    assert_eq!(e.resolve(v, None), t_var("a"));
    let v2 = e.fresh_var();
    assert_eq!(e.resolve(v2, None), t_var("b"));
}

#[test]
fn unify_adjusts_levels_to_prevent_unsound_generalization() {
    let mut e = new_engine();
    e.enter_level();
    let outer = e.fresh_var();
    e.enter_level();
    let inner = e.fresh_var();
    assert!(e.unify(inner, outer).is_ok());
    e.leave_level();
    let scheme = e.generalize(inner);
    assert_eq!(
        scheme.quantified.len, 0,
        "var tied to outer scope must not be generalized"
    );
}

#[test]
fn unify_adjusts_levels_through_constructors() {
    let mut e = new_engine();
    e.enter_level();
    let outer = e.fresh_var();
    e.enter_level();
    let inner = e.fresh_var();
    let arr_inner = e.mk_con(TypeId(-7), "Array", &[inner]);
    let arr_outer = e.mk_con(TypeId(-7), "Array", &[outer]);
    assert!(e.unify(arr_inner, arr_outer).is_ok());
    e.leave_level();
    let scheme = e.generalize(inner);
    assert_eq!(scheme.quantified.len, 0);
}

#[test]
fn a_bound_letter_is_the_letter_of_its_index() {
    let mut uid = 0u64;
    for i in 0..60u32 {
        assert_eq!(bound_letter(i), next_letter(&mut uid));
    }
}

/// Unifying two types makes them one: both read as the same text.
#[test]
fn what_unifies_reads_alike() {
    let mut e = new_engine();
    let a = e.fresh_var();
    let b = e.fresh_var();
    let i = e.icon_int();
    let x = e.mk_tuple(&[a, i]);
    let y = e.mk_tuple(&[i, b]);
    assert!(e.unify(x, y).is_ok());
    assert_eq!(e.type_to_str(x), "(Int, Int)");
    assert_eq!(e.type_to_str(y), "(Int, Int)");
}

/// What the pools held at a watermark is what they hold after going back to it.
#[test]
fn going_back_to_a_watermark_drops_what_came_after() {
    let mut e = new_engine();
    let i = e.icon_int();
    let w = e.pool_watermark();
    let nodes = e.nodes.len();
    let names = e.strings.len();
    let s = e.icon_string();
    let _ = e.mk_fun(&[i], s);
    assert!(e.nodes.len() > nodes);
    e.truncate_to(&w);
    assert_eq!(e.nodes.len(), nodes);
    assert_eq!(e.strings.len(), names);
    assert_eq!(e.type_to_str(i), "Int");
}
