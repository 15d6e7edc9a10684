use scarlet::slots::{slot_labeled, SlotError};
use scarlet::syntax::{
    FunctionType, Identifier, NamedType, Span, TupleType, TypeIdentifier, TypeKind,
};
use scarlet::type_def::{t_int, t_tuple, Type, TypeId};
use scarlet::types::annotation::AnnotationContext;
use scarlet::types::arena::new_engine;
use scarlet::types::environment::{
    DefinitionLocation, EntityKind, TypeBody, TypeParam, Variant, VariantField,
};
use scarlet::types::suggest::levenshtein;
use scarlet::types::hydrator::Hydrator;
use scarlet::types::infer::InferEngine;
use scarlet::types::node::{
    mono, ArenaSlice, Constraint, StrId, Ty, UnifyError, UnifyErrorSituation,
};
use scarlet::types::type_env::{new_env, TypeEnv};

fn ident(name: &str) -> Identifier {
    Identifier { name: name.to_string(), span: Span::point(1, 1) }
}

fn named(name: &str, args: Vec<TypeIdentifier>) -> TypeIdentifier {
    TypeIdentifier {
        kind: TypeKind::NamedType(NamedType {
            qualifier: None,
            identifier: ident(name),
            type_args: args,
        }),
        span: Span::point(1, 1),
    }
}

fn tuple(elements: Vec<TypeIdentifier>) -> TypeIdentifier {
    TypeIdentifier { kind: TypeKind::TupleType(TupleType { elements }), span: Span::point(1, 1) }
}

fn function(params: Vec<TypeIdentifier>, ret: Option<TypeIdentifier>) -> TypeIdentifier {
    TypeIdentifier {
        kind: TypeKind::FunctionType(FunctionType {
            params,
            return_type: ret.map(Box::new),
        }),
        span: Span::point(1, 1),
    }
}

/// `type List(a) { Cons(head a, tail List(a)) Nil }`, registered.
fn list_type(e: &mut InferEngine, env: &mut TypeEnv) -> TypeId {
    let name = e.intern("List");
    let param = e.intern("a");
    let (var, id) = e.fresh_generic_var();
    let params = e.push_type_params(&[TypeParam { name: param, id }]);
    let module = ArenaSlice::new(0, 0);
    let list = env.register_type_head("List", name, module, params);
    let tail = e.mk_con_id(list, name, &[var]);
    let head_label = e.intern("head");
    let tail_label = e.intern("tail");
    let head = e.close_body(var, params);
    let tail = e.close_body(tail, params);
    let fields = e.push_variant_fields(&[
        VariantField { label: head_label, ty: head },
        VariantField { label: tail_label, ty: tail },
    ]);
    let none = e.push_variant_fields(&[]);
    let cons = e.intern("Cons");
    let nil = e.intern("Nil");
    let variants = e.push_variants(&[
        Variant { name: cons, fields },
        Variant { name: nil, fields: none },
    ]);
    env.set_type_body(
        list,
        TypeBody::Custom { variants, ctors_public: true, must_name_variants: false },
    );
    list
}

#[test]
fn a_written_type_stands_for_the_type_it_names() {
    let mut e = new_engine();
    let mut env = new_env();
    list_type(&mut e, &mut env);
    let mut h = Hydrator::new(AnnotationContext::Signature);
    // The same name is the same variable all through one signature.
    let t = function(
        vec![named("a", vec![]), named("List", vec![named("a", vec![])])],
        Some(tuple(vec![named("a", vec![]), named("b", vec![])])),
    );
    let ty = h.type_from_ast(&t, &env, &mut e).ok().expect("a type");
    assert_eq!(e.type_to_str(ty), "fn(a, List(a)) (a, b)");
    assert_eq!(h.rigid_ids().len(), 2);
    let refs = h.take_type_refs();
    assert_eq!(refs.len(), 1);
    assert_eq!(e.str(refs[0].name), "List");
    assert!(h.take_type_refs().is_empty());
}

#[test]
fn a_written_type_that_names_nothing_is_a_complaint() {
    let mut e = new_engine();
    let mut env = new_env();
    list_type(&mut e, &mut env);
    let mut read = |context, t: TypeIdentifier| {
        let mut h = Hydrator::new(context);
        match h.type_from_ast(&t, &env, &mut e) {
            Ok(_) => panic!("a type"),
            Err(d) => d.message,
        }
    };
    let m = read(AnnotationContext::Signature, named("Lisp", vec![]));
    assert!(m.contains("Unknown type 'Lisp'"), "{m}");
    let m = read(AnnotationContext::Binding, named("a", vec![]));
    assert!(m.contains("Unknown type variable 'a'"), "{m}");
    let m = read(AnnotationContext::Signature, named("List", vec![]));
    assert!(m.contains("List"), "{m}");
    let m = read(AnnotationContext::TypeDefinition, function(vec![], None));
    assert!(!m.is_empty());
}

#[test]
fn a_repeated_type_parameter_is_the_one_there_is() {
    let mut e = new_engine();
    let mut h = Hydrator::new(AnnotationContext::TypeDefinition);
    let a = h.add_type_variable("a", &mut e);
    let again = h.add_type_variable("a", &mut e);
    let b = h.add_type_variable("b", &mut e);
    assert!(!a.duplicate && again.duplicate && !b.duplicate);
    assert_eq!((a.ty, a.id), (again.ty, again.id));
    assert_ne!(a.id, b.id);
    assert!(h.rigid_ids().is_empty());
}

/// A type that holds itself is written out once, and no deeper.
#[test]
fn a_recursive_type_resolves_to_a_finite_one() {
    let mut e = new_engine();
    let mut env = new_env();
    let list = list_type(&mut e, &mut env);
    let i = e.icon_int();
    let name = e.intern("List");
    let ty = e.mk_con_id(list, name, &[i]);
    let t = e.resolve(ty, Some(&env));
    match t {
        Type::Named { id, name, type_args, variants } => {
            assert_eq!(id, list);
            assert_eq!(name, "List");
            assert_eq!(type_args, vec![t_int()]);
            assert_eq!(variants.len(), 2);
            assert_eq!(variants[0].name, "Cons");
            assert_eq!(variants[0].fields[0].ty, t_int());
            match &variants[0].fields[1].ty {
                Type::Named { variants, .. } => assert!(variants.is_empty()),
                other => panic!("not a list: {other:?}"),
            }
        }
        other => panic!("not a list: {other:?}"),
    }
    let deep = e.resolve_for_patterns(ty, Some(&env), 2);
    match deep {
        Type::Named { variants, .. } => match &variants[0].fields[1].ty {
            Type::Named { variants, .. } => assert_eq!(variants.len(), 2),
            other => panic!("not a list: {other:?}"),
        },
        other => panic!("not a list: {other:?}"),
    }
}

/// Closing a body twice is closing it once: there is no variable left to close.
#[test]
fn a_closed_body_takes_its_arguments_by_place() {
    let mut e = new_engine();
    let name = e.intern("a");
    let (var, id) = e.fresh_generic_var();
    let params = e.push_type_params(&[TypeParam { name, id }]);
    let pair = e.mk_tuple(&[var, var]);
    let closed = e.close_body(pair, params);
    let twice = e.close_body(closed, params);
    let i = e.icon_int();
    let once = e.substitute_type_vars(closed, params, &[i]);
    let again = e.substitute_type_vars(twice, params, &[i]);
    let open = e.substitute_type_vars(pair, params, &[i]);
    for ty in [once, again, open] {
        assert_eq!(e.resolve(ty, None), t_tuple(vec![t_int(), t_int()]));
    }
}

#[test]
fn functions_of_other_arity_do_not_unify() {
    let mut e = new_engine();
    let i = e.icon_int();
    let f = e.mk_fun(&[i], i);
    let g = e.mk_fun(&[i, i], i);
    match e.unify(f, g) {
        Err(UnifyError::CouldNotUnify { situation, .. }) => assert_eq!(
            situation,
            Some(UnifyErrorSituation::FunctionArity { expected: 1, given: 2 })
        ),
        other => panic!("unified: {other:?}"),
    }
}

#[test]
fn a_location_gives_back_its_span() {
    let span = Span { start_line: 3, start_column: 5, end_line: 3, end_column: 9 };
    let loc = DefinitionLocation::new(span, ArenaSlice::new(0, 0), EntityKind::Constant);
    assert_eq!(loc.span(), span);
    assert_eq!(EntityKind::Constant.noun(), "constant");
    assert!(!EntityKind::ModuleAlias.is_navigable());
    let mut env = new_env();
    env.define_at("k", mono(Ty(1)), loc);
    assert_eq!(env.lookup_definition("k").map(|d| d.span()), Some(span));
    env.store_definition("m", loc);
    assert_eq!(env.lookup_definition("m").map(|d| d.span()), Some(span));
    assert!(env.lookup_definition("n").is_none());
}

#[test]
fn a_constraint_admits_what_it_names() {
    assert_eq!(Constraint::Numeric.name(), "numeric");
    assert_eq!(Constraint::Addable.intersect(Constraint::Numeric), Some(Constraint::Numeric));
    assert!(Constraint::Addable.satisfied_by_generic(Some(Constraint::Numeric)));
    assert!(!Constraint::Numeric.satisfied_by_generic(Some(Constraint::Addable)));
    assert!(!Constraint::Numeric.satisfied_by_generic(None));
    assert_eq!(StrId::none(), StrId(0xFFFF_FFFF));
}

#[test]
fn arguments_go_to_the_fields_they_name() {
    let l = |s: &str| Some(s.to_string());
    let fields = vec![l("a"), l("b"), l("c")];
    let (slots, errors) = slot_labeled(&fields, &vec![None, l("c"), l("b")]);
    assert_eq!(slots, vec![Some(0), Some(2), Some(1)]);
    assert!(errors.is_empty());
    let (slots, errors) =
        slot_labeled(&fields, &vec![None, l("a"), l("z"), None, None, None]);
    assert_eq!(slots, vec![Some(0), Some(3), Some(4)]);
    assert_eq!(
        errors,
        vec![
            SlotError::Duplicate { arg: 1 },
            SlotError::UnknownLabel { arg: 2 },
            SlotError::TooMany { arg: 5 },
        ]
    );
}

/// A list of lists is no recursion: its elements are another instance, and keep
/// their own variants.
#[test]
fn another_instance_of_a_type_is_no_recursion() {
    let mut e = new_engine();
    let mut env = new_env();
    let list = list_type(&mut e, &mut env);
    let i = e.icon_int();
    let name = e.intern("List");
    let inner = e.mk_con_id(list, name, &[i]);
    let outer = e.mk_con_id(list, name, &[inner]);
    match e.resolve(outer, Some(&env)) {
        Type::Named { variants, .. } => {
            match &variants[0].fields[0].ty {
                Type::Named { variants, .. } => assert_eq!(variants.len(), 2),
                other => panic!("not a list: {other:?}"),
            }
            match &variants[0].fields[1].ty {
                Type::Named { variants, .. } => assert!(variants.is_empty()),
                other => panic!("not a list: {other:?}"),
            }
        }
        other => panic!("not a list: {other:?}"),
    }
}

/// One name is one type all through a signature, and another name another.
#[test]
fn a_name_is_the_same_type_in_every_annotation() {
    let mut e = new_engine();
    let env = new_env();
    let mut h = Hydrator::new(AnnotationContext::Signature);
    let mut read = |name: &str, h: &mut Hydrator| {
        h.type_from_ast(&named(name, vec![]), &env, &mut e).ok().expect("a type")
    };
    let a = read("a", &mut h);
    let b = read("b", &mut h);
    let c = read("c", &mut h);
    assert_eq!(read("a", &mut h), a);
    assert_eq!(read("c", &mut h), c);
    assert_eq!(read("b", &mut h), b);
    assert!(a != b && b != c && a != c);
    assert_eq!(h.rigid_ids().len(), 3);
    // What was declared is there already, and is not rigid.
    let d = h.add_type_variable("d", &mut e);
    let again = h.type_from_ast(&named("d", vec![]), &env, &mut e).ok().expect("a type");
    assert_eq!(again, d.ty);
    assert!(!h.rigid_ids().contains(&d.id));
    assert_eq!(h.rigid_ids().len(), 3);
}

/// A detour takes no fewer edits.
#[test]
fn edit_distance_keeps_the_triangle_inequality() {
    assert_eq!(levenshtein("kitten", "sitting"), 3);
    assert_eq!(levenshtein("", "abc"), 3);
    assert_eq!(levenshtein("abc", "abc"), 0);
    let words = ["", "a", "kitten", "sitting", "mitten", "bitting", "gnittis"];
    for a in words {
        for b in words {
            for c in words {
                assert!(levenshtein(a, c) <= levenshtein(a, b) + levenshtein(b, c));
            }
        }
    }
}
