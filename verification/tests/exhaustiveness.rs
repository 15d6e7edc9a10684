use scarlet::syntax::{
    BinSegmentPat, BinSpec, BinaryPatternRest, Identifier, NumberLiteral, Pattern, PatternArg,
    PatternLiteral, SizeExpr, Span, StringLiteral,
};
use scarlet::type_def::{
    t_array, t_int, t_named, t_string, t_tuple, FieldDef, Type, TypeId, VariantDef,
};
use scarlet::types::exhaustiveness::{tuple_ctor_name, NoCtorResolver, Pat, UsefulnessMatrix};
use std::rc::Rc;

/// Test-only string-keyed pattern, interned into a `Pat` before use.
#[derive(Debug, Clone)]
enum SPat {
    Wildcard,
    Ctor { name: String, args: Vec<SPat> },
    Or { patterns: Vec<SPat> },
}

fn intern(m: &mut UsefulnessMatrix, p: &SPat) -> Pat {
    match p {
        SPat::Wildcard => Pat::Wildcard,
        SPat::Ctor { name, args } => {
            let id = m.ctor_id(name);
            let args = args.iter().map(|a| intern(m, a)).collect();
            Pat::Ctor { id, args: Rc::new(args) }
        }
        SPat::Or { patterns } => {
            let patterns = patterns.iter().map(|a| intern(m, a)).collect();
            Pat::Or { patterns: Rc::new(patterns) }
        }
    }
}

fn push_s(m: &mut UsefulnessMatrix, p: &SPat) {
    let ip = intern(m, p);
    m.push(&ip);
}

fn is_useful_s(m: &mut UsefulnessMatrix, p: &SPat) -> bool {
    let ip = intern(m, p);
    m.is_useful(&ip)
}

fn check_exhaustiveness(pats: &[SPat], t: Type) -> Option<String> {
    let mut um = UsefulnessMatrix::new(t);
    let ipats: Vec<Pat> = pats.iter().map(|p| intern(&mut um, p)).collect();
    um.find_missing(&ipats)
}

fn assert_witness(pats: &[SPat], t: Type, w: &str) {
    assert_eq!(check_exhaustiveness(pats, t).as_deref(), Some(w));
}

fn assert_exhaustive(pats: &[SPat], t: Type) {
    assert_eq!(check_exhaustiveness(pats, t), None);
}

const NOWHERE: Span = Span { start_line: 0, start_column: 0, end_line: 0, end_column: 0 };

fn number(v: &str) -> NumberLiteral {
    NumberLiteral {
        value: v.to_string(),
        int: v.parse().ok(),
        digits: v.to_string(),
        span: NOWHERE,
    }
}

/// Build a `Named` enum type from a `(variant, [(field, ty)])` table.
fn t_enum(id: i32, name: &str, variants: Vec<(&str, Vec<(&str, Type)>)>) -> Type {
    let variants = variants
        .into_iter()
        .map(|(v, fs)| {
            let fs = fs
                .into_iter()
                .map(|(label, ty)| FieldDef {
                    label: label.into(),
                    ty,
                })
                .collect();
            VariantDef { name: v.to_string(), fields: fs }
        })
        .collect();
    t_named(TypeId(id), name, vec![], variants)
}

/// `Bool` is not a primitive: the same `Named` shape the prelude produces.
fn t_bool() -> Type {
    t_enum(99, "Bool", vec![("True", vec![]), ("False", vec![])])
}

fn ctor(name: &str, args: Vec<SPat>) -> SPat {
    SPat::Ctor {
        name: name.to_string(),
        args,
    }
}

fn t_option(inner: Type) -> Type {
    t_enum(
        1,
        "Option",
        vec![("Some", vec![("value", inner)]), ("None", vec![])],
    )
}

fn t_result(ok: Type, err: Type) -> Type {
    t_enum(
        2,
        "Result",
        vec![("Ok", vec![("value", ok)]), ("Err", vec![("error", err)])],
    )
}

fn enum3() -> Type {
    t_enum(
        10,
        "Letter",
        vec![("A", vec![]), ("B", vec![]), ("C", vec![])],
    )
}

#[test]
fn bool_missing_false() {
    assert_witness(&[ctor("True", vec![])], t_bool(), "False");
}

#[test]
fn bool_exhaustive() {
    assert_exhaustive(&[ctor("True", vec![]), ctor("False", vec![])], t_bool());
}

#[test]
fn bool_wildcard_exhaustive() {
    assert_exhaustive(&[SPat::Wildcard], t_bool());
}

#[test]
fn enum_missing_third_variant() {
    assert_witness(&[ctor("A", vec![]), ctor("B", vec![])], enum3(), "C");
}

#[test]
fn enum_all_variants_exhaustive() {
    let pats = [ctor("A", vec![]), ctor("B", vec![]), ctor("C", vec![])];
    assert_exhaustive(&pats, enum3());
}

#[test]
fn tuple_bool_bool_missing_fourth() {
    let t = t_tuple(vec![t_bool(), t_bool()]);
    let tn = tuple_ctor_name(2);
    let pats = vec![
        ctor(&tn, vec![ctor("True", vec![]), ctor("True", vec![])]),
        ctor(&tn, vec![ctor("True", vec![]), ctor("False", vec![])]),
        ctor(&tn, vec![ctor("False", vec![]), ctor("True", vec![])]),
    ];
    assert_witness(&pats, t, "(False, False)");
}

#[test]
fn tuple_bool_bool_exhaustive() {
    let t = t_tuple(vec![t_bool(), t_bool()]);
    let tn = tuple_ctor_name(2);
    let pats = vec![
        ctor(&tn, vec![ctor("True", vec![]), ctor("True", vec![])]),
        ctor(&tn, vec![ctor("True", vec![]), ctor("False", vec![])]),
        ctor(&tn, vec![ctor("False", vec![]), SPat::Wildcard]),
    ];
    assert_exhaustive(&pats, t);
}

/// `(True, _)` and `(_, True)` miss exactly `(False, False)`, not the
/// overlapping `(False, _)`.
#[test]
fn tuple_witness_recurses_default_matrix() {
    let t = t_tuple(vec![t_bool(), t_bool()]);
    let tn = tuple_ctor_name(2);
    let pats = vec![
        ctor(&tn, vec![ctor("True", vec![]), SPat::Wildcard]),
        ctor(&tn, vec![SPat::Wildcard, ctor("True", vec![])]),
    ];
    assert_witness(&pats, t, "(False, False)");
}

/// The witness's cons chain is walked so the head renders, not `[_, ..]`.
#[test]
fn array_witness_renders_cons_head() {
    let t = t_array(t_bool());
    let pats = vec![
        ctor("[]", vec![]),
        ctor("::", vec![ctor("True", vec![]), SPat::Wildcard]),
    ];
    assert_witness(&pats, t, "[False]");
}

#[test]
fn nested_option_option_int_missing_some_none() {
    let t = t_option(t_option(t_int()));
    let pats = vec![
        ctor("Some", vec![ctor("Some", vec![SPat::Wildcard])]),
        ctor("None", vec![]),
    ];
    assert_witness(&pats, t, "Some(None)");
}

#[test]
fn nested_option_option_int_exhaustive() {
    let t = t_option(t_option(t_int()));
    let pats = vec![
        ctor("Some", vec![ctor("Some", vec![SPat::Wildcard])]),
        ctor("Some", vec![ctor("None", vec![])]),
        ctor("None", vec![]),
    ];
    assert_exhaustive(&pats, t);
}

#[test]
fn option_missing_none() {
    assert_witness(
        &[ctor("Some", vec![SPat::Wildcard])],
        t_option(t_int()),
        "None",
    );
}

#[test]
fn result_missing_err() {
    let t = t_result(t_int(), t_string());
    assert_witness(&[ctor("Ok", vec![SPat::Wildcard])], t, "Err(_)");
}

#[test]
fn array_missing_empty() {
    let t = t_array(t_int());
    assert_witness(
        &[ctor("::", vec![SPat::Wildcard, SPat::Wildcard])],
        t,
        "[]",
    );
}

#[test]
fn array_missing_nonempty() {
    assert_witness(
        &[ctor("[]", vec![])],
        t_array(t_int()),
        "[_, ..]",
    );
}

#[test]
fn int_literal_never_exhaustive() {
    assert_witness(
        &[ctor("lit:1", vec![]), ctor("lit:2", vec![])],
        t_int(),
        "_",
    );
}

#[test]
fn or_pattern_useful_if_any_alt_useful() {
    let mut m = UsefulnessMatrix::new(t_bool());
    push_s(&mut m, &ctor("True", vec![]));
    let new = SPat::Or {
        patterns: vec![ctor("True", vec![]), ctor("False", vec![])],
    };
    assert!(is_useful_s(&mut m, &new));
}

#[test]
fn or_pattern_not_useful_if_all_covered() {
    let mut m = UsefulnessMatrix::new(t_bool());
    push_s(&mut m, &ctor("True", vec![]));
    push_s(&mut m, &ctor("False", vec![]));
    let new = SPat::Or {
        patterns: vec![ctor("True", vec![]), ctor("False", vec![])],
    };
    assert!(!is_useful_s(&mut m, &new));
}

#[test]
fn usefulness_redundant_after_wildcard() {
    let mut m = UsefulnessMatrix::new(t_bool());
    push_s(&mut m, &SPat::Wildcard);
    assert!(!is_useful_s(&mut m, &ctor("True", vec![])));
}

#[test]
fn usefulness_distinct_ctor() {
    let mut m = UsefulnessMatrix::new(t_bool());
    push_s(&mut m, &ctor("True", vec![]));
    assert!(is_useful_s(&mut m, &ctor("False", vec![])));
}

#[test]
fn enum_with_payload_witness() {
    let t = t_enum(
        11,
        "Tree",
        vec![
            ("Leaf", vec![]),
            ("Node", vec![("left", t_int()), ("right", t_int())]),
        ],
    );
    assert_witness(&[ctor("Leaf", vec![])], t, "Node(_, _)");
}

/// Opaque prelude `Binary`: Named with no variants, so `get_type_ctors`
/// reports it infinite.
fn t_binary() -> Type {
    t_enum(98, "Binary", vec![])
}

fn bin_seg(value: Pattern, size: Option<&str>) -> BinSegmentPat {
    BinSegmentPat {
        value,
        spec: BinSpec::Int {
            bits: size.map(|n| {
                SizeExpr::NumberLiteral(number(n))
            }),
        },
        span: NOWHERE,
    }
}

fn bin_pat(segments: Vec<BinSegmentPat>, rest: bool) -> Pattern {
    Pattern::Binary {
        segments,
        rest: rest.then_some(BinaryPatternRest {
            binding: None,
            span: NOWHERE,
        }),
        span: NOWHERE,
    }
}

fn p_var(name: &str) -> Pattern {
    Pattern::Var {
        name: Identifier {
            name: name.to_string(),
            span: NOWHERE,
        },
    }
}

#[test]
fn binary_fixed_segments_not_exhaustive() {
    let mut um = UsefulnessMatrix::new(t_binary());
    let p = um.lower(
        &bin_pat(
            vec![bin_seg(p_var("a"), None), bin_seg(p_var("b"), None)],
            false,
        ),
        &NoCtorResolver,
    );
    assert_eq!(um.find_missing(&vec![p]).as_deref(), Some("_"));
}

#[test]
fn binary_empty_literal_not_exhaustive() {
    let mut um = UsefulnessMatrix::new(t_binary());
    let p = um.lower(&bin_pat(vec![], false), &NoCtorResolver);
    assert_eq!(um.find_missing(&vec![p]).as_deref(), Some("_"));
}

#[test]
fn binary_rest_only_is_exhaustive() {
    let mut um = UsefulnessMatrix::new(t_binary());
    let p = um.lower(&bin_pat(vec![], true), &NoCtorResolver);
    assert!(matches!(p, Pat::Wildcard));
    assert_eq!(um.find_missing(&vec![p]), None);
}

#[test]
fn binary_segments_with_rest_not_exhaustive() {
    let mut um = UsefulnessMatrix::new(t_binary());
    let p = um.lower(
        &bin_pat(vec![bin_seg(p_var("a"), None)], true),
        &NoCtorResolver,
    );
    assert_eq!(um.find_missing(&vec![p]).as_deref(), Some("_"));
}

#[test]
fn binary_fixed_then_else_exhaustive() {
    let mut um = UsefulnessMatrix::new(t_binary());
    let p1 = um.lower(
        &bin_pat(
            vec![bin_seg(p_var("a"), None), bin_seg(p_var("b"), None)],
            false,
        ),
        &NoCtorResolver,
    );
    assert_eq!(um.find_missing(&vec![p1, Pat::Wildcard]), None);
}

#[test]
fn binary_same_shape_redundant() {
    let mut m = UsefulnessMatrix::new(t_binary());
    let p1 = m.lower(
        &bin_pat(vec![bin_seg(p_var("a"), Some("8"))], false),
        &NoCtorResolver,
    );
    let p2 = m.lower(
        &bin_pat(vec![bin_seg(p_var("b"), Some("8"))], false),
        &NoCtorResolver,
    );
    m.push(&p1);
    assert!(!m.is_useful(&p2));
}

#[test]
fn binary_different_literal_useful() {
    let mut m = UsefulnessMatrix::new(t_binary());
    let lit = |v: &str| {
        Pattern::Literal(PatternLiteral::Number(number(v)))
    };
    let p1 = m.lower(
        &bin_pat(vec![bin_seg(lit("1"), None)], false),
        &NoCtorResolver,
    );
    let p2 = m.lower(
        &bin_pat(vec![bin_seg(lit("2"), None)], false),
        &NoCtorResolver,
    );
    m.push(&p1);
    assert!(m.is_useful(&p2));
}

/// Segment string values can contain the key's delimiter chars, so two
/// different patterns must not share a key.
#[test]
fn binary_string_key_is_injective() {
    let str_lit = |v: &str| {
        Pattern::Literal(PatternLiteral::String(StringLiteral {
            value: v.to_string(),
            span: NOWHERE,
        }))
    };
    let mut m = UsefulnessMatrix::new(t_binary());
    let p1 = m.lower(
        &bin_pat(vec![bin_seg(str_lit("a'i8,'b"), None)], false),
        &NoCtorResolver,
    );
    let p2 = m.lower(
        &bin_pat(
            vec![
                bin_seg(str_lit("a"), Some("8")),
                bin_seg(str_lit("b"), None),
            ],
            false,
        ),
        &NoCtorResolver,
    );
    m.push(&p1);
    assert!(m.is_useful(&p2));
}

/// An unknown constructor with args must keep the pattern and type stacks
/// column-aligned, or the type stack runs out early and every duplicate
/// arm looks useful.
#[test]
fn unknown_ctor_with_args_duplicate_is_redundant() {
    let mut m = UsefulnessMatrix::new(t_int());
    push_s(&mut m, &ctor("Foo", vec![SPat::Wildcard]));
    assert!(!is_useful_s(&mut m, &ctor("Foo", vec![SPat::Wildcard])));
    assert!(is_useful_s(&mut m, &ctor("Bar", vec![SPat::Wildcard])));
}

/// A nullary constructor pattern such as `True`.
fn p_ctor0(name: &str) -> Pattern {
    Pattern::Constructor {
        qualifier: None,
        name: Identifier {
            name: name.to_string(),
            span: NOWHERE,
        },
        args: vec![],
        rest: false,
        span: NOWHERE,
    }
}

/// `Name(label: pat, ...)` with all-labeled args and an optional `..` rest.
fn p_ctor_labeled(name: &str, fields: Vec<(&str, Pattern)>, rest: bool) -> Pattern {
    Pattern::Constructor {
        qualifier: None,
        name: Identifier {
            name: name.to_string(),
            span: NOWHERE,
        },
        args: fields
            .into_iter()
            .map(|(label, pattern)| PatternArg::Labeled {
                label: Identifier {
                    name: label.to_string(),
                    span: NOWHERE,
                },
                pattern,
            })
            .collect(),
        rest,
        span: NOWHERE,
    }
}

/// `type Pair { a Bool b Bool }` — `a` is declaration index 0, `b` is 1.
fn pair_bool_bool() -> Type {
    t_enum(
        50,
        "Pair",
        vec![("Pair", vec![("a", t_bool()), ("b", t_bool())])],
    )
}

/// `lower` must slot labeled args into field-DECLARATION order, matching
/// the compiler's `slot_ctor_args` and the runtime matcher. Source order
/// makes a non-exhaustive match look exhaustive.
#[test]
fn lower_slots_labeled_args_in_declaration_order() {
        let pair_pat = |fields: &[(&str, &str)], rest| {
        let args = fields.iter().map(|&(l, v)| (l, p_ctor0(v))).collect();
        p_ctor_labeled("Pair", args, rest)
    };
    let missing = |arms: &[Pattern]| {
        let mut um = UsefulnessMatrix::new(pair_bool_bool());
        let ipats: Vec<Pat> = arms.iter().map(|p| um.lower(p, &NoCtorResolver)).collect();
        um.find_missing(&ipats)
    };

    // `Pair(b: True, ..)` ∪ `Pair(a: False, ..)` MISS (a: True, b: False).
    let unsound = [
        pair_pat(&[("b", "True")], true),
        pair_pat(&[("a", "False")], true),
    ];
    assert_eq!(missing(&unsound).as_deref(), Some("Pair(True, False)"));

    // Exhaustive; the third arm names its fields in reverse order.
    let exhaustive = [
        pair_pat(&[("a", "True"), ("b", "True")], false),
        pair_pat(&[("a", "True"), ("b", "False")], false),
        pair_pat(&[("b", "True"), ("a", "False")], false),
        pair_pat(&[("a", "False"), ("b", "False")], false),
    ];
    assert_eq!(missing(&exhaustive), None);
}

/// What is reported missing is matched by no arm, and an arm for it is useful.
#[test]
fn an_arm_for_what_is_missing_is_useful() {
    let mut m = UsefulnessMatrix::new(t_option(t_bool()));
    let covered = ctor("Some", vec![ctor("True", vec![])]);
    push_s(&mut m, &covered);
    let p = intern(&mut m, &covered);
    assert_eq!(m.find_missing(&vec![p]).as_deref(), Some("None"));
    assert!(is_useful_s(&mut m, &ctor("None", vec![])));
    assert!(is_useful_s(&mut m, &ctor("Some", vec![ctor("False", vec![])])));
    assert!(!is_useful_s(&mut m, &covered));
}

#[test]
fn a_type_is_written_as_in_a_program() {
    assert_eq!(t_array(t_tuple(vec![t_int(), t_string()])).text(), "Array((Int, String))");
    let f = Type::Function { params: vec![t_int()], ret: Box::new(t_bool()) };
    assert_eq!(f.text(), "fn(Int) Bool");
    assert_eq!(t_named(TypeId(1), "Pair", vec![t_int(), t_int()], vec![]).text(), "Pair(Int, Int)");
}

/// Whatever is pushed after an arm, the arm again is redundant.
#[test]
fn a_pushed_arm_stays_redundant() {
    let mut m = UsefulnessMatrix::new(t_bool());
    // A constructor that the type does not have, with arguments.
    let odd = ctor("Foo", vec![SPat::Wildcard, ctor("Bar", vec![SPat::Wildcard])]);
    let either = SPat::Or { patterns: vec![odd.clone(), ctor("True", vec![])] };
    push_s(&mut m, &either);
    for more in [ctor("False", vec![]), ctor("Baz", vec![SPat::Wildcard]), SPat::Wildcard] {
        assert!(!is_useful_s(&mut m, &either));
        assert!(!is_useful_s(&mut m, &odd));
        push_s(&mut m, &more);
        assert!(!is_useful_s(&mut m, &more));
    }
}

/// The missing pattern matches nothing that an arm does, though a wildcard arm
/// constrains a later column.
#[test]
fn the_missing_pattern_overlaps_no_arm() {
    let pair = tuple_ctor_name(2);
    let both = |a: SPat, b: SPat| ctor(&pair, vec![a, b]);
    let t = || t_tuple(vec![t_bool(), t_bool()]);
    let arms = [
        both(SPat::Wildcard, ctor("True", vec![])),
        both(ctor("True", vec![]), ctor("False", vec![])),
    ];
    let missing = both(ctor("False", vec![]), ctor("False", vec![]));
    assert_witness(&arms, t(), "(False, False)");
    let mut m = UsefulnessMatrix::new(t());
    push_s(&mut m, &missing);
    for arm in &arms {
        assert!(is_useful_s(&mut m, arm));
    }
}
