//! Labelled and positional arguments slotted into a constructor's fields.

use crate::text::same_text;
use vstd::prelude::*;

verus! {

/// An argument that found no slot.
#[derive(Debug, Clone, Copy, PartialEq, Eq, Structural)]
pub enum SlotError {
    /// More positional arguments than fields.
    TooMany { arg: usize },
    /// A label that names no field.
    UnknownLabel { arg: usize },
    /// The field already has an argument.
    Duplicate { arg: usize },
}

/// The label of an argument, for contracts.
pub open spec fn label_view(l: Option<String>) -> Option<Seq<char>> {
    match l {
        Some(s) => Some(s@),
        None => None,
    }
}

pub open spec fn label_views(ls: Seq<Option<String>>) -> Seq<Option<Seq<char>>> {
    ls.map_values(|l: Option<String>| label_view(l))
}

/// The first field with this label.
pub open spec fn field_of(fields: Seq<Option<Seq<char>>>, label: Seq<char>) -> Option<nat>
    decreases fields.len(),
{
    if fields.len() == 0 {
        None
    } else if fields[0] == Some(label) {
        Some(0)
    } else {
        match field_of(fields.drop_first(), label) {
            Some(i) => Some(i + 1),
            None => None,
        }
    }
}

/// How many of the arguments carry no label.
pub open spec fn positionals(args: Seq<Option<Seq<char>>>) -> nat
    decreases args.len(),
{
    if args.len() == 0 {
        0
    } else {
        positionals(args.drop_last()) + if args.last() is None {
            1nat
        } else {
            0nat
        }
    }
}

/// The field the last argument asks for: the one its label names, or the next
/// in order when it has none.
pub open spec fn wanted(
    fields: Seq<Option<Seq<char>>>,
    args: Seq<Option<Seq<char>>>,
) -> Option<nat> {
    match args.last() {
        Some(label) => field_of(fields, label),
        None => {
            let p = positionals(args.drop_last());
            if p < fields.len() {
                Some(p)
            } else {
                None
            }
        },
    }
}

/// Which argument each field gets: arguments are placed in order, and one
/// whose field is missing or taken is left out.
pub open spec fn slotted(
    fields: Seq<Option<Seq<char>>>,
    args: Seq<Option<Seq<char>>>,
) -> Seq<Option<nat>>
    decreases args.len(),
{
    if args.len() == 0 {
        Seq::new(fields.len(), |i: int| None)
    } else {
        let before = slotted(fields, args.drop_last());
        match wanted(fields, args) {
            Some(f) => if before[f as int] is None {
                before.update(f as int, Some((args.len() - 1) as nat))
            } else {
                before
            },
            None => before,
        }
    }
}

/// The arguments that found no slot, and why, in order.
pub open spec fn misplaced(
    fields: Seq<Option<Seq<char>>>,
    args: Seq<Option<Seq<char>>>,
) -> Seq<SlotError>
    decreases args.len(),
{
    if args.len() == 0 {
        Seq::empty()
    } else {
        let before = misplaced(fields, args.drop_last());
        let arg = (args.len() - 1) as usize;
        match wanted(fields, args) {
            Some(f) => if slotted(fields, args.drop_last())[f as int] is None {
                before
            } else {
                before.push(SlotError::Duplicate { arg })
            },
            None => before.push(
                if args.last() is None {
                    SlotError::TooMany { arg }
                } else {
                    SlotError::UnknownLabel { arg }
                },
            ),
        }
    }
}

/// Each field keeps one slot, and a filled slot names an argument there is.
pub proof fn lemma_slotted(fields: Seq<Option<Seq<char>>>, args: Seq<Option<Seq<char>>>)
    ensures
        slotted(fields, args).len() == fields.len(),
        forall|i: int|
            0 <= i < fields.len() ==> ((#[trigger] slotted(fields, args)[i]) matches Some(a) ==> a
                < args.len()),
    decreases args.len(),
{
    if args.len() > 0 {
        lemma_slotted(fields, args.drop_last());
        if let Some(label) = args.last() {
            lemma_field_of(fields, label);
        }
    }
}

/// Argument `a` asks for field `f`: its label is the field's, or it has none and
/// the field is the next in order.
pub open spec fn asks_for(
    fields: Seq<Option<Seq<char>>>,
    args: Seq<Option<Seq<char>>>,
    a: int,
    f: int,
) -> bool {
    &&& 0 <= f < fields.len()
    &&& match args[a] {
        Some(label) => fields[f] == Some(label) && forall|j: int|
            0 <= j < f ==> #[trigger] fields[j] != Some(label),
        None => f == args.take(a).filter(|x: Option<Seq<char>>| x is None).len(),
    }
}

/// Argument `a` is the first that asks for field `f`.
pub open spec fn first_to(
    fields: Seq<Option<Seq<char>>>,
    args: Seq<Option<Seq<char>>>,
    a: int,
    f: int,
) -> bool {
    &&& 0 <= a < args.len()
    &&& asks_for(fields, args, a, f)
    &&& forall|b: int| 0 <= b < a ==> !#[trigger] asks_for(fields, args, b, f)
}

proof fn lemma_positionals(args: Seq<Option<Seq<char>>>)
    ensures
        positionals(args) == args.filter(|x: Option<Seq<char>>| x is None).len(),
    decreases args.len(),
{
    reveal(Seq::filter);
    if args.len() > 0 {
        lemma_positionals(args.drop_last());
    }
}

/// Each field gets the first argument that asks for it: the one with its label,
/// or the one without a label whose turn it is. A field that none asks for gets
/// none.
pub proof fn law_slotted(fields: Seq<Option<Seq<char>>>, args: Seq<Option<Seq<char>>>)
    ensures
        slotted(fields, args).len() == fields.len(),
        forall|f: int, a: nat|
            0 <= f < fields.len() ==> (#[trigger] slotted(fields, args)[f] == Some(a)
                <==> #[trigger] first_to(fields, args, a as int, f)),
    decreases args.len(),
{
    lemma_slotted(fields, args);
    if args.len() > 0 {
        let init = args.drop_last();
        let n = args.len() - 1;
        law_slotted(fields, init);
        lemma_positionals(init);
        assert(args.take(n) =~= init);
        if let Some(label) = args.last() {
            lemma_field_of(fields, label);
        }
        assert forall|a: int, f: int| 0 <= a < n implies #[trigger] asks_for(fields, args, a, f)
            == asks_for(fields, init, a, f) by {
            assert(args.take(a) =~= init.take(a));
        }
        let before = slotted(fields, init);
        let w = wanted(fields, args);
        assert forall|f: int| 0 <= f < fields.len() implies (asks_for(fields, args, n, f) <==> w
            == Some(f as nat)) by {}
        assert forall|f: int, a: nat| 0 <= f < fields.len() implies (#[trigger] slotted(
            fields,
            args,
        )[f] == Some(a) <==> #[trigger] first_to(fields, args, a as int, f)) by {
            if first_to(fields, args, a as int, f) {
                if a < n {
                    assert(first_to(fields, init, a as int, f)) by {
                        assert forall|b: int| 0 <= b < a implies !#[trigger] asks_for(
                            fields,
                            init,
                            b,
                            f,
                        ) by {
                            assert(!asks_for(fields, args, b, f));
                        }
                        assert(asks_for(fields, args, a as int, f));
                    }
                    assert(before[f] == Some(a));
                } else {
                    if before[f] is Some {
                        let b = before[f]->Some_0;
                        assert(first_to(fields, init, b as int, f));
                        assert(asks_for(fields, args, b as int, f));
                    }
                }
            }
            if slotted(fields, args)[f] == Some(a) {
                if before[f] == Some(a) {
                    assert(first_to(fields, init, a as int, f));
                    assert forall|b: int| 0 <= b < a implies !#[trigger] asks_for(
                        fields,
                        args,
                        b,
                        f,
                    ) by {
                        assert(!asks_for(fields, init, b, f));
                    }
                    assert(asks_for(fields, args, a as int, f));
                } else {
                    assert(a == n && before[f] is None);
                    if exists|b: int| 0 <= b < n && #[trigger] asks_for(fields, args, b, f) {
                        lemma_some_first(fields, init, f, n);
                        let c = choose|c: int| first_to(fields, init, c, f);
                        assert(before[f] == Some(c as nat));
                    }
                }
            }
        }
    } else {
        assert forall|f: int, a: nat| 0 <= f < fields.len() implies (#[trigger] slotted(
            fields,
            args,
        )[f] == Some(a) <==> #[trigger] first_to(fields, args, a as int, f)) by {}
    }
}

/// Where some argument asks for a field, one does so first.
proof fn lemma_some_first(
    fields: Seq<Option<Seq<char>>>,
    args: Seq<Option<Seq<char>>>,
    f: int,
    n: int,
)
    requires
        0 <= n <= args.len(),
        exists|b: int| 0 <= b < n && #[trigger] asks_for(fields, args, b, f),
    ensures
        exists|c: int| first_to(fields, args, c, f),
    decreases n,
{
    let b = choose|b: int| 0 <= b < n && #[trigger] asks_for(fields, args, b, f);
    if exists|c: int| 0 <= c < b && #[trigger] asks_for(fields, args, c, f) {
        lemma_some_first(fields, args, f, b);
    } else {
        assert(first_to(fields, args, b, f));
    }
}

proof fn lemma_field_of(fields: Seq<Option<Seq<char>>>, label: Seq<char>)
    ensures
        match field_of(fields, label) {
            Some(i) => i < fields.len() && fields[i as int] == Some(label) && forall|j: int|
                0 <= j < i ==> #[trigger] fields[j] != Some(label),
            None => forall|j: int| 0 <= j < fields.len() ==> #[trigger] fields[j] != Some(label),
        },
    decreases fields.len(),
{
    if fields.len() > 0 && fields[0] != Some(label) {
        let rest = fields.drop_first();
        lemma_field_of(rest, label);
        assert forall|j: int| 1 <= j < fields.len() implies #[trigger] fields[j] == rest[j - 1] by {}
    }
}

fn find_field(fields: &Vec<Option<String>>, label: &str) -> (r: Option<usize>)
    ensures
        match r {
            Some(i) => field_of(label_views(fields@), label@) == Some(i as nat),
            None => field_of(label_views(fields@), label@) is None,
        },
{
    let ghost fv = label_views(fields@);
    proof {
        lemma_field_of(fv, label@);
    }
    let mut i: usize = 0;
    while i < fields.len()
        invariant
            i <= fields.len(),
            fv == label_views(fields@),
            forall|j: int| 0 <= j < i ==> #[trigger] fv[j] != Some(label@),
        decreases fields.len() - i,
    {
        proof {
            assert(fv[i as int] == label_view(fields@[i as int]));
        }
        if let Some(l) = &fields[i] {
            if same_text(l.as_str(), label) {
                proof {
                    lemma_field_of(fv, label@);
                }
                return Some(i);
            }
        }
        i += 1;
    }
    None
}

/// Place each argument in its field: a labelled one in the field it names, one
/// without a label in the next field in order. The result says which argument
/// each field got, and which arguments got none.
pub fn slot_labeled(fields: &Vec<Option<String>>, args: &Vec<Option<String>>) -> (r: (
    Vec<Option<usize>>,
    Vec<SlotError>,
))
    ensures
        r.0@.len() == fields@.len(),
        forall|i: int|
            0 <= i < fields@.len() ==> (match #[trigger] r.0@[i] {
                Some(a) => slotted(label_views(fields@), label_views(args@))[i] == Some(a as nat),
                None => slotted(label_views(fields@), label_views(args@))[i] is None,
            }),
        r.1@ == misplaced(label_views(fields@), label_views(args@)),
{
    let ghost fv = label_views(fields@);
    let ghost av = label_views(args@);
    let mut by_pos: Vec<Option<usize>> = Vec::new();
    let mut errors: Vec<SlotError> = Vec::new();
    let mut k: usize = 0;
    while k < fields.len()
        invariant
            k <= fields.len(),
            by_pos@.len() == k,
            forall|i: int| 0 <= i < k ==> #[trigger] by_pos@[i] is None,
        decreases fields.len() - k,
    {
        by_pos.push(None);
        k += 1;
    }
    let mut next: usize = 0;
    let mut a: usize = 0;
    proof {
        assert(av.take(0) =~= Seq::empty());
    }
    while a < args.len()
        invariant
            a <= args.len(),
            fv == label_views(fields@),
            av == label_views(args@),
            next == positionals(av.take(a as int)),
            next <= a,
            by_pos@.len() == fields@.len(),
            errors@ == misplaced(fv, av.take(a as int)),
            forall|i: int|
                0 <= i < fields@.len() ==> (match #[trigger] by_pos@[i] {
                    Some(x) => slotted(fv, av.take(a as int))[i] == Some(x as nat),
                    None => slotted(fv, av.take(a as int))[i] is None,
                }),
        decreases args.len() - a,
    {
        let ghost now = av.take(a + 1);
        proof {
            lemma_slotted(fv, av.take(a as int));
            assert(now.drop_last() =~= av.take(a as int));
            assert(now.last() == label_view(args@[a as int]));
        }
        let slot: Option<usize> = match &args[a] {
            Some(label) => {
                proof {
                    lemma_field_of(fv, label@);
                }
                find_field(fields, label.as_str())
            },
            None => {
                let p = next;
                next += 1;
                if p < fields.len() {
                    Some(p)
                } else {
                    None
                }
            },
        };
        match slot {
            Some(f) => {
                if by_pos[f].is_none() {
                    by_pos.set(f, Some(a));
                } else {
                    errors.push(SlotError::Duplicate { arg: a });
                }
            },
            None => {
                if args[a].is_none() {
                    errors.push(SlotError::TooMany { arg: a });
                } else {
                    errors.push(SlotError::UnknownLabel { arg: a });
                }
            },
        }
        a += 1;
    }
    proof {
        assert(av.take(a as int) =~= av);
    }
    (by_pos, errors)
}

} // verus!
