//! What written types mean, and that reading one gives what it means.

use crate::entries::{lemma_get, lemma_put, Entries};
use crate::names::position;
use crate::syntax::{Diagnostic, NamedType, Span, TypeIdentifier, TypeKind};
use crate::types::annotation::{
    capitalized, read, read_all, read_named, Notes, Setting,
};
use crate::types::environment::{TypeBody, TypeInfo, TypeParam};
use crate::types::hydrator::{hydrated, ids_of, notes_of, setting, Hydrator};
use crate::types::infer::InferEngine;
use crate::types::node::{covered, Ty};
use crate::types::rewrite::{param_index, rewritten, rewritten_all, substituting};
use crate::types::term::Term;
use crate::types::type_env::TypeEnv;
use vstd::prelude::*;

verus! {

/// `x` is `t` with an argument in the place of each parameter, and all else as
/// it is in `t`.
pub open spec fn instance(params: Seq<TypeParam>, args: Seq<Term>, t: Term, x: Term) -> bool
    decreases t,
{
    match t {
        Term::Var(v) => {
            &&& forall|i: int| 0 <= i < params.len() && (#[trigger] params[i]).id == v ==> x
                == args[i]
            &&& (forall|i: int| 0 <= i < params.len() ==> (#[trigger] params[i]).id != v) ==> x == t
        },
        Term::Bound(i) => x == if i < args.len() {
            args[i as int]
        } else {
            t
        },
        Term::Con { id, name, args: ts } => x matches Term::Con { id: j, name: n, args: xs } && j
            == id && n == name && xs.len() == ts.len() && forall|i: int|
            0 <= i < ts.len() ==> instance(params, args, #[trigger] ts[i], xs[i]),
        Term::Tuple { elems } => x matches Term::Tuple { elems: xs } && xs.len() == elems.len()
            && forall|i: int|
            0 <= i < elems.len() ==> instance(params, args, #[trigger] elems[i], xs[i]),
        Term::Fun { params: ps, ret } => x matches Term::Fun { params: xs, ret: q } && xs.len()
            == ps.len() && instance(params, args, *ret, *q) && forall|i: int|
            0 <= i < ps.len() ==> instance(params, args, #[trigger] ps[i], xs[i]),
    }
}

/// Each parameter has a variable of its own.
pub open spec fn own_variables(params: Seq<TypeParam>) -> bool {
    forall|i: int, j: int|
        0 <= i < j < params.len() ==> (#[trigger] params[i]).id != (#[trigger] params[j]).id
}

/// The name under which a written type is looked up.
pub open spec fn looked_up(nt: NamedType) -> Seq<char> {
    match nt.qualifier {
        Some(q) => q.name@ + seq!['.'] + nt.identifier.name@,
        None => nt.identifier.name@,
    }
}

/// A written type means `x`, its type variables being those of `vars`. A
/// lowercase name, or one that was declared, is its variable; a name of an alias
/// is the alias's target at the arguments; any other name is a type of its own,
/// over the arguments; a tuple and a function are made of what their parts mean.
pub open spec fn means(
    h: Setting,
    vars: Entries<Seq<char>, i32>,
    t: TypeIdentifier,
    x: Term,
) -> bool
    decreases t,
{
    match t.kind {
        TypeKind::NamedType(nt) => named_means(h, vars, nt, x),
        TypeKind::TupleType(tt) => x matches Term::Tuple { elems } && elems.len()
            == tt.elements@.len() && forall|i: int|
            0 <= i < tt.elements@.len() ==> means(h, vars, #[trigger] tt.elements@[i], elems[i]),
        TypeKind::FunctionType(ft) => x matches Term::Fun { params, ret } && params.len()
            == ft.params@.len() && (forall|i: int|
            0 <= i < ft.params@.len() ==> means(h, vars, #[trigger] ft.params@[i], params[i])) && (
        match ft.return_type {
            Some(r) => means(h, vars, *r, *ret),
            None => *ret is Var,
        }),
    }
}

pub open spec fn named_means(
    h: Setting,
    vars: Entries<Seq<char>, i32>,
    nt: NamedType,
    x: Term,
) -> bool
    decreases nt,
{
    let name = nt.identifier.name@;
    if nt.qualifier is None && vars.has(name) {
        nt.type_args@.len() == 0 && x == Term::Var(vars.get(name).unwrap())
    } else {
        &&& nt.qualifier is Some || capitalized(name)
        &&& h.types.get(looked_up(nt)) matches Some(ti)
        &&& ti.type_params.len == nt.type_args@.len()
        &&& exists|ts: Seq<Term>|
            {
                &&& ts.len() == nt.type_args@.len()
                &&& forall|i: int|
                    0 <= i < ts.len() ==> means(
                        h,
                        vars,
                        #[trigger] nt.type_args@[i],
                        ts[i],
                    )
                &&& #[trigger] record_means(h, ti, ts, x)
            }
    }
}

/// A type's record at its arguments means `x`.
pub open spec fn record_means(h: Setting, ti: TypeInfo, ts: Seq<Term>, x: Term) -> bool {
    match ti.body {
        TypeBody::Alias { target } => instance(
            covered(h.params, ti.type_params),
            ts,
            (h.targets)(target),
            x,
        ),
        _ => x matches Term::Con { id, name, args } && id == ti.id && name == ti.name && args == ts,
    }
}

/// `b` has every variable of `a`, and any more of them have lowercase names.
pub open spec fn more_variables(
    a: Entries<Seq<char>, i32>,
    b: Entries<Seq<char>, i32>,
) -> bool {
    &&& b.wf()
    &&& a.keys.is_prefix_of(b.keys)
    &&& a.vals.is_prefix_of(b.vals)
    &&& forall|i: int| a.keys.len() <= i < b.keys.len() ==> !capitalized(#[trigger] b.keys[i])
}

proof fn lemma_more_trans(
    a: Entries<Seq<char>, i32>,
    b: Entries<Seq<char>, i32>,
    c: Entries<Seq<char>, i32>,
)
    requires
        a.wf(),
        more_variables(a, b),
        more_variables(b, c),
    ensures
        more_variables(a, c),
{
    assert forall|i: int| a.keys.len() <= i < c.keys.len() implies !capitalized(
        #[trigger] c.keys[i],
    ) by {
        if i < b.keys.len() {
            assert(c.keys[i] == b.keys[i]);
        }
    }
}

/// A name keeps its variable, and a capitalized one gains none.
proof fn lemma_more_get(
    a: Entries<Seq<char>, i32>,
    b: Entries<Seq<char>, i32>,
    name: Seq<char>,
)
    requires
        a.wf(),
        more_variables(a, b),
    ensures
        a.has(name) ==> b.has(name) && b.get(name) == a.get(name) && a.get(name) is Some,
        capitalized(name) && !a.has(name) ==> !b.has(name),
{
    if a.has(name) {
        let i = a.keys.index_of(name);
        lemma_get(a, name, i);
        assert(b.keys[i] == name);
        lemma_get(b, name, i);
    } else if b.has(name) {
        let i = b.keys.index_of(name);
        if i < a.keys.len() {
            assert(a.keys[i] == name);
        }
    }
}

proof fn lemma_read_more_variables(h: Setting, t: TypeIdentifier, n: Notes)
    requires
        n.created.wf(),
    ensures
        more_variables(n.created, read(h, t, n).notes.created),
    decreases t,
{
    match t.kind {
        TypeKind::NamedType(nt) => lemma_named_more_variables(h, nt, t.span, n),
        TypeKind::TupleType(tt) => lemma_all_more_variables(h, tt.elements@, n),
        TypeKind::FunctionType(ft) => {
            lemma_all_more_variables(h, ft.params@, n);
            let ps = read_all(h, ft.params@, n);
            if let Some(r) = ft.return_type {
                lemma_read_more_variables(h, *r, ps.notes);
                lemma_more_trans(
                    n.created,
                    ps.notes.created,
                    read(h, *r, ps.notes).notes.created,
                );
            }
        },
    }
}

proof fn lemma_named_more_variables(h: Setting, nt: NamedType, span: Span, n: Notes)
    requires
        n.created.wf(),
    ensures
        more_variables(n.created, read_named(h, nt, span, n).notes.created),
    decreases nt,
{
    lemma_all_more_variables(h, nt.type_args@, n);
    let name = nt.identifier.name@;
    let args = read_all(h, nt.type_args@, n);
    let made = args.notes.declare(name);
    if nt.qualifier is None && !n.created.has(name) && !capitalized(name)
        && nt.type_args@.len() == 0 {
        assert(args.notes == n);
        lemma_put(n.created, name, n.next());
        assert(more_variables(n.created, made.created));
    }
}

/// A key that has a value is where its value is.
proof fn lemma_position_is(keys: Seq<Seq<char>>, k: Seq<char>)
    requires
        position(keys, k) is Some,
    ensures
        position(keys, k)->Some_0 < keys.len(),
        keys[position(keys, k)->Some_0 as int] == k,
{
    let i = keys.index_of(k);
    assert(keys[i] == k);
}

proof fn lemma_all_more_variables(h: Setting, ts: Seq<TypeIdentifier>, n: Notes)
    requires
        n.created.wf(),
    ensures
        more_variables(n.created, read_all(h, ts, n).notes.created),
        read_all(h, ts, n).res matches Ok(xs) ==> xs.len() == ts.len(),
    decreases ts,
{
    if ts.len() > 0 {
        let init = read_all(h, ts.drop_last(), n);
        lemma_all_more_variables(h, ts.drop_last(), n);
        lemma_read_more_variables(h, ts.last(), init.notes);
        lemma_more_trans(
            n.created,
            init.notes.created,
            read(h, ts.last(), init.notes).notes.created,
        );
    }
}

/// A parameter is found by its variable.
proof fn lemma_param_index(ps: Seq<TypeParam>, v: i32)
    ensures
        match param_index(ps, v) {
            Some(i) => i < ps.len() && ps[i as int].id == v,
            None => forall|i: int| 0 <= i < ps.len() ==> (#[trigger] ps[i]).id != v,
        },
    decreases ps.len(),
{
    if ps.len() > 0 {
        lemma_param_index(ps.drop_last(), v);
        if param_index(ps, v) is None {
            assert forall|i: int| 0 <= i < ps.len() implies (#[trigger] ps[i]).id != v by {
                if i < ps.len() - 1 {
                    assert(ps.drop_last()[i].id != v);
                }
            }
        }
    }
}

/// Substituting gives the instance.
proof fn lemma_instance(params: Seq<TypeParam>, args: Seq<Term>, t: Term)
    requires
        own_variables(params),
        params.len() == args.len(),
    ensures
        instance(params, args, t, rewritten(substituting(params, args), t)),
    decreases t,
{
    let l = substituting(params, args);
    match t {
        Term::Var(v) => {
            lemma_param_index(params, v);
            if let Some(k) = param_index(params, v) {
                assert forall|i: int| 0 <= i < params.len() && (#[trigger] params[i]).id == v
                    implies i == k by {
                    let p = params[k as int];
                    if i < k {
                        assert(params[i].id != params[k as int].id);
                    } else if k < i {
                        assert(params[k as int].id != params[i].id);
                    }
                }
            }
        },
        Term::Bound(_) => {},
        Term::Con { id, name, args: ts } => {
            assert(rewritten_all(l, ts).len() == ts.len());
            assert forall|i: int| 0 <= i < ts.len() implies instance(
                params,
                args,
                #[trigger] ts[i],
                rewritten_all(l, ts)[i],
            ) by {
                lemma_instance(params, args, ts[i]);
            }
        },
        Term::Tuple { elems } => {
            assert(rewritten_all(l, elems).len() == elems.len());
            assert forall|i: int| 0 <= i < elems.len() implies instance(
                params,
                args,
                #[trigger] elems[i],
                rewritten_all(l, elems)[i],
            ) by {
                lemma_instance(params, args, elems[i]);
            }
        },
        Term::Fun { params: ps, ret } => {
            lemma_instance(params, args, *ret);
            assert(rewritten_all(l, ps).len() == ps.len());
            assert forall|i: int| 0 <= i < ps.len() implies instance(
                params,
                args,
                #[trigger] ps[i],
                rewritten_all(l, ps)[i],
            ) by {
                lemma_instance(params, args, ps[i]);
            }
        },
    }
}

/// With no parameter there is one instance: the type itself.
pub proof fn law_instance_without_parameters(t: Term, x: Term)
    requires
        instance(Seq::empty(), Seq::empty(), t, x),
    ensures
        x == t,
    decreases t,
{
    let none = Seq::<TypeParam>::empty();
    let nil = Seq::<Term>::empty();
    match t {
        Term::Con { id, name, args } => {
            let xs = x->Con_args;
            assert forall|i: int| 0 <= i < args.len() implies xs[i] == args[i] by {
                assert(instance(none, nil, args[i], xs[i]));
                law_instance_without_parameters(args[i], xs[i]);
            }
            assert(xs =~= args);
        },
        Term::Tuple { elems } => {
            let xs = x->Tuple_elems;
            assert forall|i: int| 0 <= i < elems.len() implies xs[i] == elems[i] by {
                assert(instance(none, nil, elems[i], xs[i]));
                law_instance_without_parameters(elems[i], xs[i]);
            }
            assert(xs =~= elems);
        },
        Term::Fun { params, ret } => {
            let xs = x->Fun_params;
            assert forall|i: int| 0 <= i < params.len() implies xs[i] == params[i] by {
                assert(instance(none, nil, params[i], xs[i]));
                law_instance_without_parameters(params[i], xs[i]);
            }
            assert(xs =~= params);
            law_instance_without_parameters(*ret, *x->Fun_ret);
        },
        _ => {},
    }
}

/// The parameters of every type in scope have variables of their own.
pub open spec fn records_own_variables(h: Setting) -> bool {
    forall|i: int|
        0 <= i < h.types.vals.len() ==> {
            let ti = #[trigger] h.types.vals[i];
            &&& ti.type_params.start + ti.type_params.len <= h.params.len()
            &&& own_variables(covered(h.params, ti.type_params))
        }
}

/// Reading a written type gives what it means, with whatever more variables are
/// named later.
pub proof fn law_read_gives_what_is_meant(
    h: Setting,
    t: TypeIdentifier,
    n: Notes,
    vars: Entries<Seq<char>, i32>,
)
    requires
        n.created.wf(),
        h.types.wf(),
        records_own_variables(h),
        more_variables(read(h, t, n).notes.created, vars),
        read(h, t, n).res is Ok,
    ensures
        means(h, vars, t, read(h, t, n).res->Ok_0),
    decreases t,
{
    lemma_read_more_variables(h, t, n);
    match t.kind {
        TypeKind::NamedType(nt) => lemma_named_means(h, nt, t.span, n, vars),
        TypeKind::TupleType(tt) => lemma_all_mean(h, tt.elements@, n, vars),
        TypeKind::FunctionType(ft) => {
            let ps = read_all(h, ft.params@, n);
            lemma_all_more_variables(h, ft.params@, n);
            match ft.return_type {
                Some(r) => {
                    lemma_read_more_variables(h, *r, ps.notes);
                    lemma_more_trans(
                        ps.notes.created,
                        read(h, *r, ps.notes).notes.created,
                        vars,
                    );
                    lemma_all_mean(h, ft.params@, n, vars);
                    law_read_gives_what_is_meant(h, *r, ps.notes, vars);
                },
                None => {
                    lemma_all_mean(h, ft.params@, n, vars);
                },
            }
        },
    }
}

proof fn lemma_all_mean(
    h: Setting,
    ts: Seq<TypeIdentifier>,
    n: Notes,
    vars: Entries<Seq<char>, i32>,
)
    requires
        n.created.wf(),
        h.types.wf(),
        records_own_variables(h),
        more_variables(read_all(h, ts, n).notes.created, vars),
        read_all(h, ts, n).res is Ok,
    ensures
        read_all(h, ts, n).res->Ok_0.len() == ts.len(),
        forall|i: int|
            0 <= i < ts.len() ==> means(
                h,
                vars,
                #[trigger] ts[i],
                read_all(h, ts, n).res->Ok_0[i],
            ),
    decreases ts,
{
    if ts.len() > 0 {
        let init = read_all(h, ts.drop_last(), n);
        lemma_all_more_variables(h, ts.drop_last(), n);
        lemma_read_more_variables(h, ts.last(), init.notes);
        lemma_more_trans(
            init.notes.created,
            read(h, ts.last(), init.notes).notes.created,
            vars,
        );
        lemma_all_mean(h, ts.drop_last(), n, vars);
        law_read_gives_what_is_meant(h, ts.last(), init.notes, vars);
        let xs = read_all(h, ts, n).res->Ok_0;
        assert forall|i: int| 0 <= i < ts.len() implies means(h, vars, #[trigger] ts[i], xs[i]) by {
            if i < ts.len() - 1 {
                assert(ts.drop_last()[i] == ts[i]);
                assert(means(h, vars, ts.drop_last()[i], init.res->Ok_0[i]));
            }
        }
    }
}

proof fn lemma_named_means(
    h: Setting,
    nt: NamedType,
    span: Span,
    n: Notes,
    vars: Entries<Seq<char>, i32>,
)
    requires
        n.created.wf(),
        h.types.wf(),
        records_own_variables(h),
        more_variables(read_named(h, nt, span, n).notes.created, vars),
        read_named(h, nt, span, n).res is Ok,
    ensures
        named_means(h, vars, nt, read_named(h, nt, span, n).res->Ok_0),
    decreases nt,
{
    let name = nt.identifier.name@;
    let out = read_named(h, nt, span, n);
    let x = out.res->Ok_0;
    lemma_named_more_variables(h, nt, span, n);
    lemma_more_trans(n.created, out.notes.created, vars);
    lemma_more_get(n.created, vars, name);
    reveal_strlit(".");
    assert("."@ =~= seq!['.']);
    if nt.qualifier is None && n.created.has(name) {
    } else {
        let args = read_all(h, nt.type_args@, n);
        lemma_all_more_variables(h, nt.type_args@, n);
        if nt.qualifier is None && !capitalized(name) {
            assert(nt.type_args@ =~= Seq::empty());
            lemma_put(n.created, name, n.next());
            lemma_more_get(out.notes.created, vars, name);
        } else {
            let ti = h.types.get(looked_up(nt))->Some_0;
            let ts = args.res->Ok_0;
            lemma_all_mean(h, nt.type_args@, n, vars);
            lemma_position_is(h.types.keys, looked_up(nt));
            let k = position(h.types.keys, looked_up(nt))->Some_0;
            assert(h.types.vals[k as int] == ti);
            lemma_instance_if_alias(h, ti, ts);
            assert(record_means(h, ti, ts, x));
        }
    }
}

proof fn lemma_instance_if_alias(h: Setting, ti: TypeInfo, ts: Seq<Term>)
    requires
        ti.type_params.start + ti.type_params.len <= h.params.len(),
        own_variables(covered(h.params, ti.type_params)),
        ts.len() == ti.type_params.len,
    ensures
        ti.body matches TypeBody::Alias { target } ==> instance(
            covered(h.params, ti.type_params),
            ts,
            (h.targets)(target),
            rewritten(substituting(covered(h.params, ti.type_params), ts), (h.targets)(target)),
        ),
{
    if let TypeBody::Alias { target } = ti.body {
        lemma_instance(covered(h.params, ti.type_params), ts, (h.targets)(target));
    }
}

/// Which names can be read, given that their arguments can: a declared variable
/// takes no argument; a lowercase name that was not declared is a new variable,
/// in a signature only; any other name has to be that of a type in scope, with
/// as many arguments as it has parameters.
pub proof fn law_which_names_are_read(h: Setting, nt: NamedType, span: Span, n: Notes)
    requires
        read_all(h, nt.type_args@, n).res is Ok,
        n.created.wf(),
    ensures
        read_named(h, nt, span, n).res is Ok <==> {
            let name = nt.identifier.name@;
            if nt.qualifier is None && n.created.has(name) {
                nt.type_args@.len() == 0
            } else if nt.qualifier is None && !capitalized(name) {
                nt.type_args@.len() == 0 && h.context is Signature
            } else {
                h.types.get(looked_up(nt)) matches Some(ti) && ti.type_params.len
                    == nt.type_args@.len()
            }
        },
{
    reveal_strlit(".");
    assert("."@ =~= seq!['.']);
    lemma_all_more_variables(h, nt.type_args@, n);
}

/// Aliases are transparent. An annotation that is the name of an alias stands
/// for the alias's target with each parameter replaced by what the argument
/// means; for an alias without parameters it is the same type as its target.
pub proof fn law_aliases_are_transparent(
    h0: &Hydrator,
    env: &TypeEnv,
    e0: &InferEngine,
    t: TypeIdentifier,
    nt: NamedType,
    h1: &Hydrator,
    e1: &InferEngine,
    ty: Ty,
    ti: TypeInfo,
    target: Ty,
)
    requires
        h0.wf(e0),
        env.wf(),
        records_own_variables(setting(h0, env, e0)),
        hydrated(
            h1,
            e1,
            e0,
            Ok::<Ty, Diagnostic>(ty),
            read(setting(h0, env, e0), t, notes_of(h0, e0)),
            0,
        ),
        t.kind == TypeKind::NamedType(nt),
        nt.qualifier is Some || capitalized(nt.identifier.name@) && !h0.created@.has(
            nt.identifier.name@,
        ),
        env.now().types.get(looked_up(nt)) == Some(ti),
        ti.body == (TypeBody::Alias { target }),
    ensures
        ti.type_params.len == nt.type_args@.len(),
        ti.type_params.len == 0 ==> e1.term(ty) == e0.term(target),
        exists|ts: Seq<Term>|
            {
                &&& ts.len() == nt.type_args@.len()
                &&& forall|i: int|
                    0 <= i < ts.len() ==> means(
                        setting(h0, env, e0),
                        ids_of(h1.created@),
                        #[trigger] nt.type_args@[i],
                        ts[i],
                    )
                &&& #[trigger] instance(
                    covered(e0.type_params@, ti.type_params),
                    ts,
                    e0.term(target),
                    e1.term(ty),
                )
            },
{
    let s = setting(h0, env, e0);
    let n = notes_of(h0, e0);
    let o = read(s, t, n);
    let vars = ids_of(h1.created@);
    let name = nt.identifier.name@;
    assert(h0.created@.wf());
    assert(n.created.wf());
    assert(vars == o.notes.created);
    lemma_read_more_variables(s, t, n);
    assert(more_variables(vars, vars));
    law_read_gives_what_is_meant(s, t, n, vars);
    lemma_more_get(n.created, vars, name);
    let x = e1.term(ty);
    assert(named_means(s, vars, nt, x));
    let ts = choose|ts: Seq<Term>|
        {
            &&& ts.len() == nt.type_args@.len()
            &&& forall|i: int|
                0 <= i < ts.len() ==> means(s, vars, #[trigger] nt.type_args@[i], ts[i])
            &&& #[trigger] record_means(s, ti, ts, x)
        };
    assert(record_means(s, ti, ts, x));
    assert(instance(covered(e0.type_params@, ti.type_params), ts, e0.term(target), x));
    if ti.type_params.len == 0 {
        let k = position(s.types.keys, looked_up(nt))->Some_0;
        lemma_position_is(s.types.keys, looked_up(nt));
        assert(s.types.vals[k as int] == ti);
        assert(covered(e0.type_params@, ti.type_params) =~= Seq::empty());
        assert(ts =~= Seq::empty());
        law_instance_without_parameters(e0.term(target), x);
    }
}

} // verus!
