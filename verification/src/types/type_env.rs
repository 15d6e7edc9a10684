//! The environment of names, with scopes, module frames and rollback.

use crate::entries::{
    covers, Entries, IdMap, insertions, lemma_get, lemma_logged_put, lemma_logged_put_at,
    lemma_put, lemma_put_back, lemma_undone, lemma_undone_at, lemma_undone_at_split,
    lemma_undone_split, NameMap, put_back, replays, replays_at, undone, undone_at,
};
use crate::names::position;
use crate::type_def::TypeId;
use crate::types::environment::{
    binding_overwrites, binding_undos, definition_overwrites, definition_undos,
    DefinitionLocation, doc_overwrites, doc_undos, EnvWatermark, FrameUndo, id_overwrites,
    lemma_covers_put, lemma_journal_push, lemma_overwrites_push, lemma_overwrites_suffix,
    lemma_part, lemma_undos_push, lemma_undos_split, Maps, Overwrite, Rooted, type_overwrites,
    type_undos, TypeBody, TypeInfo,
};
use crate::types::node::{ArenaSlice, Scheme, StrId};
use crate::types::pool::{StrSlices, TypeParams};
use vstd::prelude::*;

verus! {

/// Names in scope.
pub struct TypeEnv {
    /// Name -> scheme. Nested scopes live in the undo log below, so a lookup
    /// is one probe.
    pub bindings: NameMap<Scheme>,
    /// For every `define` with a scope open: its place, and the value before.
    pub scope_undo: Vec<(usize, Option<Scheme>)>,
    /// The length of `scope_undo` at each `push_scope`.
    pub scope_marks: Vec<usize>,
    /// Type lookup by source name.
    pub type_info: NameMap<TypeInfo>,
    /// Type lookup by nominal id.
    pub type_info_by_id: IdMap<TypeInfo>,
    pub definitions: NameMap<DefinitionLocation>,
    pub docs: NameMap<String>,
    /// In-place overwrites; see [`Overwrite`].
    pub journal: Vec<Overwrite>,
    /// By-name mutations made inside module frames; see [`FrameUndo`].
    pub frame_undo: Vec<FrameUndo>,
    /// The lengths of `frame_undo` and `scope_undo` at each
    /// `push_module_frame`.
    pub frame_marks: Vec<(usize, usize)>,
    pub next_type_id: TypeId,
}

impl TypeEnv {
    /// What the maps hold now.
    pub open spec fn now(&self) -> Maps {
        Maps {
            bindings: self.bindings@,
            types: self.type_info@,
            ids: self.type_info_by_id@,
            definitions: self.definitions@,
            docs: self.docs@,
        }
    }

    /// The bindings with the scope records from `mark` on undone.
    pub open spec fn out_of_scopes(&self, mark: int) -> Entries<Seq<char>, Scheme> {
        undone_at(self.bindings@, self.scope_undo@.skip(mark))
    }

    /// The by-name maps as they will be when the frame with these marks is
    /// closed.
    pub open spec fn out_of_frames(&self, frames: int, scopes: int) -> Maps {
        let log = self.frame_undo@.skip(frames);
        Maps {
            bindings: undone(self.out_of_scopes(scopes), binding_undos(log)),
            types: undone(self.type_info@, type_undos(log)),
            ids: self.type_info_by_id@,
            definitions: undone(self.definitions@, definition_undos(log)),
            docs: undone(self.docs@, doc_undos(log)),
        }
    }

    pub open spec fn rooted(&self) -> Rooted {
        Rooted { maps: self.out_of_frames(0, 0), journal: self.journal@ }
    }

    /// The undo logs replay: each record undoes what was last done.
    pub open spec fn replays(&self) -> bool {
        &&& replays_at(self.bindings@, self.scope_undo@)
        &&& replays(self.out_of_scopes(0), binding_undos(self.frame_undo@))
        &&& replays(self.type_info@, type_undos(self.frame_undo@))
        &&& replays(self.definitions@, definition_undos(self.frame_undo@))
        &&& replays(self.docs@, doc_undos(self.frame_undo@))
    }

    pub open spec fn marks_ok(&self) -> bool {
        &&& forall|i: int|
            0 <= i < self.scope_marks@.len() ==> #[trigger] self.scope_marks@[i]
                <= self.scope_undo@.len()
        &&& forall|i: int, j: int|
            0 <= i <= j < self.scope_marks@.len() ==> self.scope_marks@[i] <= self.scope_marks@[j]
        &&& forall|i: int|
            0 <= i < self.frame_marks@.len() ==> (#[trigger] self.frame_marks@[i]).0
                <= self.frame_undo@.len() && self.frame_marks@[i].1 <= self.scope_undo@.len()
        &&& forall|i: int, j: int|
            0 <= i <= j < self.frame_marks@.len() ==> self.frame_marks@[i].0
                <= self.frame_marks@[j].0 && self.frame_marks@[i].1 <= self.frame_marks@[j].1
        &&& forall|i: int|
            0 <= i < self.frame_marks@.len() && (#[trigger] self.frame_marks@[i]).1 > 0
                ==> binding_undos(self.frame_undo@.skip(self.frame_marks@[i].0 as int)).len() == 0
        &&& self.scope_marks@.len() == 0 ==> self.scope_undo@.len() == 0
        &&& self.scope_marks@.len() > 0 ==> self.scope_marks@[0] == 0
        &&& self.frame_marks@.len() == 0 ==> self.frame_undo@.len() == 0
        &&& self.frame_marks@.len() > 0 ==> self.frame_marks@[0].0 == 0
    }

    pub open spec fn wf(&self) -> bool {
        &&& self.bindings.wf()
        &&& self.type_info.wf()
        &&& self.type_info_by_id.wf()
        &&& self.definitions.wf()
        &&& self.docs.wf()
        &&& self.replays()
        &&& self.marks_ok()
        &&& self.rooted().wf()
    }

    /// Every scope and frame that is open will close to what it would have
    /// closed to, and every watermark in the past will roll back to the same.
    pub open spec fn keeps_promises(&self, before: &TypeEnv) -> bool {
        &&& self.scope_marks == before.scope_marks
        &&& self.frame_marks == before.frame_marks
        &&& forall|i: int|
            0 <= i < before.scope_marks@.len() ==> self.out_of_scopes(
                #[trigger] before.scope_marks@[i] as int,
            ) == before.out_of_scopes(before.scope_marks@[i] as int)
        &&& forall|i: int|
            0 <= i < before.frame_marks@.len() ==> same_names_out(
                self,
                before,
                #[trigger] before.frame_marks@[i],
            )
        &&& self.rooted().remembers(before.rooted())
    }
}

/// Closing the frame with these marks gives the same by-name maps.
pub open spec fn same_names_out(a: &TypeEnv, b: &TypeEnv, mark: (usize, usize)) -> bool {
    let x = a.out_of_frames(mark.0 as int, mark.1 as int);
    let y = b.out_of_frames(mark.0 as int, mark.1 as int);
    x.bindings == y.bindings && x.types == y.types && x.definitions == y.definitions && x.docs
        == y.docs
}

/// An environment that knows nothing yet.
pub fn new_env() -> (r: TypeEnv)
    ensures
        r.wf(),
        r.next_type_id == TypeId(1),
        r.now().bindings.keys.len() == 0,
        r.now().types.keys.len() == 0,
        r.now().ids.keys.len() == 0,
        r.now().definitions.keys.len() == 0,
        r.now().docs.keys.len() == 0,
        r.journal@.len() == 0,
        r.scope_marks@.len() == 0,
        r.frame_marks@.len() == 0,
{
    let r = TypeEnv {
        bindings: NameMap::new(),
        scope_undo: Vec::new(),
        scope_marks: Vec::new(),
        type_info: NameMap::new(),
        type_info_by_id: IdMap::new(),
        definitions: NameMap::new(),
        docs: NameMap::new(),
        journal: Vec::new(),
        frame_undo: Vec::new(),
        frame_marks: Vec::new(),
        next_type_id: TypeId(1),
    };
    proof {
        assert(r.scope_undo@.skip(0) =~= Seq::empty());
        assert(r.frame_undo@.skip(0) =~= Seq::empty());
    }
    r
}

/// A record logged in front of a mutation, seen from any earlier mark.
proof fn lemma_skip_push<T>(log: Seq<T>, x: T, m: int)
    requires
        0 <= m <= log.len(),
    ensures
        log.push(x).skip(m) == log.skip(m).push(x),
{
    assert(log.push(x).skip(m) =~= log.skip(m).push(x));
}

/// Nothing about the root changed, so nothing about rolling back did.
proof fn lemma_same_root(a: Rooted, b: Rooted)
    requires
        a.maps == b.maps,
        a.journal == b.journal,
    ensures
        b.remembers(a),
{
}

impl TypeEnv {
    pub fn next_type_id(&self) -> (r: TypeId)
        ensures
            r == self.next_type_id,
    {
        self.next_type_id
    }

    pub fn set_next_type_id(&mut self, id: TypeId)
        ensures
            *final(self) == (TypeEnv { next_type_id: id, ..*old(self) }),
    {
        self.next_type_id = id;
    }

    pub fn push_scope(&mut self)
        requires
            old(self).wf(),
        ensures
            final(self).wf(),
            final(self).now() == old(self).now(),
            final(self).scope_marks@ == old(self).scope_marks@.push(old(self).scope_undo@.len() as usize),
            final(self).scope_undo == old(self).scope_undo,
            final(self).frame_undo == old(self).frame_undo,
            final(self).frame_marks == old(self).frame_marks,
            final(self).journal == old(self).journal,
            final(self).next_type_id == old(self).next_type_id,
            final(self).out_of_scopes(final(self).scope_marks@.last() as int) == old(self).bindings@,
    {
        let n = self.scope_undo.len();
        self.scope_marks.push(n);
        proof {
            assert(self.scope_undo@.skip(n as int) =~= Seq::empty());
        }
    }

    /// Undo the scope records down to `mark`.
    fn unwind_scope_undo(&mut self, mark: usize)
        requires
            old(self).bindings.wf(),
            mark <= old(self).scope_undo@.len(),
            replays_at(old(self).bindings@, old(self).scope_undo@),
        ensures
            final(self).bindings.wf(),
            final(self).bindings@ == old(self).out_of_scopes(mark as int),
            final(self).scope_undo@ == old(self).scope_undo@.take(mark as int),
            replays_at(final(self).bindings@, final(self).scope_undo@),
            final(self).scope_marks == old(self).scope_marks,
            final(self).type_info == old(self).type_info,
            final(self).type_info_by_id == old(self).type_info_by_id,
            final(self).definitions == old(self).definitions,
            final(self).docs == old(self).docs,
            final(self).journal == old(self).journal,
            final(self).frame_undo == old(self).frame_undo,
            final(self).frame_marks == old(self).frame_marks,
            final(self).next_type_id == old(self).next_type_id,
            undone_at(final(self).bindings@, final(self).scope_undo@) == undone_at(
                old(self).bindings@,
                old(self).scope_undo@,
            ),
    {
        let ghost log = self.scope_undo@;
        let ghost start = self.bindings@;
        proof {
            assert(log.take(log.len() as int) =~= log);
            assert(log.skip(log.len() as int) =~= Seq::empty());
        }
        while self.scope_undo.len() > mark
            invariant
                self.bindings.wf(),
                mark <= self.scope_undo@.len() <= log.len(),
                log == old(self).scope_undo@,
                start == old(self).bindings@,
                self.scope_undo@ == log.take(self.scope_undo@.len() as int),
                self.bindings@ == undone_at(start, log.skip(self.scope_undo@.len() as int)),
                replays_at(self.bindings@, self.scope_undo@),
                self.scope_marks == old(self).scope_marks,
                self.type_info == old(self).type_info,
                self.type_info_by_id == old(self).type_info_by_id,
                self.definitions == old(self).definitions,
                self.docs == old(self).docs,
                self.journal == old(self).journal,
                self.frame_undo == old(self).frame_undo,
                self.frame_marks == old(self).frame_marks,
                self.next_type_id == old(self).next_type_id,
                undone_at(self.bindings@, self.scope_undo@) == undone_at(start, log),
            decreases self.scope_undo@.len(),
        {
            let ghost n = self.scope_undo@.len() as int;
            let ghost cur = self.bindings@;
            let ghost part = self.scope_undo@;
            match self.scope_undo.pop() {
                Some((idx, prev)) => {
                    proof {
                        assert(part.last() == (idx, prev));
                        assert(part.drop_last() =~= self.scope_undo@);
                        assert(log.skip(n - 1) =~= seq![log[n - 1]] + log.skip(n));
                        lemma_undone_at_split(start, log.skip(n - 1), 1);
                        assert(log.skip(n - 1).skip(1) =~= log.skip(n));
                        let one = log.skip(n - 1).take(1);
                        assert(one =~= seq![(idx, prev)]);
                        assert(one.last() == (idx, prev));
                        assert(one.drop_last() =~= Seq::empty());
                        assert(undone_at(cur, one) == undone_at(
                            cur.undo_at(idx as int, prev),
                            one.drop_last(),
                        ));
                    }
                    match prev {
                        Some(s) => {
                            self.bindings.set_at(idx, s);
                        },
                        None => {
                            self.bindings.pop();
                        },
                    }
                },
                None => {},
            }
        }
    }

    /// Close the innermost scope: the bindings are what they were when it was
    /// opened.
    pub fn pop_scope(&mut self)
        requires
            old(self).wf(),
            old(self).scope_marks@.len() > 0,
            old(self).frame_marks@.len() > 0 ==> old(self).frame_marks@.last().1
                <= old(self).scope_marks@.last(),
        ensures
            final(self).wf(),
            final(self).now() == (Maps {
                bindings: old(self).out_of_scopes(old(self).scope_marks@.last() as int),
                ..old(self).now()
            }),
            final(self).scope_marks@ == old(self).scope_marks@.drop_last(),
            final(self).scope_undo@ == old(self).scope_undo@.take(
                old(self).scope_marks@.last() as int,
            ),
            final(self).frame_undo == old(self).frame_undo,
            final(self).frame_marks == old(self).frame_marks,
            final(self).journal == old(self).journal,
            final(self).next_type_id == old(self).next_type_id,
            final(self).rooted() == old(self).rooted(),
    {
        let ghost log = self.scope_undo@;
        let ghost b0 = self.bindings@;
        match self.scope_marks.pop() {
            Some(mark) => {
                self.unwind_scope_undo(mark);
                proof {
                    assert(log.skip(0) =~= log);
                    assert(self.scope_undo@.skip(0) =~= self.scope_undo@);
                    assert(self.frame_undo@.skip(0) =~= self.frame_undo@);
                }
            },
            None => {},
        }
    }

    /// Open a module frame: until it is closed, every by-name mutation made
    /// outside a scope is logged, and undone at the close.
    pub fn push_module_frame(&mut self)
        requires
            old(self).wf(),
        ensures
            final(self).wf(),
            final(self).now() == old(self).now(),
            final(self).frame_marks@ == old(self).frame_marks@.push(
                (old(self).frame_undo@.len() as usize, old(self).scope_undo@.len() as usize),
            ),
            final(self).scope_marks == old(self).scope_marks,
            final(self).scope_undo == old(self).scope_undo,
            final(self).frame_undo == old(self).frame_undo,
            final(self).journal == old(self).journal,
            final(self).next_type_id == old(self).next_type_id,
            final(self).out_of_frames(
                final(self).frame_marks@.last().0 as int,
                final(self).frame_marks@.last().1 as int,
            ) == old(self).now(),
    {
        let f = self.frame_undo.len();
        let s = self.scope_undo.len();
        self.frame_marks.push((f, s));
        proof {
            assert(self.scope_undo@.skip(s as int) =~= Seq::empty());
            assert(self.frame_undo@.skip(f as int) =~= Seq::empty());
        }
    }

    /// Undo the frame records down to `mark`.
    fn unwind_frame_undo(&mut self, mark: usize)
        requires
            old(self).bindings.wf(),
            old(self).type_info.wf(),
            old(self).definitions.wf(),
            old(self).docs.wf(),
            mark <= old(self).frame_undo@.len(),
            replays(old(self).bindings@, binding_undos(old(self).frame_undo@.skip(mark as int))),
            replays(old(self).type_info@, type_undos(old(self).frame_undo@.skip(mark as int))),
            replays(
                old(self).definitions@,
                definition_undos(old(self).frame_undo@.skip(mark as int)),
            ),
            replays(old(self).docs@, doc_undos(old(self).frame_undo@.skip(mark as int))),
        ensures
            final(self).bindings.wf(),
            final(self).type_info.wf(),
            final(self).definitions.wf(),
            final(self).docs.wf(),
            final(self).frame_undo@ == old(self).frame_undo@.take(mark as int),
            final(self).bindings@ == undone(
                old(self).bindings@,
                binding_undos(old(self).frame_undo@.skip(mark as int)),
            ),
            final(self).type_info@ == undone(
                old(self).type_info@,
                type_undos(old(self).frame_undo@.skip(mark as int)),
            ),
            final(self).definitions@ == undone(
                old(self).definitions@,
                definition_undos(old(self).frame_undo@.skip(mark as int)),
            ),
            final(self).docs@ == undone(
                old(self).docs@,
                doc_undos(old(self).frame_undo@.skip(mark as int)),
            ),
            final(self).scope_undo == old(self).scope_undo,
            final(self).scope_marks == old(self).scope_marks,
            final(self).type_info_by_id == old(self).type_info_by_id,
            final(self).journal == old(self).journal,
            final(self).frame_marks == old(self).frame_marks,
            final(self).next_type_id == old(self).next_type_id,
    {
        let ghost log = self.frame_undo@;
        let ghost tail = log.skip(mark as int);
        proof {
            assert(log.take(log.len() as int) =~= log);
            assert(tail.take(tail.len() as int) =~= tail);
        }
        while self.frame_undo.len() > mark
            invariant
                self.bindings.wf(),
                self.type_info.wf(),
                self.definitions.wf(),
                self.docs.wf(),
                mark <= self.frame_undo@.len() <= log.len(),
                log == old(self).frame_undo@,
                tail == log.skip(mark as int),
                self.frame_undo@ == log.take(self.frame_undo@.len() as int),
                replays(
                    self.bindings@,
                    binding_undos(tail.take(self.frame_undo@.len() - mark)),
                ),
                replays(self.type_info@, type_undos(tail.take(self.frame_undo@.len() - mark))),
                replays(
                    self.definitions@,
                    definition_undos(tail.take(self.frame_undo@.len() - mark)),
                ),
                replays(self.docs@, doc_undos(tail.take(self.frame_undo@.len() - mark))),
                undone(self.bindings@, binding_undos(tail.take(self.frame_undo@.len() - mark)))
                    == undone(old(self).bindings@, binding_undos(tail)),
                undone(self.type_info@, type_undos(tail.take(self.frame_undo@.len() - mark)))
                    == undone(old(self).type_info@, type_undos(tail)),
                undone(
                    self.definitions@,
                    definition_undos(tail.take(self.frame_undo@.len() - mark)),
                ) == undone(old(self).definitions@, definition_undos(tail)),
                undone(self.docs@, doc_undos(tail.take(self.frame_undo@.len() - mark))) == undone(
                    old(self).docs@,
                    doc_undos(tail),
                ),
                self.scope_undo == old(self).scope_undo,
                self.scope_marks == old(self).scope_marks,
                self.type_info_by_id == old(self).type_info_by_id,
                self.journal == old(self).journal,
                self.frame_marks == old(self).frame_marks,
                self.next_type_id == old(self).next_type_id,
            decreases self.frame_undo@.len(),
        {
            let ghost n = self.frame_undo@.len() as int;
            let ghost part = tail.take(n - mark);
            let ghost rest = tail.take(n - 1 - mark);
            match self.frame_undo.pop() {
                Some(u) => {
                    proof {
                        assert(u == log[n - 1]);
                        assert(part =~= rest.push(u));
                        lemma_undos_push(rest, u);
                        assert(binding_undos(rest.push(u)).drop_last() =~= binding_undos(rest)
                            || !(u is Binding));
                        assert(type_undos(rest.push(u)).drop_last() =~= type_undos(rest) || !(
                        u is TypeInfo));
                        assert(definition_undos(rest.push(u)).drop_last() =~= definition_undos(rest)
                            || !(u is Definition));
                        assert(doc_undos(rest.push(u)).drop_last() =~= doc_undos(rest) || !(
                        u is Doc));
                        assert(self.frame_undo@ =~= log.take(n - 1));
                    }
                    match u {
                        FrameUndo::Binding(name, Some(s)) => {
                            self.bindings.put(name.as_str(), s);
                        },
                        FrameUndo::Binding(name, None) => {
                            self.bindings.pop();
                        },
                        FrameUndo::TypeInfo(name, Some(ti)) => {
                            self.type_info.put(name.as_str(), ti);
                        },
                        FrameUndo::TypeInfo(name, None) => {
                            self.type_info.pop();
                        },
                        FrameUndo::Definition(name, Some(dl)) => {
                            self.definitions.put(name.as_str(), dl);
                        },
                        FrameUndo::Definition(name, None) => {
                            self.definitions.pop();
                        },
                        FrameUndo::Doc(name, Some(doc)) => {
                            self.docs.put(name.as_str(), doc);
                        },
                        FrameUndo::Doc(name, None) => {
                            self.docs.pop();
                        },
                    }
                },
                None => {},
            }
        }
        proof {
            assert(tail.take(0) =~= Seq::empty());
        }
    }

    /// Close the innermost module frame: the by-name maps are what they were
    /// when it was opened.
    pub fn pop_module_frame(&mut self)
        requires
            old(self).wf(),
            old(self).frame_marks@.len() > 0,
            old(self).scope_marks@.len() > 0 ==> old(self).scope_marks@.last()
                <= old(self).frame_marks@.last().1,
        ensures
            final(self).wf(),
            final(self).now() == old(self).out_of_frames(
                old(self).frame_marks@.last().0 as int,
                old(self).frame_marks@.last().1 as int,
            ),
            final(self).frame_marks@ == old(self).frame_marks@.drop_last(),
            final(self).frame_undo@ == old(self).frame_undo@.take(
                old(self).frame_marks@.last().0 as int,
            ),
            final(self).scope_undo@ == old(self).scope_undo@.take(
                old(self).frame_marks@.last().1 as int,
            ),
            final(self).scope_marks == old(self).scope_marks,
            final(self).journal == old(self).journal,
            final(self).next_type_id == old(self).next_type_id,
            final(self).rooted() == old(self).rooted(),
    {
        let ghost e0 = *self;
        match self.frame_marks.pop() {
            Some((fmark, smark)) => {
                proof {
                    assert((fmark, smark) == e0.frame_marks@[e0.frame_marks@.len() - 1]);
                    lemma_frame_close(&e0, fmark as int, smark as int);
                }
                self.unwind_scope_undo(smark);
                self.unwind_frame_undo(fmark);
                proof {
                    lemma_frame_closed(&e0, self, fmark as int, smark as int);
                    lemma_frame_marks(&e0, self, fmark as int, smark as int);
                }
            },
            None => {},
        }
    }
}

/// A log in two parts.
proof fn lemma_two_parts<K, V>(
    m: Entries<K, V>,
    log: Seq<(K, Option<V>)>,
    a: Seq<(K, Option<V>)>,
    b: Seq<(K, Option<V>)>,
)
    requires
        log == a + b,
    ensures
        undone(m, log) == undone(undone(m, b), a),
        replays(m, log) <==> replays(m, b) && replays(undone(m, b), a),
{
    let n = a.len() as int;
    lemma_undone_split(m, log, n);
    assert(log.skip(n) =~= b);
    assert(log.take(n) =~= a);
}

/// The records of the innermost frame can be undone once its scope records
/// are.
proof fn lemma_frame_close(e: &TypeEnv, f: int, s: int)
    requires
        e.wf(),
        0 <= f <= e.frame_undo@.len(),
        0 <= s <= e.scope_undo@.len(),
        s > 0 ==> binding_undos(e.frame_undo@.skip(f)).len() == 0,
    ensures
        replays(e.out_of_scopes(s), binding_undos(e.frame_undo@.skip(f))),
        replays(e.type_info@, type_undos(e.frame_undo@.skip(f))),
        replays(e.definitions@, definition_undos(e.frame_undo@.skip(f))),
        replays(e.docs@, doc_undos(e.frame_undo@.skip(f))),
{
    let log = e.frame_undo@;
    lemma_undos_split(log, f);
    lemma_two_parts(
        e.out_of_scopes(0),
        binding_undos(log),
        binding_undos(log.take(f)),
        binding_undos(log.skip(f)),
    );
    lemma_two_parts(
        e.type_info@,
        type_undos(log),
        type_undos(log.take(f)),
        type_undos(log.skip(f)),
    );
    lemma_two_parts(
        e.definitions@,
        definition_undos(log),
        definition_undos(log.take(f)),
        definition_undos(log.skip(f)),
    );
    lemma_two_parts(e.docs@, doc_undos(log), doc_undos(log.take(f)), doc_undos(log.skip(f)));
}

/// Closing a frame leaves what lies below all scopes and frames as it was.
proof fn lemma_frame_closed(a: &TypeEnv, b: &TypeEnv, f: int, s: int)
    requires
        a.wf(),
        0 <= f <= a.frame_undo@.len(),
        0 <= s <= a.scope_undo@.len(),
        s > 0 ==> binding_undos(a.frame_undo@.skip(f)).len() == 0,
        b.now() == a.out_of_frames(f, s),
        b.scope_undo@ == a.scope_undo@.take(s),
        b.frame_undo@ == a.frame_undo@.take(f),
        b.journal == a.journal,
    ensures
        b.rooted() == a.rooted(),
        b.replays(),
{
    let log = a.frame_undo@;
    let sl = a.scope_undo@;
    assert(log.skip(0) =~= log);
    assert(sl.skip(0) =~= sl);
    assert(log.take(f).skip(0) =~= log.take(f));
    assert(sl.take(s).skip(0) =~= sl.take(s));
    lemma_undos_split(log, f);
    lemma_two_parts(
        a.out_of_scopes(0),
        binding_undos(log),
        binding_undos(log.take(f)),
        binding_undos(log.skip(f)),
    );
    lemma_two_parts(
        a.type_info@,
        type_undos(log),
        type_undos(log.take(f)),
        type_undos(log.skip(f)),
    );
    lemma_two_parts(
        a.definitions@,
        definition_undos(log),
        definition_undos(log.take(f)),
        definition_undos(log.skip(f)),
    );
    lemma_two_parts(a.docs@, doc_undos(log), doc_undos(log.take(f)), doc_undos(log.skip(f)));
    lemma_undone_at_split(a.bindings@, sl, s);
    if s > 0 {
        assert(binding_undos(log.skip(f)) =~= Seq::empty());
        assert(binding_undos(log) =~= binding_undos(log.take(f)));
    } else {
        assert(sl.take(0) =~= Seq::empty());
    }
}

/// The marks that are left after a frame is closed fit what is left.
proof fn lemma_frame_marks(a: &TypeEnv, b: &TypeEnv, f: int, s: int)
    requires
        a.wf(),
        a.frame_marks@.len() > 0,
        f == a.frame_marks@.last().0,
        s == a.frame_marks@.last().1,
        a.scope_marks@.len() > 0 ==> a.scope_marks@.last() <= s,
        b.frame_marks@ == a.frame_marks@.drop_last(),
        b.scope_marks == a.scope_marks,
        b.scope_undo@ == a.scope_undo@.take(s),
        b.frame_undo@ == a.frame_undo@.take(f),
    ensures
        b.marks_ok(),
{
    let n = a.frame_marks@.len() - 1;
    assert forall|i: int| 0 <= i < b.frame_marks@.len() implies (#[trigger] b.frame_marks@[i]).0
        <= b.frame_undo@.len() && b.frame_marks@[i].1 <= b.scope_undo@.len() by {
        assert(a.frame_marks@[i].0 <= a.frame_marks@[n].0);
    }
    assert forall|i: int|
        0 <= i < b.frame_marks@.len() && (#[trigger] b.frame_marks@[i]).1 > 0 implies binding_undos(
        b.frame_undo@.skip(b.frame_marks@[i].0 as int),
    ).len() == 0 by {
        let fi = a.frame_marks@[i].0 as int;
        assert(a.frame_marks@[i].0 <= a.frame_marks@[n].0);
        let tail = a.frame_undo@.skip(fi);
        assert(binding_undos(tail).len() == 0);
        lemma_undos_split(tail, f - fi);
        assert(a.frame_undo@.take(f).skip(fi) =~= tail.take(f - fi));
    }
    assert forall|i: int| 0 <= i < b.scope_marks@.len() implies #[trigger] b.scope_marks@[i]
        <= b.scope_undo@.len() by {
        assert(a.scope_marks@[i] <= a.scope_marks@[a.scope_marks@.len() - 1]);
    }
}

/// A change of one key, journaled where it overwrites, is remembered.
proof fn lemma_remember_binding(a: Rooted, b: Rooted, k: Seq<char>, v: Scheme, o: Overwrite)
    requires
        a.wf(),
        b.maps == (Maps { bindings: a.maps.bindings.put(k, v), ..a.maps }),
        a.maps.bindings.has(k) ==> b.journal == a.journal.push(o) && (o matches Overwrite::Binding(
            n,
            p,
        ) && n@ == k && a.maps.bindings.get(k) == Some(p)),
        !a.maps.bindings.has(k) ==> b.journal == a.journal,
    ensures
        b.wf(),
        b.remembers(a),
{
    let m = a.maps.bindings;
    lemma_overwrites_push(a.journal, o);
    match m.get(k) {
        Some(p) => {
            lemma_covers_put(m, binding_overwrites(a.journal), k, v, m.has(k), p);
        },
        None => {
            lemma_covers_put(m, binding_overwrites(a.journal), k, v, false, v);
        },
    }
    assert(b.wf());
    assert forall|w: EnvWatermark| #[trigger] a.reaches(w) implies b.reaches(w) && b.back_to(w)
        == a.back_to(w) by {
        let n = w.journal as int;
        lemma_journal_push(a.journal, o, n);
        lemma_overwrites_push(a.journal.skip(n), o);
        lemma_overwrites_suffix(a.journal, a.maps, n);
        let j0 = binding_overwrites(a.journal.skip(n));
        let j1 = binding_overwrites(b.journal.skip(n));
        lemma_part(
            m,
            b.maps.bindings,
            binding_overwrites(a.journal.take(n)),
            j0,
            j1,
            k,
            v,
            w.root_scope as int,
        );
        assert(b.back_to(w) =~= a.back_to(w));
    }
}

/// A change of one key, journaled where it overwrites, is remembered.
proof fn lemma_remember_type(a: Rooted, b: Rooted, k: Seq<char>, v: TypeInfo, o: Overwrite)
    requires
        a.wf(),
        b.maps == (Maps { types: a.maps.types.put(k, v), ..a.maps }),
        a.maps.types.has(k) ==> b.journal == a.journal.push(o) && (o matches Overwrite::TypeInfo(
            n,
            p,
        ) && n@ == k && a.maps.types.get(k) == Some(p)),
        !a.maps.types.has(k) ==> b.journal == a.journal,
    ensures
        b.wf(),
        b.remembers(a),
{
    let m = a.maps.types;
    lemma_overwrites_push(a.journal, o);
    match m.get(k) {
        Some(p) => {
            lemma_covers_put(m, type_overwrites(a.journal), k, v, m.has(k), p);
        },
        None => {
            lemma_covers_put(m, type_overwrites(a.journal), k, v, false, v);
        },
    }
    assert(b.wf());
    assert forall|w: EnvWatermark| #[trigger] a.reaches(w) implies b.reaches(w) && b.back_to(w)
        == a.back_to(w) by {
        let n = w.journal as int;
        lemma_journal_push(a.journal, o, n);
        lemma_overwrites_push(a.journal.skip(n), o);
        lemma_overwrites_suffix(a.journal, a.maps, n);
        let j0 = type_overwrites(a.journal.skip(n));
        let j1 = type_overwrites(b.journal.skip(n));
        lemma_part(
            m,
            b.maps.types,
            type_overwrites(a.journal.take(n)),
            j0,
            j1,
            k,
            v,
            w.type_info as int,
        );
        assert(b.back_to(w) =~= a.back_to(w));
    }
}

/// A change of one key, journaled where it overwrites, is remembered.
proof fn lemma_remember_id(a: Rooted, b: Rooted, k: i32, v: TypeInfo, o: Overwrite)
    requires
        a.wf(),
        b.maps == (Maps { ids: a.maps.ids.put(k, v), ..a.maps }),
        a.maps.ids.has(k) ==> b.journal == a.journal.push(o) && (o matches Overwrite::TypeInfoById(
            n,
            p,
        ) && n.0 == k && a.maps.ids.get(k) == Some(p)),
        !a.maps.ids.has(k) ==> b.journal == a.journal,
    ensures
        b.wf(),
        b.remembers(a),
{
    let m = a.maps.ids;
    lemma_overwrites_push(a.journal, o);
    match m.get(k) {
        Some(p) => {
            lemma_covers_put(m, id_overwrites(a.journal), k, v, m.has(k), p);
        },
        None => {
            lemma_covers_put(m, id_overwrites(a.journal), k, v, false, v);
        },
    }
    assert(b.wf());
    assert forall|w: EnvWatermark| #[trigger] a.reaches(w) implies b.reaches(w) && b.back_to(w)
        == a.back_to(w) by {
        let n = w.journal as int;
        lemma_journal_push(a.journal, o, n);
        lemma_overwrites_push(a.journal.skip(n), o);
        lemma_overwrites_suffix(a.journal, a.maps, n);
        let j0 = id_overwrites(a.journal.skip(n));
        let j1 = id_overwrites(b.journal.skip(n));
        lemma_part(
            m,
            b.maps.ids,
            id_overwrites(a.journal.take(n)),
            j0,
            j1,
            k,
            v,
            w.type_info_by_id as int,
        );
        assert(b.back_to(w) =~= a.back_to(w));
    }
}

/// A change of one key, journaled where it overwrites, is remembered.
proof fn lemma_remember_definition(a: Rooted, b: Rooted, k: Seq<char>, v: DefinitionLocation, o: Overwrite)
    requires
        a.wf(),
        b.maps == (Maps { definitions: a.maps.definitions.put(k, v), ..a.maps }),
        a.maps.definitions.has(k) ==> b.journal == a.journal.push(o) && (o matches Overwrite::Definition(
            n,
            p,
        ) && n@ == k && a.maps.definitions.get(k) == Some(p)),
        !a.maps.definitions.has(k) ==> b.journal == a.journal,
    ensures
        b.wf(),
        b.remembers(a),
{
    let m = a.maps.definitions;
    lemma_overwrites_push(a.journal, o);
    match m.get(k) {
        Some(p) => {
            lemma_covers_put(m, definition_overwrites(a.journal), k, v, m.has(k), p);
        },
        None => {
            lemma_covers_put(m, definition_overwrites(a.journal), k, v, false, v);
        },
    }
    assert(b.wf());
    assert forall|w: EnvWatermark| #[trigger] a.reaches(w) implies b.reaches(w) && b.back_to(w)
        == a.back_to(w) by {
        let n = w.journal as int;
        lemma_journal_push(a.journal, o, n);
        lemma_overwrites_push(a.journal.skip(n), o);
        lemma_overwrites_suffix(a.journal, a.maps, n);
        let j0 = definition_overwrites(a.journal.skip(n));
        let j1 = definition_overwrites(b.journal.skip(n));
        lemma_part(
            m,
            b.maps.definitions,
            definition_overwrites(a.journal.take(n)),
            j0,
            j1,
            k,
            v,
            w.definitions as int,
        );
        assert(b.back_to(w) =~= a.back_to(w));
    }
}

/// A change of one key, journaled where it overwrites, is remembered.
proof fn lemma_remember_doc(a: Rooted, b: Rooted, k: Seq<char>, v: String, o: Overwrite)
    requires
        a.wf(),
        b.maps == (Maps { docs: a.maps.docs.put(k, v), ..a.maps }),
        a.maps.docs.has(k) ==> b.journal == a.journal.push(o) && (o matches Overwrite::Doc(
            n,
            p,
        ) && n@ == k && a.maps.docs.get(k) == Some(p)),
        !a.maps.docs.has(k) ==> b.journal == a.journal,
    ensures
        b.wf(),
        b.remembers(a),
{
    let m = a.maps.docs;
    lemma_overwrites_push(a.journal, o);
    match m.get(k) {
        Some(p) => {
            lemma_covers_put(m, doc_overwrites(a.journal), k, v, m.has(k), p);
        },
        None => {
            lemma_covers_put(m, doc_overwrites(a.journal), k, v, false, v);
        },
    }
    assert(b.wf());
    assert forall|w: EnvWatermark| #[trigger] a.reaches(w) implies b.reaches(w) && b.back_to(w)
        == a.back_to(w) by {
        let n = w.journal as int;
        lemma_journal_push(a.journal, o, n);
        lemma_overwrites_push(a.journal.skip(n), o);
        lemma_overwrites_suffix(a.journal, a.maps, n);
        let j0 = doc_overwrites(a.journal.skip(n));
        let j1 = doc_overwrites(b.journal.skip(n));
        lemma_part(
            m,
            b.maps.docs,
            doc_overwrites(a.journal.take(n)),
            j0,
            j1,
            k,
            v,
            w.docs as int,
        );
        assert(b.back_to(w) =~= a.back_to(w));
    }
}

proof fn lemma_remembers_trans(a: Rooted, b: Rooted, c: Rooted)
    requires
        b.remembers(a),
        c.remembers(b),
    ensures
        c.remembers(a),
{
    assert forall|w: EnvWatermark| #[trigger] a.reaches(w) implies c.reaches(w) && c.back_to(w)
        == a.back_to(w) by {
        assert(b.reaches(w));
    }
}

/// The log of a frame with one more record, from any frame's mark.
proof fn lemma_frame_record(e: &TypeEnv, u: FrameUndo, mark: int)
    requires
        0 <= mark <= e.frame_undo@.len(),
    ensures
        e.frame_undo@.push(u).skip(mark) == e.frame_undo@.skip(mark).push(u),
        binding_undos(e.frame_undo@.push(u).skip(mark)) == (match u {
            FrameUndo::Binding(n, p) => binding_undos(e.frame_undo@.skip(mark)).push((n@, p)),
            _ => binding_undos(e.frame_undo@.skip(mark)),
        }),
        type_undos(e.frame_undo@.push(u).skip(mark)) == (match u {
            FrameUndo::TypeInfo(n, p) => type_undos(e.frame_undo@.skip(mark)).push((n@, p)),
            _ => type_undos(e.frame_undo@.skip(mark)),
        }),
        definition_undos(e.frame_undo@.push(u).skip(mark)) == (match u {
            FrameUndo::Definition(n, p) => definition_undos(e.frame_undo@.skip(mark)).push((n@, p)),
            _ => definition_undos(e.frame_undo@.skip(mark)),
        }),
        doc_undos(e.frame_undo@.push(u).skip(mark)) == (match u {
            FrameUndo::Doc(n, p) => doc_undos(e.frame_undo@.skip(mark)).push((n@, p)),
            _ => doc_undos(e.frame_undo@.skip(mark)),
        }),
{
    lemma_skip_push(e.frame_undo@, u, mark);
    lemma_undos_push(e.frame_undo@.skip(mark), u);
}

/// A definition in an open scope.
proof fn lemma_define_in_scope(a: &TypeEnv, b: &TypeEnv, k: Seq<char>, v: Scheme, idx: usize)
    requires
        a.wf(),
        a.scope_marks@.len() > 0,
        b.bindings.wf(),
        b.bindings@ == a.bindings@.put(k, v),
        match position(a.bindings@.keys, k) {
            Some(j) => idx == j,
            None => idx == a.bindings@.keys.len(),
        },
        b.scope_undo@ == a.scope_undo@.push((idx, a.bindings@.get(k))),
        b.scope_marks == a.scope_marks,
        b.type_info == a.type_info,
        b.type_info_by_id == a.type_info_by_id,
        b.definitions == a.definitions,
        b.docs == a.docs,
        b.journal == a.journal,
        b.frame_undo == a.frame_undo,
        b.frame_marks == a.frame_marks,
    ensures
        b.wf(),
        b.keeps_promises(a),
{
    let e = (idx, a.bindings@.get(k));
    assert forall|m: int| 0 <= m <= a.scope_undo@.len() implies #[trigger] b.out_of_scopes(m)
        == a.out_of_scopes(m) by {
        lemma_skip_push(a.scope_undo@, e, m);
        lemma_logged_put_at(a.bindings@, a.scope_undo@.skip(m), k, v, idx);
    }
    lemma_logged_put_at(a.bindings@, a.scope_undo@, k, v, idx);
    assert(b.out_of_scopes(0) == a.out_of_scopes(0));
    assert(b.rooted().maps =~= a.rooted().maps);
    lemma_same_root(a.rooted(), b.rooted());
    assert forall|i: int| 0 <= i < a.scope_marks@.len() implies b.out_of_scopes(
        #[trigger] a.scope_marks@[i] as int,
    ) == a.out_of_scopes(a.scope_marks@[i] as int) by {}
    assert forall|i: int| 0 <= i < a.frame_marks@.len() implies same_names_out(
        b,
        a,
        #[trigger] a.frame_marks@[i],
    ) by {
        assert(b.out_of_scopes(a.frame_marks@[i].1 as int) == a.out_of_scopes(
            a.frame_marks@[i].1 as int,
        ));
    }
}

/// A definition in a module frame, outside any scope.
proof fn lemma_define_in_frame(a: &TypeEnv, b: &TypeEnv, k: Seq<char>, v: Scheme, u: FrameUndo)
    requires
        a.wf(),
        a.scope_marks@.len() == 0,
        a.frame_marks@.len() > 0,
        b.bindings.wf(),
        b.bindings@ == a.bindings@.put(k, v),
        u matches FrameUndo::Binding(n, p) && n@ == k && p == a.bindings@.get(k),
        b.frame_undo@ == a.frame_undo@.push(u),
        b.scope_undo == a.scope_undo,
        b.scope_marks == a.scope_marks,
        b.type_info == a.type_info,
        b.type_info_by_id == a.type_info_by_id,
        b.definitions == a.definitions,
        b.docs == a.docs,
        b.journal == a.journal,
        b.frame_marks == a.frame_marks,
    ensures
        b.wf(),
        b.keeps_promises(a),
{
    assert(a.scope_undo@.len() == 0);
    assert forall|m: int| 0 <= m <= a.frame_undo@.len() implies #[trigger] frame_same(a, b, m) by {
        lemma_frame_record(a, u, m);
        assert(a.scope_undo@.skip(0) =~= Seq::empty());
        lemma_logged_put(a.bindings@, binding_undos(a.frame_undo@.skip(m)), k, v);
    }
    assert(frame_same(a, b, 0));
    assert(a.frame_undo@.skip(0) =~= a.frame_undo@);
    assert(b.frame_undo@.skip(0) =~= b.frame_undo@);
    lemma_logged_put(a.bindings@, binding_undos(a.frame_undo@), k, v);
    lemma_undos_push(a.frame_undo@, u);
    assert(b.replays());
    assert(b.rooted().maps =~= a.rooted().maps);
    lemma_same_root(a.rooted(), b.rooted());
    assert forall|i: int| 0 <= i < a.frame_marks@.len() implies same_names_out(
        b,
        a,
        #[trigger] a.frame_marks@[i],
    ) by {
        assert(frame_same(a, b, a.frame_marks@[i].0 as int));
        assert(a.frame_marks@[i].1 == 0);
    }
}

/// Closing a frame with this mark, and no scopes, gives the same.
spec fn frame_same(a: &TypeEnv, b: &TypeEnv, m: int) -> bool {
    b.out_of_frames(m, 0) == a.out_of_frames(m, 0)
}

/// A definition outside any scope or frame.
proof fn lemma_define_at_root(a: &TypeEnv, b: &TypeEnv, k: Seq<char>, v: Scheme, o: Overwrite)
    requires
        a.wf(),
        a.scope_marks@.len() == 0,
        a.frame_marks@.len() == 0,
        b.bindings.wf(),
        b.bindings@ == a.bindings@.put(k, v),
        a.bindings@.has(k) ==> b.journal@ == a.journal@.push(o) && (o matches Overwrite::Binding(
            n,
            p,
        ) && n@ == k && a.bindings@.get(k) == Some(p)),
        !a.bindings@.has(k) ==> b.journal == a.journal,
        b.scope_undo == a.scope_undo,
        b.scope_marks == a.scope_marks,
        b.type_info == a.type_info,
        b.type_info_by_id == a.type_info_by_id,
        b.definitions == a.definitions,
        b.docs == a.docs,
        b.frame_undo == a.frame_undo,
        b.frame_marks == a.frame_marks,
    ensures
        b.wf(),
        b.keeps_promises(a),
{
    assert(a.scope_undo@.skip(0) =~= Seq::empty());
    assert(a.frame_undo@.skip(0) =~= Seq::empty());
    lemma_remember_binding(a.rooted(), b.rooted(), k, v, o);
}

impl TypeEnv {
    /// Bind a name, in the innermost scope where one is open.
    pub fn define(&mut self, name: &str, scheme: Scheme)
        requires
            old(self).wf(),
        ensures
            final(self).wf(),
            final(self).now() == (Maps {
                bindings: old(self).now().bindings.put(name@, scheme),
                ..old(self).now()
            }),
            final(self).keeps_promises(old(self)),
            final(self).next_type_id == old(self).next_type_id,
    {
        let ghost e0 = *self;
        let (idx, prev) = match self.bindings.index_of(name) {
            Some(i) => (i, Some(*self.bindings.val_at(i))),
            None => (self.bindings.len(), None),
        };
        proof {
            assert(prev == e0.bindings@.get(name@));
        }
        self.bindings.put(name, scheme);
        if self.scope_marks.len() > 0 {
            self.scope_undo.push((idx, prev));
            proof {
                lemma_define_in_scope(&e0, self, name@, scheme, idx);
            }
        } else if self.frame_marks.len() > 0 {
            let u = FrameUndo::Binding(name.to_owned(), prev);
            self.frame_undo.push(u);
            proof {
                lemma_define_in_frame(&e0, self, name@, scheme, u);
            }
        } else if let Some(old_scheme) = prev {
            let o = Overwrite::Binding(name.to_owned(), old_scheme);
            self.journal.push(o);
            proof {
                lemma_define_at_root(&e0, self, name@, scheme, o);
            }
        } else {
            proof {
                lemma_define_at_root(&e0, self, name@, scheme, arbitrary());
            }
        }
    }

    pub fn define_at(&mut self, name: &str, scheme: Scheme, loc: DefinitionLocation)
        requires
            old(self).wf(),
        ensures
            final(self).wf(),
            final(self).now() == (Maps {
                bindings: old(self).now().bindings.put(
                    name@,
                    Scheme { def: Some(loc), ..scheme },
                ),
                ..old(self).now()
            }),
            final(self).keeps_promises(old(self)),
            final(self).next_type_id == old(self).next_type_id,
    {
        self.define(name, Scheme { def: Some(loc), ..scheme });
    }

    pub fn lookup(&self, name: &str) -> (r: Option<&Scheme>)
        requires
            self.wf(),
        ensures
            match r {
                Some(s) => self.now().bindings.get(name@) == Some(*s),
                None => self.now().bindings.get(name@) is None,
            },
    {
        self.bindings.get(name)
    }
}

/// A change of one key in a module frame.
proof fn lemma_type_in_frame(a: &TypeEnv, b: &TypeEnv, k: Seq<char>, v: TypeInfo, u: FrameUndo)
    requires
        a.wf(),
        a.frame_marks@.len() > 0,
        b.type_info.wf(),
        b.type_info@ == a.type_info@.put(k, v),
        u matches FrameUndo::TypeInfo(n, p) && n@ == k && p == a.type_info@.get(k),
        b.frame_undo@ == a.frame_undo@.push(u),
        b.scope_undo == a.scope_undo,
        b.scope_marks == a.scope_marks,
        b.bindings == a.bindings,
        b.type_info_by_id == a.type_info_by_id,
        b.definitions == a.definitions,
        b.docs == a.docs,
        b.journal == a.journal,
        b.frame_marks == a.frame_marks,
    ensures
        b.wf(),
        b.keeps_promises(a),
        b.rooted() == a.rooted(),
{
    assert forall|m: int, z: int|
        0 <= m <= a.frame_undo@.len() && 0 <= z <= a.scope_undo@.len() implies #[trigger]
        b.out_of_frames(m, z) == a.out_of_frames(m, z) by {
        lemma_frame_record(a, u, m);
        lemma_logged_put(a.type_info@, type_undos(a.frame_undo@.skip(m)), k, v);
    }
    assert(a.frame_undo@.skip(0) =~= a.frame_undo@);
    lemma_logged_put(a.type_info@, type_undos(a.frame_undo@), k, v);
    lemma_undos_push(a.frame_undo@, u);
    assert(b.replays());
    assert(b.out_of_frames(0, 0) == a.out_of_frames(0, 0));
    lemma_same_root(a.rooted(), b.rooted());
    assert forall|i: int| 0 <= i < a.frame_marks@.len() implies same_names_out(
        b,
        a,
        #[trigger] a.frame_marks@[i],
    ) by {
        assert(b.out_of_frames(a.frame_marks@[i].0 as int, a.frame_marks@[i].1 as int)
            == a.out_of_frames(a.frame_marks@[i].0 as int, a.frame_marks@[i].1 as int));
    }
    assert forall|i: int|
        0 <= i < b.frame_marks@.len() && (#[trigger] b.frame_marks@[i]).1 > 0 implies binding_undos(
        b.frame_undo@.skip(b.frame_marks@[i].0 as int),
    ).len() == 0 by {
        lemma_frame_record(a, u, a.frame_marks@[i].0 as int);
    }
}

/// A change of one key outside any module frame.
proof fn lemma_type_at_root(a: &TypeEnv, b: &TypeEnv, k: Seq<char>, v: TypeInfo, o: Overwrite)
    requires
        a.wf(),
        a.frame_marks@.len() == 0,
        b.type_info.wf(),
        b.type_info@ == a.type_info@.put(k, v),
        a.type_info@.has(k) ==> b.journal@ == a.journal@.push(o) && (o matches Overwrite::TypeInfo(n, p)
            && n@ == k && a.type_info@.get(k) == Some(p)),
        !a.type_info@.has(k) ==> b.journal == a.journal,
        b.scope_undo == a.scope_undo,
        b.scope_marks == a.scope_marks,
        b.bindings == a.bindings,
        b.type_info_by_id == a.type_info_by_id,
        b.definitions == a.definitions,
        b.docs == a.docs,
        b.frame_undo == a.frame_undo,
        b.frame_marks == a.frame_marks,
    ensures
        b.wf(),
        b.keeps_promises(a),
{
    assert(a.frame_undo@.skip(0) =~= Seq::empty());
    assert(b.rooted().maps =~= (Maps { types: a.rooted().maps.types.put(k, v), ..a.rooted().maps }));
    lemma_remember_type(a.rooted(), b.rooted(), k, v, o);
}

/// A change of one key in a module frame.
proof fn lemma_definition_in_frame(a: &TypeEnv, b: &TypeEnv, k: Seq<char>, v: DefinitionLocation, u: FrameUndo)
    requires
        a.wf(),
        a.frame_marks@.len() > 0,
        b.definitions.wf(),
        b.definitions@ == a.definitions@.put(k, v),
        u matches FrameUndo::Definition(n, p) && n@ == k && p == a.definitions@.get(k),
        b.frame_undo@ == a.frame_undo@.push(u),
        b.scope_undo == a.scope_undo,
        b.scope_marks == a.scope_marks,
        b.bindings == a.bindings,
        b.type_info == a.type_info,
        b.type_info_by_id == a.type_info_by_id,
        b.docs == a.docs,
        b.journal == a.journal,
        b.frame_marks == a.frame_marks,
    ensures
        b.wf(),
        b.keeps_promises(a),
        b.rooted() == a.rooted(),
{
    assert forall|m: int, z: int|
        0 <= m <= a.frame_undo@.len() && 0 <= z <= a.scope_undo@.len() implies #[trigger]
        b.out_of_frames(m, z) == a.out_of_frames(m, z) by {
        lemma_frame_record(a, u, m);
        lemma_logged_put(a.definitions@, definition_undos(a.frame_undo@.skip(m)), k, v);
    }
    assert(a.frame_undo@.skip(0) =~= a.frame_undo@);
    lemma_logged_put(a.definitions@, definition_undos(a.frame_undo@), k, v);
    lemma_undos_push(a.frame_undo@, u);
    assert(b.replays());
    assert(b.out_of_frames(0, 0) == a.out_of_frames(0, 0));
    lemma_same_root(a.rooted(), b.rooted());
    assert forall|i: int| 0 <= i < a.frame_marks@.len() implies same_names_out(
        b,
        a,
        #[trigger] a.frame_marks@[i],
    ) by {
        assert(b.out_of_frames(a.frame_marks@[i].0 as int, a.frame_marks@[i].1 as int)
            == a.out_of_frames(a.frame_marks@[i].0 as int, a.frame_marks@[i].1 as int));
    }
    assert forall|i: int|
        0 <= i < b.frame_marks@.len() && (#[trigger] b.frame_marks@[i]).1 > 0 implies binding_undos(
        b.frame_undo@.skip(b.frame_marks@[i].0 as int),
    ).len() == 0 by {
        lemma_frame_record(a, u, a.frame_marks@[i].0 as int);
    }
}

/// A change of one key outside any module frame.
proof fn lemma_definition_at_root(a: &TypeEnv, b: &TypeEnv, k: Seq<char>, v: DefinitionLocation, o: Overwrite)
    requires
        a.wf(),
        a.frame_marks@.len() == 0,
        b.definitions.wf(),
        b.definitions@ == a.definitions@.put(k, v),
        a.definitions@.has(k) ==> b.journal@ == a.journal@.push(o) && (o matches Overwrite::Definition(n, p)
            && n@ == k && a.definitions@.get(k) == Some(p)),
        !a.definitions@.has(k) ==> b.journal == a.journal,
        b.scope_undo == a.scope_undo,
        b.scope_marks == a.scope_marks,
        b.bindings == a.bindings,
        b.type_info == a.type_info,
        b.type_info_by_id == a.type_info_by_id,
        b.docs == a.docs,
        b.frame_undo == a.frame_undo,
        b.frame_marks == a.frame_marks,
    ensures
        b.wf(),
        b.keeps_promises(a),
{
    assert(a.frame_undo@.skip(0) =~= Seq::empty());
    assert(b.rooted().maps =~= (Maps { definitions: a.rooted().maps.definitions.put(k, v), ..a.rooted().maps }));
    lemma_remember_definition(a.rooted(), b.rooted(), k, v, o);
}

/// A change of one key in a module frame.
proof fn lemma_doc_in_frame(a: &TypeEnv, b: &TypeEnv, k: Seq<char>, v: String, u: FrameUndo)
    requires
        a.wf(),
        a.frame_marks@.len() > 0,
        b.docs.wf(),
        b.docs@ == a.docs@.put(k, v),
        u matches FrameUndo::Doc(n, p) && n@ == k && p == a.docs@.get(k),
        b.frame_undo@ == a.frame_undo@.push(u),
        b.scope_undo == a.scope_undo,
        b.scope_marks == a.scope_marks,
        b.bindings == a.bindings,
        b.type_info == a.type_info,
        b.type_info_by_id == a.type_info_by_id,
        b.definitions == a.definitions,
        b.journal == a.journal,
        b.frame_marks == a.frame_marks,
    ensures
        b.wf(),
        b.keeps_promises(a),
        b.rooted() == a.rooted(),
{
    assert forall|m: int, z: int|
        0 <= m <= a.frame_undo@.len() && 0 <= z <= a.scope_undo@.len() implies #[trigger]
        b.out_of_frames(m, z) == a.out_of_frames(m, z) by {
        lemma_frame_record(a, u, m);
        lemma_logged_put(a.docs@, doc_undos(a.frame_undo@.skip(m)), k, v);
    }
    assert(a.frame_undo@.skip(0) =~= a.frame_undo@);
    lemma_logged_put(a.docs@, doc_undos(a.frame_undo@), k, v);
    lemma_undos_push(a.frame_undo@, u);
    assert(b.replays());
    assert(b.out_of_frames(0, 0) == a.out_of_frames(0, 0));
    lemma_same_root(a.rooted(), b.rooted());
    assert forall|i: int| 0 <= i < a.frame_marks@.len() implies same_names_out(
        b,
        a,
        #[trigger] a.frame_marks@[i],
    ) by {
        assert(b.out_of_frames(a.frame_marks@[i].0 as int, a.frame_marks@[i].1 as int)
            == a.out_of_frames(a.frame_marks@[i].0 as int, a.frame_marks@[i].1 as int));
    }
    assert forall|i: int|
        0 <= i < b.frame_marks@.len() && (#[trigger] b.frame_marks@[i]).1 > 0 implies binding_undos(
        b.frame_undo@.skip(b.frame_marks@[i].0 as int),
    ).len() == 0 by {
        lemma_frame_record(a, u, a.frame_marks@[i].0 as int);
    }
}

/// A change of one key outside any module frame.
proof fn lemma_doc_at_root(a: &TypeEnv, b: &TypeEnv, k: Seq<char>, v: String, o: Overwrite)
    requires
        a.wf(),
        a.frame_marks@.len() == 0,
        b.docs.wf(),
        b.docs@ == a.docs@.put(k, v),
        a.docs@.has(k) ==> b.journal@ == a.journal@.push(o) && (o matches Overwrite::Doc(n, p)
            && n@ == k && a.docs@.get(k) == Some(p)),
        !a.docs@.has(k) ==> b.journal == a.journal,
        b.scope_undo == a.scope_undo,
        b.scope_marks == a.scope_marks,
        b.bindings == a.bindings,
        b.type_info == a.type_info,
        b.type_info_by_id == a.type_info_by_id,
        b.definitions == a.definitions,
        b.frame_undo == a.frame_undo,
        b.frame_marks == a.frame_marks,
    ensures
        b.wf(),
        b.keeps_promises(a),
{
    assert(a.frame_undo@.skip(0) =~= Seq::empty());
    assert(b.rooted().maps =~= (Maps { docs: a.rooted().maps.docs.put(k, v), ..a.rooted().maps }));
    lemma_remember_doc(a.rooted(), b.rooted(), k, v, o);
}

/// A change of one id, in a frame or not.
proof fn lemma_id_changed(a: &TypeEnv, b: &TypeEnv, k: i32, v: TypeInfo, o: Overwrite)
    requires
        a.wf(),
        b.type_info_by_id.wf(),
        b.type_info_by_id@ == a.type_info_by_id@.put(k, v),
        a.type_info_by_id@.has(k) ==> b.journal@ == a.journal@.push(o) && (
        o matches Overwrite::TypeInfoById(n, p) && n.0 == k && a.type_info_by_id@.get(k) == Some(
            p,
        )),
        !a.type_info_by_id@.has(k) ==> b.journal == a.journal,
        b.scope_undo == a.scope_undo,
        b.scope_marks == a.scope_marks,
        b.bindings == a.bindings,
        b.type_info == a.type_info,
        b.definitions == a.definitions,
        b.docs == a.docs,
        b.frame_undo == a.frame_undo,
        b.frame_marks == a.frame_marks,
    ensures
        b.wf(),
        b.keeps_promises(a),
{
    assert(b.rooted().maps =~= (Maps { ids: a.rooted().maps.ids.put(k, v), ..a.rooted().maps }));
    lemma_remember_id(a.rooted(), b.rooted(), k, v, o);
}

proof fn lemma_keeps_trans(a: &TypeEnv, b: &TypeEnv, c: &TypeEnv)
    requires
        b.keeps_promises(a),
        c.keeps_promises(b),
    ensures
        c.keeps_promises(a),
{
    lemma_remembers_trans(a.rooted(), b.rooted(), c.rooted());
    assert forall|i: int| 0 <= i < a.scope_marks@.len() implies c.out_of_scopes(
        #[trigger] a.scope_marks@[i] as int,
    ) == a.out_of_scopes(a.scope_marks@[i] as int) by {
        assert(b.out_of_scopes(b.scope_marks@[i] as int) == a.out_of_scopes(
            a.scope_marks@[i] as int,
        ));
    }
    assert forall|i: int| 0 <= i < a.frame_marks@.len() implies same_names_out(
        c,
        a,
        #[trigger] a.frame_marks@[i],
    ) by {
        assert(same_names_out(b, a, a.frame_marks@[i]));
        assert(same_names_out(c, b, b.frame_marks@[i]));
    }
}

impl TypeEnv {
    /// Keep the documentation of a name.
    pub fn store_doc(&mut self, name: &str, doc: String)
        requires
            old(self).wf(),
        ensures
            final(self).wf(),
            final(self).now() == (Maps {
                docs: old(self).now().docs.put(name@, doc),
                ..old(self).now()
            }),
            final(self).keeps_promises(old(self)),
            final(self).next_type_id == old(self).next_type_id,
    {
        let ghost e0 = *self;
        let prev = match self.docs.get(name) {
            Some(d) => Some(d.clone()),
            None => None,
        };
        self.docs.put(name, doc);
        if self.frame_marks.len() > 0 {
            let u = FrameUndo::Doc(name.to_owned(), prev);
            self.frame_undo.push(u);
            proof {
                lemma_doc_in_frame(&e0, self, name@, doc, u);
            }
        } else if let Some(old_doc) = prev {
            let o = Overwrite::Doc(name.to_owned(), old_doc);
            self.journal.push(o);
            proof {
                lemma_doc_at_root(&e0, self, name@, doc, o);
            }
        } else {
            proof {
                lemma_doc_at_root(&e0, self, name@, doc, arbitrary());
            }
        }
    }

    pub fn store_doc_opt(&mut self, name: &str, doc: &Option<String>)
        requires
            old(self).wf(),
        ensures
            final(self).wf(),
            match *doc {
                Some(d) => final(self).now() == (Maps {
                    docs: old(self).now().docs.put(name@, d),
                    ..old(self).now()
                }) && final(self).keeps_promises(old(self)),
                None => *final(self) == *old(self),
            },
            final(self).next_type_id == old(self).next_type_id,
    {
        if let Some(d) = doc {
            self.store_doc(name, d.clone());
        }
    }

    /// Keep where a name is defined.
    pub fn store_definition(&mut self, name: &str, loc: DefinitionLocation)
        requires
            old(self).wf(),
        ensures
            final(self).wf(),
            final(self).now() == (Maps {
                definitions: old(self).now().definitions.put(name@, loc),
                ..old(self).now()
            }),
            final(self).keeps_promises(old(self)),
            final(self).next_type_id == old(self).next_type_id,
    {
        let ghost e0 = *self;
        let prev = match self.definitions.get(name) {
            Some(d) => Some(*d),
            None => None,
        };
        self.definitions.put(name, loc);
        if self.frame_marks.len() > 0 {
            let u = FrameUndo::Definition(name.to_owned(), prev);
            self.frame_undo.push(u);
            proof {
                lemma_definition_in_frame(&e0, self, name@, loc, u);
            }
        } else if let Some(old_loc) = prev {
            let o = Overwrite::Definition(name.to_owned(), old_loc);
            self.journal.push(o);
            proof {
                lemma_definition_at_root(&e0, self, name@, loc, o);
            }
        } else {
            proof {
                lemma_definition_at_root(&e0, self, name@, loc, arbitrary());
            }
        }
    }

    /// The by-name half of [`store_type_info`](Self::store_type_info).
    fn store_type_name(&mut self, name: &str, ti: TypeInfo)
        requires
            old(self).wf(),
        ensures
            final(self).wf(),
            final(self).now() == (Maps {
                types: old(self).now().types.put(name@, ti),
                ..old(self).now()
            }),
            final(self).keeps_promises(old(self)),
            final(self).next_type_id == old(self).next_type_id,
    {
        let ghost e0 = *self;
        let prev = match self.type_info.get(name) {
            Some(t) => Some(*t),
            None => None,
        };
        self.type_info.put(name, ti);
        if self.frame_marks.len() > 0 {
            let u = FrameUndo::TypeInfo(name.to_owned(), prev);
            self.frame_undo.push(u);
            proof {
                lemma_type_in_frame(&e0, self, name@, ti, u);
            }
        } else if let Some(old_ti) = prev {
            let o = Overwrite::TypeInfo(name.to_owned(), old_ti);
            self.journal.push(o);
            proof {
                lemma_type_at_root(&e0, self, name@, ti, o);
            }
        } else {
            proof {
                lemma_type_at_root(&e0, self, name@, ti, arbitrary());
            }
        }
    }

    /// The by-id half of [`store_type_info`](Self::store_type_info).
    fn store_type_id(&mut self, id: TypeId, ti: TypeInfo)
        requires
            old(self).wf(),
        ensures
            final(self).wf(),
            final(self).now() == (Maps {
                ids: old(self).now().ids.put(id.0, ti),
                ..old(self).now()
            }),
            final(self).keeps_promises(old(self)),
            final(self).next_type_id == old(self).next_type_id,
    {
        let ghost e0 = *self;
        let prev = match self.type_info_by_id.get(id.0) {
            Some(t) => Some(*t),
            None => None,
        };
        self.type_info_by_id.put(id.0, ti);
        if let Some(old_ti) = prev {
            let o = Overwrite::TypeInfoById(id, old_ti);
            self.journal.push(o);
            proof {
                lemma_id_changed(&e0, self, id.0, ti, o);
            }
        } else {
            proof {
                lemma_id_changed(&e0, self, id.0, ti, arbitrary());
            }
        }
    }

    /// Bind a type name, and keep the by-id registry in step. The name goes
    /// with the module frame it is bound in; the id stays.
    pub fn store_type_info(&mut self, name: &str, ti: TypeInfo)
        requires
            old(self).wf(),
        ensures
            final(self).wf(),
            final(self).now() == (Maps {
                types: old(self).now().types.put(name@, ti),
                ids: old(self).now().ids.put(ti.id.0, ti),
                ..old(self).now()
            }),
            final(self).keeps_promises(old(self)),
            final(self).next_type_id == old(self).next_type_id,
    {
        let ghost e0 = *self;
        self.store_type_name(name, ti);
        let ghost e1 = *self;
        self.store_type_id(ti.id, ti);
        proof {
            lemma_keeps_trans(&e0, &e1, self);
        }
    }

    pub fn lookup_doc(&self, name: &str) -> (r: Option<String>)
        requires
            self.wf(),
        ensures
            r == self.now().docs.get(name@),
    {
        match self.docs.get(name) {
            Some(d) => Some(d.clone()),
            None => None,
        }
    }

    /// Where a name is defined: as its binding says, else as was stored.
    pub fn lookup_definition(&self, name: &str) -> (r: Option<DefinitionLocation>)
        requires
            self.wf(),
        ensures
            r == (match self.now().bindings.get(name@) {
                Some(Scheme { quantified, ty, kind, def: Some(d) }) => Some(d),
                _ => self.now().definitions.get(name@),
            }),
    {
        if let Some(scheme) = self.bindings.get(name) {
            if let Some(def) = scheme.def {
                return Some(def);
            }
        }
        match self.definitions.get(name) {
            Some(d) => Some(*d),
            None => None,
        }
    }

    /// Register a type's head with an `Unresolved` body under a fresh id, so
    /// that every head of a module is visible before any body is hydrated.
    pub fn register_type_head(
        &mut self,
        name: &str,
        name_id: StrId,
        module: ArenaSlice<StrSlices>,
        type_params: ArenaSlice<TypeParams>,
    ) -> (r: TypeId)
        requires
            old(self).wf(),
            old(self).next_type_id.0 < i32::MAX,
        ensures
            final(self).wf(),
            r == old(self).next_type_id,
            final(self).next_type_id.0 == old(self).next_type_id.0 + 1,
            final(self).now() == ({
                let ti = TypeInfo {
                    id: r,
                    name: name_id,
                    module,
                    type_params,
                    body: TypeBody::Unresolved,
                };
                Maps {
                    types: old(self).now().types.put(name@, ti),
                    ids: old(self).now().ids.put(r.0, ti),
                    ..old(self).now()
                }
            }),
            final(self).keeps_promises(old(self)),
    {
        let id = self.next_type_id;
        self.next_type_id = TypeId(id.0 + 1);
        self.store_type_info(
            name,
            TypeInfo { id, name: name_id, module, type_params, body: TypeBody::Unresolved },
        );
        id
    }

    pub fn lookup_type_info(&self, name: &str) -> (r: Option<TypeInfo>)
        requires
            self.wf(),
        ensures
            r == self.now().types.get(name@),
    {
        match self.type_info.get(name) {
            Some(t) => Some(*t),
            None => None,
        }
    }

    /// A type's record by its nominal id, the one way that no same-named type
    /// can answer for.
    pub fn lookup_type_info_by_id(&self, id: TypeId) -> (r: Option<TypeInfo>)
        requires
            self.wf(),
        ensures
            r == self.now().ids.get(id.0),
    {
        match self.type_info_by_id.get(id.0) {
            Some(t) => Some(*t),
            None => None,
        }
    }
}

/// A type's record with another body, where it is that type's.
pub open spec fn with_body(ti: TypeInfo, id: TypeId, body: TypeBody) -> TypeInfo {
    if ti.id == id {
        TypeInfo { body, ..ti }
    } else {
        ti
    }
}

/// Every record of the type with another body.
pub open spec fn with_bodies(
    m: Entries<Seq<char>, TypeInfo>,
    id: TypeId,
    body: TypeBody,
) -> Entries<Seq<char>, TypeInfo> {
    Entries { keys: m.keys, vals: m.vals.map_values(|ti: TypeInfo| with_body(ti, id, body)) }
}

impl TypeEnv {
    /// Attach a hydrated body to a head that was registered. Goes by id: the
    /// names are shadowable, so going by name could attach the body to another
    /// type.
    pub fn set_type_body(&mut self, id: TypeId, body: TypeBody)
        requires
            old(self).wf(),
            old(self).now().ids.has(id.0),
        ensures
            final(self).wf(),
            final(self).now() == (Maps {
                ids: old(self).now().ids.put(
                    id.0,
                    TypeInfo { body, ..old(self).now().ids.get(id.0)->0 },
                ),
                types: with_bodies(old(self).now().types, id, body),
                ..old(self).now()
            }),
            final(self).keeps_promises(old(self)),
            final(self).next_type_id == old(self).next_type_id,
    {
        let ghost e0 = *self;
        let head = match self.type_info_by_id.get(id.0) {
            Some(t) => *t,
            None => {
                return ;
            },
        };
        self.store_type_id(id, TypeInfo { body, ..head });
        let n: usize = self.type_info.len();
        let ghost types = self.now().types;
        let mut i: usize = 0;
        while i < n
            invariant
                i <= n,
                n == types.len(),
                types == e0.now().types,
                types.wf(),
                self.wf(),
                self.keeps_promises(&e0),
                self.next_type_id == e0.next_type_id,
                self.now() == (Maps {
                    ids: e0.now().ids.put(
                        id.0,
                        TypeInfo { body, ..e0.now().ids.get(id.0)->0 },
                    ),
                    types: self.now().types,
                    ..e0.now()
                }),
                self.now().types.keys == types.keys,
                forall|k: int|
                    0 <= k < i ==> #[trigger] self.now().types.vals[k] == with_body(
                        types.vals[k],
                        id,
                        body,
                    ),
                forall|k: int|
                    i <= k < n ==> #[trigger] self.now().types.vals[k] == types.vals[k],
            decreases n - i,
        {
            let ti = *self.type_info.val_at(i);
            if ti.id == id {
                let ghost e1 = *self;
                let name = self.type_info.key_at(i).to_owned();
                self.store_type_name(name.as_str(), TypeInfo { body, ..ti });
                proof {
                    lemma_keeps_trans(&e0, &e1, self);
                    lemma_get(e1.now().types, name@, i as int);
                }
            }
            i += 1;
        }
        proof {
            assert(self.now().types =~= with_bodies(e0.now().types, id, body));
        }
    }

    /// How many scope records take a new key off.
    fn scope_insertions(&self) -> (r: usize)
        ensures
            r == insertions(self.scope_undo@),
    {
        let mut n: usize = 0;
        let mut i: usize = 0;
        proof {
            assert(self.scope_undo@.take(0) =~= Seq::empty());
        }
        while i < self.scope_undo.len()
            invariant
                i <= self.scope_undo@.len(),
                n <= i,
                n == insertions(self.scope_undo@.take(i as int)),
            decreases self.scope_undo@.len() - i,
        {
            proof {
                assert(self.scope_undo@.take(i + 1).drop_last() =~= self.scope_undo@.take(
                    i as int,
                ));
            }
            if self.scope_undo[i].1.is_none() {
                n += 1;
            }
            i += 1;
        }
        proof {
            assert(self.scope_undo@.take(i as int) =~= self.scope_undo@);
        }
        n
    }

    /// How many frame records take a new key off, for each of the by-name
    /// maps.
    fn frame_insertions(&self) -> (r: (usize, usize, usize, usize))
        ensures
            r.0 == insertions(binding_undos(self.frame_undo@)),
            r.1 == insertions(type_undos(self.frame_undo@)),
            r.2 == insertions(definition_undos(self.frame_undo@)),
            r.3 == insertions(doc_undos(self.frame_undo@)),
    {
        let mut b: usize = 0;
        let mut t: usize = 0;
        let mut d: usize = 0;
        let mut c: usize = 0;
        let mut i: usize = 0;
        let ghost log = self.frame_undo@;
        proof {
            assert(log.take(0) =~= Seq::empty());
        }
        while i < self.frame_undo.len()
            invariant
                i <= log.len(),
                log == self.frame_undo@,
                b <= i,
                t <= i,
                d <= i,
                c <= i,
                b == insertions(binding_undos(log.take(i as int))),
                t == insertions(type_undos(log.take(i as int))),
                d == insertions(definition_undos(log.take(i as int))),
                c == insertions(doc_undos(log.take(i as int))),
            decreases log.len() - i,
        {
            proof {
                let before = log.take(i as int);
                let u = log[i as int];
                assert(log.take(i + 1) =~= before.push(u));
                lemma_undos_push(before, u);
                assert(binding_undos(before.push(u)).drop_last() =~= binding_undos(before) || !(
                u is Binding));
                assert(type_undos(before.push(u)).drop_last() =~= type_undos(before) || !(
                u is TypeInfo));
                assert(definition_undos(before.push(u)).drop_last() =~= definition_undos(before)
                    || !(u is Definition));
                assert(doc_undos(before.push(u)).drop_last() =~= doc_undos(before) || !(u is Doc));
            }
            match &self.frame_undo[i] {
                FrameUndo::Binding(_, None) => {
                    b += 1;
                },
                FrameUndo::TypeInfo(_, None) => {
                    t += 1;
                },
                FrameUndo::Definition(_, None) => {
                    d += 1;
                },
                FrameUndo::Doc(_, None) => {
                    c += 1;
                },
                _ => {},
            }
            i += 1;
        }
        proof {
            assert(log.take(i as int) =~= log);
        }
        (b, t, d, c)
    }

    /// The sizes to roll back to: what is left when every scope and frame is
    /// closed.
    pub fn watermark(&self) -> (r: EnvWatermark)
        requires
            self.wf(),
        ensures
            self.rooted().reaches(r),
            self.rooted().back_to(r) == self.rooted().maps,
            r.root_scope == self.rooted().maps.bindings.len(),
            r.type_info == self.rooted().maps.types.len(),
            r.type_info_by_id == self.rooted().maps.ids.len(),
            r.definitions == self.rooted().maps.definitions.len(),
            r.docs == self.rooted().maps.docs.len(),
            r.journal == self.journal@.len(),
            r.next_type_id == self.next_type_id,
    {
        let s = self.scope_insertions();
        let (b, t, d, c) = self.frame_insertions();
        proof {
            assert(self.scope_undo@.skip(0) =~= self.scope_undo@);
            assert(self.frame_undo@.skip(0) =~= self.frame_undo@);
            lemma_undone_at(self.bindings@, self.scope_undo@);
            lemma_undone(self.out_of_scopes(0), binding_undos(self.frame_undo@));
            lemma_undone(self.type_info@, type_undos(self.frame_undo@));
            lemma_undone(self.definitions@, definition_undos(self.frame_undo@));
            lemma_undone(self.docs@, doc_undos(self.frame_undo@));
        }
        let r = EnvWatermark {
            root_scope: self.bindings.len() - s - b,
            type_info: self.type_info.len() - t,
            type_info_by_id: self.type_info_by_id.len(),
            definitions: self.definitions.len() - d,
            docs: self.docs.len() - c,
            journal: self.journal.len(),
            next_type_id: self.next_type_id,
        };
        proof {
            assert(self.journal@.skip(r.journal as int) =~= Seq::empty());
            assert(self.journal@.take(r.journal as int) =~= self.journal@);
            assert(self.rooted().back_to(r) =~= self.rooted().maps);
        }
        r
    }

    /// Close every scope and frame and roll the maps back to a watermark of
    /// the past.
    pub fn truncate_to(&mut self, w: &EnvWatermark)
        requires
            old(self).wf(),
            old(self).rooted().reaches(*w),
        ensures
            final(self).wf(),
            final(self).now() == old(self).rooted().back_to(*w),
            final(self).rooted().maps == final(self).now(),
            final(self).scope_marks@.len() == 0,
            final(self).frame_marks@.len() == 0,
            final(self).scope_undo@.len() == 0,
            final(self).frame_undo@.len() == 0,
            final(self).journal@ == old(self).journal@.take(w.journal as int),
            final(self).next_type_id == w.next_type_id,
    {
        let ghost root = self.rooted();
        proof {
            lemma_frame_close(self, 0, 0);
            assert(self.scope_undo@.skip(0) =~= self.scope_undo@);
            assert(self.frame_undo@.skip(0) =~= self.frame_undo@);
        }
        self.scope_marks.clear();
        self.unwind_scope_undo(0);
        self.frame_marks.clear();
        self.unwind_frame_undo(0);
        let ghost log = self.journal@;
        let ghost tail = log.skip(w.journal as int);
        proof {
            assert(self.now() =~= root.maps);
            assert(tail.take(tail.len() as int) =~= tail);
            assert(log.take(log.len() as int) =~= log);
            lemma_overwrites_suffix(log, root.maps, w.journal as int);
        }
        while self.journal.len() > w.journal
            invariant
                w.journal <= self.journal@.len() <= log.len(),
                log == old(self).journal@,
                tail == log.skip(w.journal as int),
                self.journal@ == log.take(self.journal@.len() as int),
                self.bindings.wf(),
                self.type_info.wf(),
                self.type_info_by_id.wf(),
                self.definitions.wf(),
                self.docs.wf(),
                covers(self.bindings@, binding_overwrites(tail.take(self.journal@.len() - w.journal))),
                self.bindings@.keys == root.maps.bindings.keys,
                put_back(self.bindings@, binding_overwrites(tail.take(self.journal@.len() - w.journal)))
                    == put_back(root.maps.bindings, binding_overwrites(tail)),
                covers(self.type_info@, type_overwrites(tail.take(self.journal@.len() - w.journal))),
                self.type_info@.keys == root.maps.types.keys,
                put_back(self.type_info@, type_overwrites(tail.take(self.journal@.len() - w.journal)))
                    == put_back(root.maps.types, type_overwrites(tail)),
                covers(self.type_info_by_id@, id_overwrites(tail.take(self.journal@.len() - w.journal))),
                self.type_info_by_id@.keys == root.maps.ids.keys,
                put_back(self.type_info_by_id@, id_overwrites(tail.take(self.journal@.len() - w.journal)))
                    == put_back(root.maps.ids, id_overwrites(tail)),
                covers(self.definitions@, definition_overwrites(tail.take(self.journal@.len() - w.journal))),
                self.definitions@.keys == root.maps.definitions.keys,
                put_back(self.definitions@, definition_overwrites(tail.take(self.journal@.len() - w.journal)))
                    == put_back(root.maps.definitions, definition_overwrites(tail)),
                covers(self.docs@, doc_overwrites(tail.take(self.journal@.len() - w.journal))),
                self.docs@.keys == root.maps.docs.keys,
                put_back(self.docs@, doc_overwrites(tail.take(self.journal@.len() - w.journal)))
                    == put_back(root.maps.docs, doc_overwrites(tail)),
                self.scope_marks@.len() == 0,
                self.frame_marks@.len() == 0,
                self.scope_undo@.len() == 0,
                self.frame_undo@.len() == 0,
            decreases self.journal@.len(),
        {
            let ghost n = self.journal@.len() as int;
            let ghost rest = tail.take(n - 1 - w.journal);
            match self.journal.pop() {
                Some(o) => {
                    proof {
                        assert(o == log[n - 1]);
                        assert(tail.take(n - w.journal) =~= rest.push(o));
                        lemma_overwrites_push(rest, o);
                        assert(binding_overwrites(rest.push(o)).drop_last() =~= binding_overwrites(rest) || !(o is Binding));
                        lemma_covers_rest(self.bindings@, binding_overwrites(rest), binding_overwrites(rest.push(o)));
                        assert(type_overwrites(rest.push(o)).drop_last() =~= type_overwrites(rest) || !(o is TypeInfo));
                        lemma_covers_rest(self.type_info@, type_overwrites(rest), type_overwrites(rest.push(o)));
                        assert(id_overwrites(rest.push(o)).drop_last() =~= id_overwrites(rest) || !(o is TypeInfoById));
                        lemma_covers_rest(self.type_info_by_id@, id_overwrites(rest), id_overwrites(rest.push(o)));
                        assert(definition_overwrites(rest.push(o)).drop_last() =~= definition_overwrites(rest) || !(o is Definition));
                        lemma_covers_rest(self.definitions@, definition_overwrites(rest), definition_overwrites(rest.push(o)));
                        assert(doc_overwrites(rest.push(o)).drop_last() =~= doc_overwrites(rest) || !(o is Doc));
                        lemma_covers_rest(self.docs@, doc_overwrites(rest), doc_overwrites(rest.push(o)));
                        assert(self.journal@ =~= log.take(n - 1));
                    }
                    match o {
                        Overwrite::Binding(name, s) => {
                            proof {
                                lemma_covered_put(self.bindings@, binding_overwrites(rest), name@, s);
                            }
                            self.bindings.put(name.as_str(), s);
                        },
                        Overwrite::TypeInfo(name, ti) => {
                            proof {
                                lemma_covered_put(self.type_info@, type_overwrites(rest), name@, ti);
                            }
                            self.type_info.put(name.as_str(), ti);
                        },
                        Overwrite::TypeInfoById(id, ti) => {
                            proof {
                                lemma_covered_put(self.type_info_by_id@, id_overwrites(rest), id.0, ti);
                            }
                            self.type_info_by_id.put(id.0, ti);
                        },
                        Overwrite::Definition(name, dl) => {
                            proof {
                                lemma_covered_put(
                                    self.definitions@,
                                    definition_overwrites(rest),
                                    name@,
                                    dl,
                                );
                            }
                            self.definitions.put(name.as_str(), dl);
                        },
                        Overwrite::Doc(name, doc) => {
                            proof {
                                lemma_covered_put(self.docs@, doc_overwrites(rest), name@, doc);
                            }
                            self.docs.put(name.as_str(), doc);
                        },
                    }
                },
                None => {},
            }
        }
        proof {
            assert(tail.take(0) =~= Seq::empty());
            lemma_put_back(root.maps.bindings, binding_overwrites(tail));
            lemma_put_back(root.maps.types, type_overwrites(tail));
            lemma_put_back(root.maps.ids, id_overwrites(tail));
            lemma_put_back(root.maps.definitions, definition_overwrites(tail));
            lemma_put_back(root.maps.docs, doc_overwrites(tail));
        }
        self.bindings.truncate(w.root_scope);
        self.type_info.truncate(w.type_info);
        self.type_info_by_id.truncate(w.type_info_by_id);
        self.definitions.truncate(w.definitions);
        self.docs.truncate(w.docs);
        self.next_type_id = w.next_type_id;
        proof {
            assert(self.scope_undo@.skip(0) =~= Seq::empty());
            assert(self.frame_undo@.skip(0) =~= Seq::empty());
            assert(self.now() =~= root.back_to(*w));
            lemma_cut_keys(root.maps.bindings, put_back(root.maps.bindings, binding_overwrites(tail)), w.root_scope as int, binding_overwrites(self.journal@));
            lemma_cut_keys(root.maps.types, put_back(root.maps.types, type_overwrites(tail)), w.type_info as int, type_overwrites(self.journal@));
            lemma_cut_keys(root.maps.ids, put_back(root.maps.ids, id_overwrites(tail)), w.type_info_by_id as int, id_overwrites(self.journal@));
            lemma_cut_keys(root.maps.definitions, put_back(root.maps.definitions, definition_overwrites(tail)), w.definitions as int, definition_overwrites(self.journal@));
            lemma_cut_keys(root.maps.docs, put_back(root.maps.docs, doc_overwrites(tail)), w.docs as int, doc_overwrites(self.journal@));
        }
    }
}

proof fn lemma_covers_rest<K, V>(m: Entries<K, V>, rest: Seq<(K, V)>, all: Seq<(K, V)>)
    requires
        covers(m, all),
        rest.is_prefix_of(all),
    ensures
        covers(m, rest),
{
    assert forall|i: int| 0 <= i < rest.len() implies m.has((#[trigger] rest[i]).0) by {
        assert(all[i] == rest[i]);
        assert(m.has(all[i].0));
    }
}

/// Putting a covered key back keeps the keys.
proof fn lemma_covered_put<K, V>(m: Entries<K, V>, rest: Seq<(K, V)>, k: K, v: V)
    requires
        m.wf(),
        covers(m, rest.push((k, v))),
    ensures
        m.has(k),
        m.put(k, v).keys == m.keys,
        covers(m.put(k, v), rest),
{
    let all = rest.push((k, v));
    assert(m.has(all[rest.len() as int].0));
    lemma_put(m, k, v);
    assert forall|i: int| 0 <= i < rest.len() implies m.put(k, v).has((#[trigger] rest[i]).0) by {
        assert(m.has(all[i].0));
    }
}

/// The same keys cut at the same place cover the same log.
proof fn lemma_cut_keys<K, V>(m: Entries<K, V>, p: Entries<K, V>, n: int, log: Seq<(K, V)>)
    requires
        0 <= n <= m.len(),
        p.keys == m.keys,
        covers(m.cut(n), log),
    ensures
        covers(p.cut(n), log),
{
    assert(p.cut(n).keys =~= m.cut(n).keys);
    assert forall|i: int| 0 <= i < log.len() implies p.cut(n).has((#[trigger] log[i]).0) by {
        assert(m.cut(n).has(log[i].0));
    }
}

/// Whatever an environment was told since a watermark was taken, rolling back to
/// it gives what the environment held then.
pub proof fn law_rollback_restores(then: &TypeEnv, now: &TypeEnv, w: EnvWatermark)
    requires
        then.rooted().reaches(w),
        then.rooted().back_to(w) == then.rooted().maps,
        now.rooted().remembers(then.rooted()),
    ensures
        now.rooted().reaches(w),
        now.rooted().back_to(w) == then.rooted().maps,
{
}

/// Whatever was bound in a scope, closing it gives the bindings that there were
/// when it was opened.
pub proof fn law_scope_gives_back(outside: &TypeEnv, opened: &TypeEnv, inside: &TypeEnv)
    requires
        opened.scope_marks@ == outside.scope_marks@.push(outside.scope_undo@.len() as usize),
        opened.out_of_scopes(opened.scope_marks@.last() as int) == outside.bindings@,
        inside.keeps_promises(opened),
    ensures
        inside.scope_marks@.len() > 0,
        inside.out_of_scopes(inside.scope_marks@.last() as int) == outside.bindings@,
{
    let k = opened.scope_marks@.len() - 1;
    assert(opened.out_of_scopes(opened.scope_marks@[k] as int) == inside.out_of_scopes(
        opened.scope_marks@[k] as int,
    ));
}

/// Whatever was named in a module frame, closing it gives the names that there
/// were when it was opened.
pub proof fn law_frame_gives_back(outside: &TypeEnv, opened: &TypeEnv, inside: &TypeEnv)
    requires
        opened.frame_marks@.len() > 0,
        opened.out_of_frames(
            opened.frame_marks@.last().0 as int,
            opened.frame_marks@.last().1 as int,
        ) == outside.now(),
        inside.keeps_promises(opened),
    ensures
        ({
            let out = inside.out_of_frames(
                inside.frame_marks@.last().0 as int,
                inside.frame_marks@.last().1 as int,
            );
            &&& out.bindings == outside.now().bindings
            &&& out.types == outside.now().types
            &&& out.definitions == outside.now().definitions
            &&& out.docs == outside.now().docs
        }),
{
    let k = opened.frame_marks@.len() - 1;
    assert(same_names_out(inside, opened, opened.frame_marks@[k]));
}

/// Promises kept step by step are kept.
pub proof fn law_promises_chain(a: &TypeEnv, b: &TypeEnv, c: &TypeEnv)
    requires
        b.keeps_promises(a),
        c.keeps_promises(b),
    ensures
        c.keeps_promises(a),
{
    assert forall|i: int| 0 <= i < a.scope_marks@.len() implies c.out_of_scopes(
        #[trigger] a.scope_marks@[i] as int,
    ) == a.out_of_scopes(a.scope_marks@[i] as int) by {
        assert(b.out_of_scopes(a.scope_marks@[i] as int) == a.out_of_scopes(
            a.scope_marks@[i] as int,
        ));
        assert(c.out_of_scopes(b.scope_marks@[i] as int) == b.out_of_scopes(
            b.scope_marks@[i] as int,
        ));
    }
    assert forall|i: int| 0 <= i < a.frame_marks@.len() implies same_names_out(
        c,
        a,
        #[trigger] a.frame_marks@[i],
    ) by {
        assert(same_names_out(b, a, a.frame_marks@[i]));
        assert(same_names_out(c, b, b.frame_marks@[i]));
    }
}

} // verus!
