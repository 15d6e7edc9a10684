//! The display names of variables as an engine stands: who is called what,
//! which names are spoken for, and where the sequence of fresh names goes on.

use crate::names::IdTable;
use crate::types::arena::{claimed, minted};
use crate::types::infer::InferEngine;
use crate::types::letters::{law_letters_distinct, letters};
use crate::types::node::StrId;
use std::collections::HashSet;
use vstd::prelude::*;

verus! {

broadcast use vstd::std_specs::hash::group_hash_axioms;

#[verifier::ext_equal]
pub struct Naming {
    pub names: Map<i32, Seq<char>>,
    pub used: Set<Seq<char>>,
    pub uid: nat,
}

/// The position of the first name, from `uid` on, that is not used.
pub open spec fn next_free(used: Set<Seq<char>>, uid: nat) -> nat {
    choose|k: nat| is_next_free(used, uid, k)
}

pub open spec fn is_next_free(used: Set<Seq<char>>, uid: nat, k: nat) -> bool {
    &&& uid <= k
    &&& !used.contains(letters(k))
    &&& forall|j: nat| uid <= j < k ==> used.contains(#[trigger] letters(j))
}

pub proof fn lemma_next_free(used: Set<Seq<char>>, uid: nat, k: nat)
    requires
        is_next_free(used, uid, k),
    ensures
        next_free(used, uid) == k,
{
    let n = next_free(used, uid);
    assert(is_next_free(used, uid, n));
    if n < k {
        assert(used.contains(letters(n)));
    }
    if k < n {
        assert(used.contains(letters(k)));
    }
}

impl Naming {
    /// A variable is asked for its name: it keeps the one it has, else gets the
    /// next free one.
    pub open spec fn named(self, v: i32) -> Naming {
        if self.names.contains_key(v) {
            self
        } else {
            let k = next_free(self.used, self.uid);
            Naming {
                names: self.names.insert(v, letters(k)),
                used: self.used.insert(letters(k)),
                uid: k + 1,
            }
        }
    }

    /// Each of `ids` is asked in turn.
    pub open spec fn named_all(self, ids: Seq<i32>) -> Naming
        decreases ids.len(),
    {
        if ids.len() == 0 {
            self
        } else {
            self.named_all(ids.drop_last()).named(ids.last())
        }
    }

    /// A variable is given a name.
    pub open spec fn called(self, v: i32, name: Seq<char>) -> Naming {
        Naming { names: self.names.insert(v, name), used: self.used.insert(name), uid: self.uid }
    }

    /// Every name in use is spoken for.
    pub open spec fn wf(self) -> bool {
        forall|v: i32| #[trigger] self.names.contains_key(v) ==> self.used.contains(self.names[v])
    }
}

/// However many names are used, the sequence comes to a free one.
pub proof fn law_a_name_is_free(used: Set<Seq<char>>, uid: nat)
    requires
        used.finite(),
    ensures
        is_next_free(used, uid, next_free(used, uid)),
    decreases used.len(),
{
    let first = letters(uid);
    if !used.contains(first) {
        assert(is_next_free(used, uid, uid));
        lemma_next_free(used, uid, uid);
    } else {
        let rest = used.remove(first);
        law_a_name_is_free(rest, uid + 1);
        let k = next_free(rest, uid + 1);
        if letters(k) == first {
            law_letters_distinct(k, uid);
        }
        assert forall|j: nat| uid <= j < k implies used.contains(#[trigger] letters(j)) by {
            if j > uid {
                assert(rest.contains(letters(j)));
            }
        }
        assert(is_next_free(used, uid, k));
        lemma_next_free(used, uid, k);
    }
}

/// Asking for names gives every asked variable one, changes no name that was
/// there, and never gives out one that was spoken for.
pub proof fn law_names_are_fresh(n: Naming, ids: Seq<i32>, v: i32)
    requires
        n.used.finite(),
        n.named_all(ids).names.contains_key(v),
    ensures
        n.names.contains_key(v) ==> n.named_all(ids).names[v] == n.names[v],
        !n.names.contains_key(v) ==> ids.contains(v) && !n.used.contains(
            n.named_all(ids).names[v],
        ),
        n.used.subset_of(n.named_all(ids).used),
        n.named_all(ids).used.finite(),
        forall|w: i32| #[trigger] ids.contains(w) ==> n.named_all(ids).names.contains_key(w),
    decreases ids.len(),
{
    if ids.len() > 0 {
        let init = ids.drop_last();
        let m = n.named_all(init);
        lemma_used_stays(n, init);
        law_a_name_is_free(m.used, m.uid);
        if m.names.contains_key(v) {
            law_names_are_fresh(n, init, v);
            if init.contains(v) {
                let i = init.index_of(v);
                assert(ids[i] == v);
            }
        } else {
            assert(v == ids.last());
            assert(ids[ids.len() - 1] == v);
            if n.names.contains_key(v) {
                lemma_names_stay(n, init, v);
            }
        }
        lemma_asked_have_names(n, ids);
    }
}

proof fn lemma_names_stay(n: Naming, ids: Seq<i32>, v: i32)
    requires
        n.names.contains_key(v),
    ensures
        n.named_all(ids).names.contains_key(v),
        n.named_all(ids).names[v] == n.names[v],
    decreases ids.len(),
{
    if ids.len() > 0 {
        lemma_names_stay(n, ids.drop_last(), v);
    }
}

proof fn lemma_used_stays(n: Naming, ids: Seq<i32>)
    requires
        n.used.finite(),
    ensures
        n.used.subset_of(n.named_all(ids).used),
        n.named_all(ids).used.finite(),
    decreases ids.len(),
{
    if ids.len() > 0 {
        lemma_used_stays(n, ids.drop_last());
    }
}

proof fn lemma_asked_have_names(n: Naming, ids: Seq<i32>)
    ensures
        forall|w: i32| #[trigger] ids.contains(w) ==> n.named_all(ids).names.contains_key(w),
    decreases ids.len(),
{
    if ids.len() > 0 {
        let init = ids.drop_last();
        lemma_asked_have_names(n, init);
        assert forall|w: i32| #[trigger] ids.contains(w) implies n.named_all(
            ids,
        ).names.contains_key(w) by {
            let i = ids.index_of(w);
            if i < init.len() {
                assert(init[i] == w);
                assert(init.contains(w));
            }
        }
    }
}

impl InferEngine {
    pub open spec fn naming(&self) -> Naming {
        Naming {
            names: Map::new(
                |v: i32| self.var_names@.contains_key(v),
                |v: i32| self.strings@[self.var_names@[v].0 as int],
            ),
            used: Set::new(|name: Seq<char>| claimed(self.strings@, self.used_names@, name)),
            uid: self.next_name_uid as nat,
        }
    }
}

/// More strings change no name.
pub proof fn lemma_naming_strings(a: &InferEngine, b: &InferEngine)
    requires
        a.wf(),
        b.same_names(a),
        a.strings@.is_prefix_of(b.strings@),
    ensures
        b.naming() == a.naming(),
{
    let s = a.strings@;
    let t = b.strings@;
    assert forall|v: i32| a.var_names@.contains_key(v) implies #[trigger] b.naming().names[v]
        == a.naming().names[v] by {
        assert(s[a.var_names@[v].0 as int] == t[a.var_names@[v].0 as int]);
    }
    assert(b.naming().names =~= a.naming().names);
    lemma_claimed_strings(s, t, a.used_names@);
    assert(b.naming().used =~= a.naming().used);
}

proof fn lemma_claimed_strings(s: Seq<Seq<char>>, t: Seq<Seq<char>>, ids: Set<u32>)
    requires
        s.is_prefix_of(t),
        forall|n: u32| #[trigger] ids.contains(n) ==> n < s.len(),
    ensures
        forall|name: Seq<char>| #[trigger] claimed(s, ids, name) == claimed(t, ids, name),
{
    assert forall|name: Seq<char>| #[trigger] claimed(s, ids, name) == claimed(t, ids, name) by {
        if claimed(s, ids, name) {
            let n = choose|n: u32| #[trigger] ids.contains(n) && s[n as int] == name;
            assert(t[n as int] == s[n as int]);
            assert(ids.contains(n) && t[n as int] == name);
        }
        if claimed(t, ids, name) {
            let n = choose|n: u32| #[trigger] ids.contains(n) && t[n as int] == name;
            assert(t[n as int] == s[n as int]);
            assert(ids.contains(n) && s[n as int] == name);
        }
    }
}

/// A minted name is the next free one.
proof fn lemma_minted_named(a: &InferEngine, b: &InferEngine, v: i32, sid: StrId)
    requires
        a.wf(),
        !a.var_names@.contains_key(v),
        a.strings@.is_prefix_of(b.strings@),
        b.var_names@ == a.var_names@.insert(v, sid),
        b.used_names@ == a.used_names@.insert(sid.0),
        sid.0 < b.strings@.len(),
        minted(
            a.strings@,
            a.used_names@,
            a.next_name_uid as nat,
            b.strings@[sid.0 as int],
            b.next_name_uid as nat,
        ),
    ensures
        b.naming() == a.naming().named(v),
{
    let n = a.naming();
    let k = (b.next_name_uid - 1) as nat;
    assert(is_next_free(n.used, n.uid, k)) by {
        assert forall|j: nat| n.uid <= j < k implies n.used.contains(#[trigger] letters(j)) by {
            assert(claimed(a.strings@, a.used_names@, letters(j)));
        }
    }
    lemma_next_free(n.used, n.uid, k);
    let name = letters(k);
    assert forall|w: i32| b.var_names@.contains_key(w) implies #[trigger] b.naming().names[w]
        == n.named(v).names[w] by {
        if w != v {
            assert(a.var_names@.contains_key(w));
            assert(a.strings@[a.var_names@[w].0 as int] == b.strings@[a.var_names@[w].0 as int]);
        }
    }
    assert(b.naming().names =~= n.named(v).names);
    lemma_claimed_strings(a.strings@, b.strings@, a.used_names@);
    assert forall|x: Seq<char>| b.naming().used.contains(x) <==> n.named(v).used.contains(x) by {
        if claimed(b.strings@, b.used_names@, x) {
            let m = choose|m: u32| #[trigger]
                b.used_names@.contains(m) && b.strings@[m as int] == x;
            if m != sid.0 {
                assert(a.used_names@.contains(m) && b.strings@[m as int] == x);
                assert(claimed(b.strings@, a.used_names@, x));
                assert(claimed(a.strings@, a.used_names@, x));
            }
        }
        if n.named(v).used.contains(x) {
            if x == name {
                assert(b.used_names@.contains(sid.0) && b.strings@[sid.0 as int] == x);
            } else {
                assert(claimed(a.strings@, a.used_names@, x));
                assert(claimed(b.strings@, a.used_names@, x));
                let m = choose|m: u32| #[trigger]
                    a.used_names@.contains(m) && b.strings@[m as int] == x;
                assert(b.used_names@.contains(m) && b.strings@[m as int] == x);
            }
        }
    }
    assert(b.naming().used =~= n.named(v).used);
}

impl InferEngine {
    /// The display name of a variable, given out on the first call.
    pub(crate) fn display(&mut self, id: i32) -> (r: String)
        requires
            old(self).wf(),
            old(self).naming().names.contains_key(id) || old(self).strings@.len() < 0xFFFF_FFFF,
        ensures
            final(self).wf(),
            final(self).only_names(old(self)),
            final(self).strings@.len() <= old(self).strings@.len() + if old(self).naming().names.contains_key(id) {
                0int
            } else {
                1int
            },
            final(self).naming() == old(self).naming().named(id),
            r@ == final(self).naming().names[id],
    {
        let ghost a = *self;
        let r = self.var_display_name(id);
        proof {
            if !a.var_names@.contains_key(id) {
                lemma_minted_named(&a, self, id, self.var_names@[id]);
            }
        }
        r
    }

    /// Give each variable of `quantified` that has no display name one.
    pub(crate) fn assign_names(&mut self, quantified: &IdTable)
        requires
            old(self).wf(),
            quantified.wf(),
            old(self).strings@.len() + quantified@.len() <= 0xFFFF_FFFF,
        ensures
            final(self).wf(),
            final(self).only_names(old(self)),
            final(self).naming() == old(self).naming().named_all(quantified@),
            forall|i: int|
                0 <= i < quantified@.len() ==> final(self).var_names@.contains_key(
                    #[trigger] quantified@[i],
                ),
    {
        let mut taken: HashSet<u32> = HashSet::new();
        let mut i: usize = 0;
        let n: usize = quantified.len();
        while i < n
            invariant
                i <= n,
                n == quantified@.len(),
                *self == *old(self),
                self.wf(),
                forall|m: u32| #[trigger] taken@.contains(m) ==> self.used_names@.contains(m),
            decreases n - i,
        {
            let v = quantified.get(i);
            if let Some(name) = self.var_names.get(&v) {
                taken.insert(name.0);
            }
            i += 1;
        }
        i = 0;
        proof {
            assert(quantified@.take(0) =~= Seq::empty());
        }
        while i < n
            invariant
                i <= n,
                n == quantified@.len(),
                self.wf(),
                self.only_names(old(self)),
                old(self).strings@.len() + n <= 0xFFFF_FFFF,
                self.strings@.len() <= old(self).strings@.len() + i,
                forall|m: u32| #[trigger] taken@.contains(m) ==> self.used_names@.contains(m),
                self.naming() == old(self).naming().named_all(quantified@.take(i as int)),
                forall|k: int|
                    0 <= k < i ==> self.var_names@.contains_key(#[trigger] quantified@[k]),
            decreases n - i,
        {
            let v = quantified.get(i);
            let ghost e1 = *self;
            proof {
                assert(quantified@.take(i + 1).drop_last() =~= quantified@.take(i as int));
            }
            if !self.var_names.contains_key(&v) {
                proof {
                    assert(e1.used_names@ + taken@ =~= e1.used_names@);
                }
                let sid = self.mint_display_name(&mut taken);
                self.var_names.insert(v, sid);
                proof {
                    lemma_minted_named(&e1, self, v, sid);
                }
            }
            i += 1;
        }
        proof {
            assert(quantified@.take(n as int) =~= quantified@);
        }
    }
}

} // verus!
