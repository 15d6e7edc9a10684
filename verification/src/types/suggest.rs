//! Names near a name that is not in scope.

use crate::text::{cat, chars_of, texts};
use crate::types::type_env::TypeEnv;
use vstd::prelude::*;

verus! {

/// The fewest single-character insertions, deletions and substitutions that
/// turn `a` into `b`, worked out from their last characters.
pub open spec fn distance(a: Seq<char>, b: Seq<char>) -> nat
    decreases a.len() + b.len(),
{
    if a.len() == 0 {
        b.len()
    } else if b.len() == 0 {
        a.len()
    } else {
        let delete = distance(a.drop_last(), b) + 1;
        let insert = distance(a, b.drop_last()) + 1;
        let keep = distance(a.drop_last(), b.drop_last()) + if a.last() == b.last() {
            0nat
        } else {
            1nat
        };
        least(least(delete, insert), keep)
    }
}

pub open spec fn least(x: nat, y: nat) -> nat {
    if y < x {
        y
    } else {
        x
    }
}

/// No more edits are needed than the longer text has characters.
proof fn lemma_distance_bound(a: Seq<char>, b: Seq<char>)
    ensures
        distance(a, b) <= a.len() || distance(a, b) <= b.len(),
    decreases a.len() + b.len(),
{
    if a.len() > 0 && b.len() > 0 {
        lemma_distance_bound(a.drop_last(), b.drop_last());
    }
}

/// An edit changes a text's length by one at most.
proof fn lemma_distance_lengths(a: Seq<char>, b: Seq<char>)
    ensures
        a.len() <= b.len() + distance(a, b),
        b.len() <= a.len() + distance(a, b),
    decreases a.len() + b.len(),
{
    if a.len() > 0 && b.len() > 0 {
        lemma_distance_lengths(a.drop_last(), b);
        lemma_distance_lengths(a, b.drop_last());
        lemma_distance_lengths(a.drop_last(), b.drop_last());
    }
}

/// Going by way of a third text takes no fewer edits.
pub proof fn law_distance_triangle(a: Seq<char>, b: Seq<char>, c: Seq<char>)
    ensures
        distance(a, c) <= distance(a, b) + distance(b, c),
    decreases a.len() + b.len() + c.len(),
{
    if a.len() == 0 {
        lemma_distance_lengths(b, c);
    } else if c.len() == 0 {
        lemma_distance_lengths(a, b);
    } else if b.len() == 0 {
        lemma_distance_bound(a, c);
    } else {
        let (p, q, r) = (a.drop_last(), b.drop_last(), c.drop_last());
        if distance(a, b) == distance(p, b) + 1 {
            law_distance_triangle(p, b, c);
        } else if distance(b, c) == distance(b, r) + 1 {
            law_distance_triangle(a, b, r);
        } else if distance(a, b) == distance(a, q) + 1 {
            law_distance_triangle(a, q, c);
            law_distance_triangle(a, q, r);
        } else {
            law_distance_triangle(p, q, c);
            law_distance_triangle(p, q, r);
        }
    }
}

/// It takes as many edits one way as the other.
pub proof fn law_distance_is_symmetric(a: Seq<char>, b: Seq<char>)
    ensures
        distance(a, b) == distance(b, a),
    decreases a.len() + b.len(),
{
    if a.len() > 0 && b.len() > 0 {
        law_distance_is_symmetric(a.drop_last(), b);
        law_distance_is_symmetric(a, b.drop_last());
        law_distance_is_symmetric(a.drop_last(), b.drop_last());
    }
}

/// Only a text itself is no edit away.
pub proof fn law_distance_zero_is_equality(a: Seq<char>, b: Seq<char>)
    ensures
        distance(a, b) == 0 <==> a == b,
    decreases a.len() + b.len(),
{
    if a.len() == 0 || b.len() == 0 {
        if distance(a, b) == 0 {
            assert(a =~= b);
        }
    } else {
        law_distance_zero_is_equality(a.drop_last(), b.drop_last());
        if a.last() == b.last() && a.drop_last() == b.drop_last() {
            assert(a =~= a.drop_last().push(a.last()));
            assert(b =~= b.drop_last().push(b.last()));
        }
    }
}

/// The number of edits between two texts, counted in characters.
pub fn levenshtein(left: &str, right: &str) -> (r: usize)
    ensures
        r == distance(left@, right@),
{
    let a = chars_of(left);
    let b = chars_of(right);
    // Row `i` holds the distances of the first `i` characters of `a` to every
    // prefix of `b`.
    let mut prev: Vec<usize> = Vec::new();
    let mut j: usize = 0;
    while j < b.len()
        invariant
            j <= b@.len(),
            prev@.len() == j,
            forall|k: int|
                0 <= k < j ==> #[trigger] prev@[k] == distance(a@.take(0), b@.take(k)),
        decreases b@.len() - j,
    {
        prev.push(j);
        j += 1;
    }
    prev.push(j);
    let width: usize = prev.len();
    let mut i: usize = 0;
    while i < a.len()
        invariant
            i <= a@.len(),
            width == b@.len() + 1,
            prev@.len() == width,
            forall|k: int|
                0 <= k < width ==> #[trigger] prev@[k] == distance(a@.take(i as int), b@.take(k)),
        decreases a@.len() - i,
    {
        let mut curr: Vec<usize> = Vec::new();
        curr.push(i + 1);
        let ghost up = a@.take(i as int);
        let ghost here = a@.take(i + 1);
        proof {
            assert(here.drop_last() =~= up);
            assert(here.last() == a@[i as int]);
            assert(distance(here, b@.take(0)) == i + 1);
        }
        let mut j: usize = 1;
        while j < width
            invariant
                i < a@.len(),
                1 <= j <= width,
                width == b@.len() + 1,
                prev@.len() == width,
                up == a@.take(i as int),
                here == a@.take(i + 1),
                here.drop_last() == up,
                here.last() == a@[i as int],
                forall|k: int| 0 <= k < width ==> #[trigger] prev@[k] == distance(up, b@.take(k)),
                curr@.len() == j,
                forall|k: int| 0 <= k < j ==> #[trigger] curr@[k] == distance(here, b@.take(k)),
            decreases width - j,
        {
            let del: usize = prev[j];
            let ins: usize = curr[j - 1];
            let sub: usize = prev[j - 1];
            let step: usize = if ins < del {
                ins
            } else {
                del
            };
            proof {
                let bj = b@.take(j as int);
                assert(bj.drop_last() =~= b@.take(j - 1));
                assert(bj.last() == b@[j - 1]);
                lemma_distance_bound(here, bj);
                assert(here.len() == i + 1 && bj.len() == j);
                assert(a@.len() == a.len());
                assert(distance(here, bj) == least(least((del + 1) as nat, (ins + 1) as nat), (sub
                    + if a@[i as int] == b@[j - 1] {
                    0int
                } else {
                    1int
                }) as nat));
            }
            let min: usize = if a[i] == b[j - 1] {
                if step < sub {
                    step + 1
                } else {
                    sub
                }
            } else if step < sub {
                step + 1
            } else {
                sub + 1
            };
            curr.push(min);
            j += 1;
        }
        prev = curr;
        i += 1;
    }
    proof {
        assert(a@.take(i as int) =~= a@);
        assert(b@.take(b@.len() as int) =~= b@);
    }
    prev[width - 1]
}

/// How far a suggestion may be: a third of the name, at least one edit.
pub open spec fn near(name: Seq<char>) -> nat {
    if name.len() > 3 {
        name.len() / 3
    } else {
        1
    }
}

/// The key to suggest for `name`: the first of the nearest, if that is near
/// enough.
pub open spec fn is_suggestion(keys: Seq<Seq<char>>, name: Seq<char>, i: int) -> bool {
    &&& 0 <= i < keys.len()
    &&& distance(name, keys[i]) <= near(name)
    &&& forall|j: int|
        0 <= j < keys.len() ==> distance(name, keys[i]) <= distance(name, #[trigger] keys[j])
    &&& forall|j: int| 0 <= j < i ==> distance(name, keys[i]) < distance(name, #[trigger] keys[j])
}

/// `a` sorts before `b`.
pub open spec fn before(a: Seq<char>, b: Seq<char>) -> bool
    decreases a.len(),
{
    if b.len() == 0 {
        false
    } else if a.len() == 0 {
        true
    } else if a[0] == b[0] {
        before(a.skip(1), b.skip(1))
    } else {
        (a[0] as int) < (b[0] as int)
    }
}

proof fn lemma_before_total(a: Seq<char>, b: Seq<char>)
    ensures
        a == b || before(a, b) || before(b, a),
        !(before(a, b) && before(b, a)),
        a == b ==> !before(a, b),
    decreases a.len(),
{
    if a.len() > 0 && b.len() > 0 && a[0] == b[0] {
        lemma_before_total(a.skip(1), b.skip(1));
        if a.skip(1) == b.skip(1) {
            assert(a =~= seq![a[0]] + a.skip(1));
            assert(b =~= seq![b[0]] + b.skip(1));
        }
    } else if a.len() == 0 && b.len() == 0 {
        assert(a =~= b);
    }
}

proof fn lemma_before_trans(a: Seq<char>, b: Seq<char>, c: Seq<char>)
    requires
        before(a, b),
        before(b, c),
    ensures
        before(a, c),
    decreases a.len(),
{
    if a.len() > 0 && a[0] == b[0] && b[0] == c[0] {
        lemma_before_trans(a.skip(1), b.skip(1), c.skip(1));
    }
}

fn char_before(x: char, y: char) -> (r: bool)
    ensures
        r == ((x as int) < (y as int)),
{
    (x as u32) < (y as u32)
}

/// Whether `left` sorts before `right`.
fn sorts_before(left: &str, right: &str) -> (r: bool)
    ensures
        r == before(left@, right@),
{
    let a = chars_of(left);
    let b = chars_of(right);
    let mut i: usize = 0;
    proof {
        assert(a@.skip(0) =~= a@);
        assert(b@.skip(0) =~= b@);
    }
    loop
        invariant
            i <= a@.len(),
            i <= b@.len(),
            a@ == left@,
            b@ == right@,
            before(a@, b@) == before(a@.skip(i as int), b@.skip(i as int)),
        decreases a@.len() - i,
    {
        if i >= b.len() {
            return false;
        }
        if i >= a.len() {
            return true;
        }
        proof {
            assert(a@.skip(i as int)[0] == a@[i as int]);
            assert(b@.skip(i as int)[0] == b@[i as int]);
            assert(a@.skip(i as int).skip(1) =~= a@.skip(i + 1));
            assert(b@.skip(i as int).skip(1) =~= b@.skip(i + 1));
        }
        if a[i] != b[i] {
            return char_before(a[i], b[i]);
        }
        i += 1;
    }
}

/// Whether `s` ends in `suffix`.
fn ends_with(text: &str, suffix: &str) -> (r: bool)
    ensures
        r == suffix@.is_suffix_of(text@),
{
    let s = chars_of(text);
    let t = chars_of(suffix);
    if s.len() < t.len() {
        return false;
    }
    let off: usize = s.len() - t.len();
    let mut i: usize = 0;
    while i < t.len()
        invariant
            i <= t@.len(),
            off + t@.len() == s@.len(),
            t@ == suffix@,
            s@ == text@,
            forall|k: int| 0 <= k < i ==> #[trigger] t@[k] == s@[off + k],
        decreases t@.len() - i,
    {
        proof {
            assert(s@.len() == s.len());
        }
        if s[off + i] != t[i] {
            proof {
                let tail = s@.subrange(off as int, s@.len() as int);
                assert(tail[i as int] == s@[off + i]);
            }
            return false;
        }
        i += 1;
    }
    proof {
        assert(t@ =~= s@.subrange(off as int, s@.len() as int));
    }
    true
}

/// In order, each once.
pub open spec fn ascending(ts: Seq<Seq<char>>) -> bool {
    forall|i: int, j: int|
        0 <= i < j < ts.len() ==> before(#[trigger] ts[i], #[trigger] ts[j])
}

/// `ts` are the spellings of `name` among `keys`: those that end in a dot and
/// the name.
pub open spec fn spells(keys: Seq<Seq<char>>, name: Seq<char>, ts: Seq<Seq<char>>) -> bool {
    &&& ascending(ts)
    &&& forall|s: Seq<char>| #[trigger]
        ts.contains(s) <==> keys.contains(s) && ("."@ + name).is_suffix_of(s)
}

/// The spellings of `name` among `keys`, sorted.
pub open spec fn spellings(keys: Seq<Seq<char>>, name: Seq<char>) -> Seq<Seq<char>> {
    choose|ts: Seq<Seq<char>>| spells(keys, name, ts)
}

/// There is one way to sort a set of texts.
pub proof fn law_sorted_once(a: Seq<Seq<char>>, b: Seq<Seq<char>>)
    requires
        ascending(a),
        ascending(b),
        forall|s: Seq<char>| #[trigger] a.contains(s) <==> b.contains(s),
    ensures
        a == b,
    decreases a.len(),
{
    if a.len() == 0 {
        if b.len() > 0 {
            assert(b.contains(b[0]));
            assert(a.contains(b[0]));
        }
        assert(a =~= b);
    } else {
        assert(a.contains(a.last()));
        assert(b.contains(a.last()));
        let j = b.index_of(a.last());
        assert(b.contains(b.last()));
        assert(a.contains(b.last()));
        let i = a.index_of(b.last());
        if a.last() != b.last() {
            assert(before(a[i], a[a.len() - 1]));
            assert(before(b[j], b[b.len() - 1]));
            lemma_before_total(a.last(), b.last());
        }
        let x = a.drop_last();
        let y = b.drop_last();
        assert forall|s: Seq<char>| #[trigger] x.contains(s) <==> y.contains(s) by {
            if x.contains(s) {
                let k = x.index_of(s);
                assert(a[k] == s);
                assert(before(a[k], a[a.len() - 1]));
                lemma_before_total(s, a.last());
                assert(a.contains(s));
                assert(b.contains(s));
                let m = b.index_of(s);
                assert(y[m] == s);
            }
            if y.contains(s) {
                let k = y.index_of(s);
                assert(b[k] == s);
                assert(before(b[k], b[b.len() - 1]));
                lemma_before_total(s, b.last());
                assert(b.contains(s));
                assert(a.contains(s));
                let m = a.index_of(s);
                assert(x[m] == s);
            }
        }
        assert forall|p: int, q: int| 0 <= p < q < x.len() implies before(
            #[trigger] x[p],
            #[trigger] x[q],
        ) by {
            assert(before(a[p], a[q]));
        }
        assert forall|p: int, q: int| 0 <= p < q < y.len() implies before(
            #[trigger] y[p],
            #[trigger] y[q],
        ) by {
            assert(before(b[p], b[q]));
        }
        law_sorted_once(x, y);
        assert(a =~= x.push(a.last()));
        assert(b =~= y.push(b.last()));
    }
}

/// Put a text that is not among them in its place.
fn insert_sorted(out: &mut Vec<String>, s: &str)
    requires
        ascending(texts(old(out)@)),
        !texts(old(out)@).contains(s@),
    ensures
        ascending(texts(final(out)@)),
        forall|t: Seq<char>| #[trigger]
            texts(final(out)@).contains(t) <==> t == s@ || texts(old(out)@).contains(t),
{
    let ghost ts = texts(out@);
    let mut i: usize = 0;
    while i < out.len() && sorts_before(out[i].as_str(), s)
        invariant
            i <= out@.len(),
            *out == *old(out),
            ts == texts(out@),
            forall|k: int| 0 <= k < i ==> before(#[trigger] ts[k], s@),
        decreases out@.len() - i,
    {
        i += 1;
    }
    proof {
        assert forall|k: int| i <= k < ts.len() implies before(s@, #[trigger] ts[k]) by {
            lemma_before_total(ts[i as int], s@);
            assert(ts.contains(ts[i as int]));
            if k > i {
                lemma_before_trans(s@, ts[i as int], ts[k]);
            }
        }
    }
    out.insert(i, s.to_owned());
    proof {
        let us = texts(out@);
        assert(us =~= ts.insert(i as int, s@));
        assert forall|x: int, y: int| 0 <= x < y < us.len() implies before(
            #[trigger] us[x],
            #[trigger] us[y],
        ) by {
            let x0 = if x < i {
                x
            } else {
                x - 1
            };
            let y0 = if y < i {
                y
            } else {
                y - 1
            };
            if x != i {
                assert(us[x] == ts[x0]);
            }
            if y != i {
                assert(us[y] == ts[y0]);
            }
        }
        assert forall|t: Seq<char>| #[trigger] us.contains(t) <==> t == s@ || ts.contains(t) by {
            if ts.contains(t) {
                let k = ts.index_of(t);
                assert(us[if k < i { k } else { k + 1 }] == t);
            }
            assert(us[i as int] == s@);
            if us.contains(t) && t != s@ {
                let k = us.index_of(t);
                assert(ts[if k < i { k } else { k - 1 }] == t);
            }
        }
    }
}

impl TypeEnv {
    /// Every qualified spelling (`map.Map`) under which a type named `name` is
    /// in scope, sorted. An import registers each of its module's types under
    /// `qualifier.Name`, so these are exactly the spellings that would resolve
    /// where the bare `name` did not.
    pub fn qualified_spellings(&self, name: &str) -> (r: Vec<String>)
        requires
            self.wf(),
        ensures
            spells(self.now().types.keys, name@, texts(r@)),
            texts(r@) == spellings(self.now().types.keys, name@),
    {
        let suffix = cat(".", name);
        let mut out: Vec<String> = Vec::new();
        let mut i: usize = 0;
        let n: usize = self.type_info.len();
        let ghost keys = self.type_info@.keys;
        while i < n
            invariant
                i <= n == self.type_info@.len(),
                self.wf(),
                keys == self.type_info@.keys,
                suffix@ == "."@ + name@,
                ascending(texts(out@)),
                forall|s: Seq<char>| #[trigger]
                    texts(out@).contains(s) <==> keys.take(i as int).contains(s)
                        && suffix@.is_suffix_of(s),
            decreases n - i,
        {
            let key = self.type_info.key_at(i);
            proof {
                assert(!keys.take(i as int).contains(key@));
                assert forall|s: Seq<char>| #[trigger] keys.take(i + 1).contains(s) <==> s == key@
                    || keys.take(i as int).contains(s) by {
                    assert(keys.take(i + 1) =~= keys.take(i as int).push(key@));
                    assert(keys.take(i + 1)[i as int] == key@);
                    if keys.take(i as int).contains(s) {
                        let k = keys.take(i as int).index_of(s);
                        assert(keys.take(i + 1)[k] == s);
                    }
                    if keys.take(i + 1).contains(s) && s != key@ {
                        let k = keys.take(i + 1).index_of(s);
                        assert(keys.take(i as int)[k] == s);
                    }
                }
            }
            if ends_with(key, suffix.as_str()) {
                insert_sorted(&mut out, key);
            }
            i += 1;
        }
        proof {
            assert(keys.take(i as int) =~= keys);
            assert(spells(keys, name@, texts(out@)));
            law_sorted_once(texts(out@), spellings(keys, name@));
        }
        out
    }

    /// The name in scope that is nearest to `name`, if any is near.
    pub fn suggest_name(&self, name: &str) -> (r: Option<String>)
        requires
            self.wf(),
        ensures
            match r {
                Some(s) => exists|i: int|
                    #[trigger] is_suggestion(self.now().bindings.keys, name@, i) && s@
                        == self.now().bindings.keys[i],
                None => forall|i: int|
                    0 <= i < self.now().bindings.keys.len() ==> distance(
                        name@,
                        #[trigger] self.now().bindings.keys[i],
                    ) > near(name@),
            },
    {
        let mut best: Option<usize> = None;
        let len: usize = name.unicode_len();
        // The bound is exclusive, hence the `+ 1`.
        let mut best_dist: usize = if len > 3 {
            len / 3 + 1
        } else {
            2
        };
        let mut i: usize = 0;
        let n: usize = self.bindings.len();
        let ghost keys = self.bindings@.keys;
        while i < n
            invariant
                i <= n == self.bindings@.len(),
                self.wf(),
                keys == self.bindings@.keys,
                best_dist <= near(name@) + 1,
                match best {
                    Some(b) => {
                        &&& b < i
                        &&& best_dist == distance(name@, keys[b as int])
                        &&& best_dist <= near(name@)
                        &&& forall|j: int|
                            0 <= j < i ==> best_dist <= distance(name@, #[trigger] keys[j])
                        &&& forall|j: int|
                            0 <= j < b ==> best_dist < distance(name@, #[trigger] keys[j])
                    },
                    None => {
                        &&& best_dist == near(name@) + 1
                        &&& forall|j: int|
                            0 <= j < i ==> distance(name@, #[trigger] keys[j]) > near(name@)
                    },
                },
            decreases n - i,
        {
            let dist = levenshtein(name, self.bindings.key_at(i));
            if dist < best_dist {
                best_dist = dist;
                best = Some(i);
            }
            i += 1;
        }
        match best {
            Some(b) => {
                proof {
                    assert(is_suggestion(keys, name@, b as int));
                }
                let r = self.bindings.key_at(b).to_owned();
                proof {
                    assert(r@ == self.now().bindings.keys[b as int]);
                }
                Some(r)
            },
            None => None,
        }
    }
}

} // verus!
