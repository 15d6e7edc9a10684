//! Display names for type variables: `a` to `z`, then `aa`, `ab`, and on.

use vstd::prelude::*;

verus! {

pub open spec fn letter(n: nat) -> char
    recommends
        n < 26,
{
    (97 + n) as char
}

/// The name at position `n` of the sequence.
pub open spec fn letters(n: nat) -> Seq<char>
    decreases n,
{
    if n < 26 {
        seq![letter(n)]
    } else {
        letters((n / 26 - 1) as nat).push(letter(n % 26))
    }
}

/// No name comes twice in the sequence.
pub proof fn law_letters_distinct(a: nat, b: nat)
    requires
        letters(a) == letters(b),
    ensures
        a == b,
    decreases a,
{
    lemma_letters_len(a);
    lemma_letters_len(b);
    let sa = letters(a);
    let sb = letters(b);
    assert(sa.last() == sb.last());
    if a < 26 {
        assert(sa.len() == 1);
        if b >= 26 {
            lemma_letters_len((b / 26 - 1) as nat);
        }
    } else {
        lemma_letters_len((a / 26 - 1) as nat);
        if b >= 26 {
            assert(sa.drop_last() =~= letters((a / 26 - 1) as nat));
            assert(sb.drop_last() =~= letters((b / 26 - 1) as nat));
            law_letters_distinct((a / 26 - 1) as nat, (b / 26 - 1) as nat);
        }
    }
}

pub proof fn lemma_letters_len(n: nat)
    ensures
        letters(n).len() >= 1,
    decreases n,
{
    if n >= 26 {
        lemma_letters_len((n / 26 - 1) as nat);
    }
}

/// The name at position `uid`, which moves on to the next.
pub fn next_letter(uid: &mut u64) -> (r: String)
    requires
        *old(uid) < u64::MAX,
    ensures
        r@ == letters(*old(uid) as nat),
        *final(uid) == *old(uid) + 1,
{
    let mut chars: Vec<char> = Vec::new();
    let mut rest: u64 = *uid;
    let ghost whole = letters(*uid as nat);
    loop
        invariant_except_break
            whole == letters(rest as nat) + chars@.reverse(),
        ensures
            whole == chars@.reverse(),
        decreases rest,
    {
        let n: u64 = rest % 26;
        let ghost before = chars@;
        let c = (97u8 + n as u8) as char;
        chars.push(c);
        proof {
            assert(c == letter((rest % 26) as nat));
            assert(chars@.reverse() =~= seq![c] + before.reverse());
        }
        if rest < 26 {
            proof {
                assert(letters(rest as nat) + before.reverse() =~= chars@.reverse());
            }
            break;
        }
        proof {
            let up = letters((rest / 26 - 1) as nat);
            assert(up.push(c) + before.reverse() =~= up + (seq![c] + before.reverse()));
        }
        rest = rest / 26 - 1;
    }
    *uid = *uid + 1;
    let mut out = String::new();
    let mut i: usize = chars.len();
    proof {
        assert(chars@.reverse().take(0) =~= Seq::<char>::empty());
        assert(out@ =~= Seq::<char>::empty());
    }
    while i > 0
        invariant
            i <= chars@.len(),
            out@ == chars@.reverse().take(chars@.len() - i),
        decreases i,
    {
        i -= 1;
        proof {
            let k = chars@.len() - i - 1;
            assert(chars@.reverse().take(k + 1) =~= chars@.reverse().take(k).push(
                chars@[i as int],
            ));
        }
        out.push(chars[i]);
    }
    proof {
        assert(chars@.reverse().take(chars@.len() as int) =~= chars@.reverse());
    }
    out
}

/// Display name for a quantified variable printed without its scheme at hand.
pub fn bound_letter(index: u32) -> (r: String)
    ensures
        r@ == letters(index as nat),
{
    let mut uid: u64 = index as u64;
    next_letter(&mut uid)
}

} // verus!
