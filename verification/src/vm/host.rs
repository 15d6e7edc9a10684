//! What a program sees of the world outside it: its arguments and its
//! environment. Whoever starts a run makes one, so a test can hand in a world of
//! its own.

use vstd::prelude::*;

verus! {

/// The world that a run sees.
pub struct Host {
    /// `os.argv`: the path of the entrypoint that was run, then the arguments
    /// after it.
    argv: Vec<String>,
    /// `os.env`: each variable with its value.
    env: Vec<(String, String)>,
}

/// The first `n` of the variables whose name and value are both text, in order.
pub open spec fn readable(vars: Seq<(Option<String>, Option<String>)>, n: nat) -> Seq<(String, String)>
    decreases n,
{
    if n == 0 {
        Seq::empty()
    } else {
        let before = readable(vars, (n - 1) as nat);
        match vars[n - 1] {
            (Some(name), Some(value)) => before.push((name, value)),
            _ => before,
        }
    }
}

impl Host {
    pub closed spec fn arguments(self) -> Seq<String> {
        self.argv@
    }

    pub closed spec fn variables(self) -> Seq<(String, String)> {
        self.env@
    }

    pub fn new(argv: Vec<String>, env: Vec<(String, String)>) -> (r: Host)
        ensures
            r.arguments() == argv@,
            r.variables() == env@,
    {
        Host { argv, env }
    }

    /// A world with these variables, of which those whose name or value is not
    /// text are left out. The rest keep their order.
    pub fn with_variables(argv: Vec<String>, vars: Vec<(Option<String>, Option<String>)>) -> (r: Host)
        ensures
            r.arguments() == argv@,
            r.variables() == readable(vars@, vars@.len()),
    {
        let ghost all = vars@;
        let mut left = vars;
        let mut back: Vec<(String, String)> = Vec::new();
        let mut env: Vec<(String, String)> = Vec::new();
        proof {
            assert(all.take(all.len() as int) =~= all);
            assert(back@.reverse() =~= Seq::empty());
        }
        while left.len() > 0
            invariant
                left@ == all.take(left@.len() as int),
                left@.len() <= all.len(),
                readable(all, all.len()) == readable(all, left@.len()) + back@.reverse(),
            decreases left@.len(),
        {
            let ghost n = left@.len();
            let ghost before = back@;
            if let Some(var) = left.pop() {
                proof {
                    assert(left@ =~= all.take(n - 1));
                    assert(var == all[n - 1]);
                }
                if let (Some(name), Some(value)) = var {
                    back.push((name, value));
                    proof {
                        assert(back@.reverse() =~= seq![(name, value)] + before.reverse());
                        assert(readable(all, n) == readable(all, (n - 1) as nat).push((name, value)));
                        assert(readable(all, n) + before.reverse() =~= readable(all, (n - 1) as nat)
                            + back@.reverse());
                    }
                }
            }
        }
        let ghost kept = back@;
        proof {
            assert(readable(all, 0) + kept.reverse() =~= kept.reverse());
            assert(kept.take(kept.len() as int) =~= kept);
            assert(env@ + kept.reverse() =~= kept.reverse());
        }
        while back.len() > 0
            invariant
                back@ == kept.take(back@.len() as int),
                back@.len() <= kept.len(),
                env@ + back@.reverse() == kept.reverse(),
            decreases back@.len(),
        {
            let ghost before = back@;
            let ghost had = env@;
            if let Some(var) = back.pop() {
                env.push(var);
                proof {
                    assert(back@ =~= kept.take(before.len() - 1));
                    assert(before.reverse() =~= seq![var] + back@.reverse());
                    assert(env@ + back@.reverse() =~= had + before.reverse());
                }
            }
        }
        proof {
            assert(env@ + back@.reverse() =~= env@);
        }
        Host { argv, env }
    }

    pub fn argv(&self) -> (r: &Vec<String>)
        ensures
            r@ == self.arguments(),
    {
        &self.argv
    }

    pub fn env(&self) -> (r: &Vec<(String, String)>)
        ensures
            r@ == self.variables(),
    {
        &self.env
    }
}

} // verus!
