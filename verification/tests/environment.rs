use scarlet::types::node::{mono, Ty};
use scarlet::types::type_env::new_env;

// By-length truncation alone cannot reach an in-place replace.
#[test]
fn truncate_to_restores_overwritten_root_binding() {
    let mut env = new_env();
    env.define("x", mono(Ty(1)));
    let w = env.watermark();

    env.define("x", mono(Ty(2))); // no scope open: root-scope overwrite
    assert_eq!(env.lookup("x").unwrap().ty, Ty(2));

    env.truncate_to(&w);
    assert_eq!(
        env.lookup("x").unwrap().ty,
        Ty(1),
        "clobbered root binding must be restored"
    );
}

// An overwrite inside an open scope rolls back through `scope_undo` and
// must NOT be double-restored by the journal.
#[test]
fn scoped_overwrite_still_rolls_back_via_scope_undo() {
    let mut env = new_env();
    env.define("x", mono(Ty(1)));
    let w = env.watermark();

    env.push_scope();
    env.define("x", mono(Ty(2)));
    env.pop_scope();
    assert_eq!(env.lookup("x").unwrap().ty, Ty(1));

    env.truncate_to(&w);
    assert_eq!(env.lookup("x").unwrap().ty, Ty(1));
}

#[test]
fn a_name_close_to_a_known_one_is_suggested() {
    let mut env = new_env();
    env.define("println", mono(Ty(1)));
    env.define("length", mono(Ty(2)));
    assert_eq!(env.suggest_name("printn").as_deref(), Some("println"));
    assert_eq!(env.suggest_name("lenght").as_deref(), Some("length"));
    assert_eq!(env.suggest_name("qqqqqqq"), None);
}

#[test]
fn a_module_frame_hides_and_gives_back_what_it_covers() {
    let mut env = new_env();
    env.define("x", mono(Ty(1)));
    env.push_module_frame();
    env.define("y", mono(Ty(3)));
    env.pop_module_frame();
    assert_eq!(env.lookup("x").unwrap().ty, Ty(1));
}

#[test]
fn docs_are_kept_by_name() {
    let mut env = new_env();
    env.store_doc("f", "What f does.".to_string());
    assert_eq!(env.lookup_doc("f").as_deref(), Some("What f does."));
    assert_eq!(env.lookup_doc("g"), None);
}
