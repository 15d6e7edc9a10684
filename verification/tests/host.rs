use scarlet::vm::float::text;
use scarlet::vm::host::Host;

#[test]
fn a_float_always_shows_a_point() {
    assert_eq!(text(1.0f64.to_string()), "1.0");
    assert_eq!(text((-0.0f64).to_string()), "-0.0");
    assert_eq!(text(1.5f64.to_string()), "1.5");
    assert_eq!(text((0.1f64 + 0.2f64).to_string()), "0.30000000000000004");
    assert_eq!(text(1e21f64.to_string()), "1000000000000000000000.0");
}

#[test]
fn an_exponent_needs_no_point() {
    assert_eq!(text("1e300".to_string()), "1e300");
    assert_eq!(text("1E-7".to_string()), "1E-7");
    assert_eq!(text(String::new()), ".0");
}

#[test]
fn a_world_is_what_it_was_made_with() {
    let argv = vec!["main.scl".to_string(), "-v".to_string()];
    let env = vec![("HOME".to_string(), "/root".to_string())];
    let host = Host::new(argv.clone(), env.clone());
    assert_eq!(host.argv(), &argv);
    assert_eq!(host.env(), &env);
}

#[test]
fn a_variable_that_is_not_text_is_left_out() {
    let some = |s: &str| Some(s.to_string());
    let vars = vec![
        (some("A"), some("1")),
        (some("B"), None),
        (None, some("2")),
        (some("C"), some("3")),
    ];
    let host = Host::with_variables(Vec::new(), vars);
    assert_eq!(
        host.env(),
        &vec![("A".to_string(), "1".to_string()), ("C".to_string(), "3".to_string())]
    );
    assert!(host.argv().is_empty());
}
