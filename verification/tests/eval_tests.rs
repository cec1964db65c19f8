use agent_safe_spl::env::{Bindings, Env, StubCallbacks};
use agent_safe_spl::parser::parse;
use agent_safe_spl::facade::verify;
use agent_safe_spl::types::{Decimal, Node};

fn make_env() -> Env<StubCallbacks> {
    let mut req = Bindings::new();
    req.insert("actor_pub".into(), Node::Str("K_ai".into()));
    req.insert("action".into(), Node::Str("payments.create".into()));
    req.insert("recipient".into(), Node::Str("niece@example.com".into()));
    req.insert("purpose".into(), Node::Str("giftcard".into()));
    req.insert("amount".into(), Node::Number(Decimal::new(50, 0)));
    req.insert("day".into(), Node::Str("2025-09-29".into()));
    req.insert("device_attested".into(), Node::Bool(true));

    let mut vars = Bindings::new();
    vars.insert(
        "allowed_recipients".into(),
        Node::List(vec![
            Node::Str("niece@example.com".into()),
            Node::Str("mom@example.com".into()),
        ]),
    );
    vars.insert("now".into(), Node::Str("2025-10-01T00:00:00Z".into()));

    Env {
        req,
        vars,
        crypto: StubCallbacks { dpop: true, merkle: false, vrf: false, thresh: true, count: 0 },
        max_gas: 10_000,
        sealed: false,
        strict: false,
    }
}

fn eval_expr(src: &str, env: Env<StubCallbacks>) -> Result<bool, String> {
    let ast = parse(src).map_err(|e| e.0)?;
    let result = verify(&ast, &env).map_err(|e| e.0)?;
    Ok(result.allow)
}

#[test]
fn test_and_true() {
    assert!(eval_expr("(and #t #t #t)", make_env()).unwrap());
}

#[test]
fn test_and_false() {
    assert!(!eval_expr("(and #t #f #t)", make_env()).unwrap());
}

#[test]
fn test_or_true() {
    assert!(eval_expr("(or #f #t #f)", make_env()).unwrap());
}

#[test]
fn test_or_false() {
    assert!(!eval_expr("(or #f #f)", make_env()).unwrap());
}

#[test]
fn test_not() {
    assert!(eval_expr("(not #f)", make_env()).unwrap());
    assert!(!eval_expr("(not #t)", make_env()).unwrap());
}

#[test]
fn test_equal() {
    assert!(eval_expr(r#"(= "hello" "hello")"#, make_env()).unwrap());
    assert!(!eval_expr(r#"(= "hello" "world")"#, make_env()).unwrap());
}

#[test]
fn test_less_equal() {
    assert!(eval_expr("(<= 5 10)", make_env()).unwrap());
    assert!(eval_expr("(<= 10 10)", make_env()).unwrap());
    assert!(!eval_expr("(<= 11 10)", make_env()).unwrap());
}

#[test]
fn test_less_than() {
    assert!(eval_expr("(< 5 10)", make_env()).unwrap());
    assert!(!eval_expr("(< 5 5)", make_env()).unwrap());
}

#[test]
fn test_greater_equal() {
    assert!(eval_expr("(>= 10 10)", make_env()).unwrap());
    assert!(!eval_expr("(>= 9 10)", make_env()).unwrap());
}

#[test]
fn test_greater_than() {
    assert!(eval_expr("(> 10 5)", make_env()).unwrap());
    assert!(!eval_expr("(> 5 5)", make_env()).unwrap());
}

#[test]
fn test_member() {
    assert!(eval_expr(
        r#"(member "niece@example.com" allowed_recipients)"#,
        make_env()
    ).unwrap());
    assert!(!eval_expr(
        r#"(member "stranger@example.com" allowed_recipients)"#,
        make_env()
    ).unwrap());
}

#[test]
fn test_in_alias() {
    assert!(eval_expr(
        r#"(in "mom@example.com" allowed_recipients)"#,
        make_env()
    ).unwrap());
}

#[test]
fn test_subset() {
    let mut env = make_env();
    env.vars.insert(
        "small".into(),
        Node::List(vec![Node::Str("a".into()), Node::Str("b".into())]),
    );
    env.vars.insert(
        "big".into(),
        Node::List(vec![
            Node::Str("a".into()),
            Node::Str("b".into()),
            Node::Str("c".into()),
        ]),
    );
    assert!(eval_expr("(subset? small big)", env).unwrap());
}

#[test]
fn test_before() {
    assert!(eval_expr(
        r#"(before now "2026-01-01T00:00:00Z")"#,
        make_env()
    ).unwrap());
    assert!(!eval_expr(
        r#"(before now "2025-01-01T00:00:00Z")"#,
        make_env()
    ).unwrap());
}

#[test]
fn test_get() {
    assert!(eval_expr(
        r#"(= (get req "actor_pub") "K_ai")"#,
        make_env()
    ).unwrap());
}

#[test]
fn test_crypto_stubs() {
    assert!(eval_expr("(dpop_ok?)", make_env()).unwrap());
    assert!(eval_expr("(thresh_ok?)", make_env()).unwrap());
}

#[test]
fn test_unknown_op() {
    assert!(eval_expr("(bogus 1 2)", make_env()).is_err());
}

#[test]
fn test_gas_budget_exceeded() {
    let mut env = make_env();
    env.max_gas = 3;
    let result = eval_expr("(and #t #t #t #t #t #t #t #t)", env);
    assert!(result.is_err());
    assert!(result.unwrap_err().contains("gas budget exceeded"));
}

#[test]
fn test_gas_budget_sufficient() {
    let mut env = make_env();
    env.max_gas = 100;
    assert!(eval_expr("(and #t #t)", env).unwrap());
}

#[test]
fn test_unknown_op_message() {
    let err = eval_expr("(bogus 1 2)", make_env()).unwrap_err();
    assert_eq!(err, "Unknown op: bogus");
}

#[test]
fn test_operator_shape() {
    let err = eval_expr("(1 2)", make_env()).unwrap_err();
    assert_eq!(err, "operator must be a symbol");
}

#[test]
fn test_arity_error() {
    let err = eval_expr("(not)", make_env()).unwrap_err();
    assert_eq!(err, "operator is missing arguments");
}

#[test]
fn test_depth_limit() {
    let mut src = String::new();
    for _ in 0..70 {
        src.push_str("(not ");
    }
    src.push_str("#t");
    for _ in 0..70 {
        src.push(')');
    }
    let err = eval_expr(&src, make_env()).unwrap_err();
    assert_eq!(err, "max nesting depth exceeded");
}

#[test]
fn test_sealed_env() {
    let mut env = make_env();
    env.sealed = true;
    let err = eval_expr("#t", env).unwrap_err();
    assert_eq!(err, "token is sealed and cannot be attenuated");
}

#[test]
fn test_empty_list_is_nil() {
    // an empty list evaluates to Nil, which is not truthy
    assert!(!eval_expr("()", make_env()).unwrap());
}

#[test]
fn test_symbol_resolves_to_itself() {
    // an unbound symbol denotes itself; symbols are truthy
    assert!(eval_expr("unbound_name", make_env()).unwrap());
}

#[test]
fn test_numeric_coercion() {
    // non-numbers coerce to zero in comparisons
    assert!(eval_expr(r#"(< "a" 1)"#, make_env()).unwrap());
    assert!(!eval_expr(r#"(< "a" 0)"#, make_env()).unwrap());
}

#[test]
fn test_str_symbol_equality() {
    // strings and symbols of the same text compare equal
    assert!(eval_expr(r#"(= (get req "recipient") "niece@example.com")"#, make_env()).unwrap());
    assert!(eval_expr(r#"(= "abc" abc)"#, make_env()).unwrap());
}

#[test]
fn test_decimal_comparison() {
    assert!(eval_expr("(<= 2.50 2.5)", make_env()).unwrap());
    assert!(eval_expr("(>= 2.50 2.5)", make_env()).unwrap());
    assert!(eval_expr("(< 2.49 2.5)", make_env()).unwrap());
    assert!(eval_expr("(> -1 -1.5)", make_env()).unwrap());
}

#[test]
fn test_per_day_count() {
    let mut env = make_env();
    env.crypto.count = 5;
    assert!(eval_expr(r#"(= (per-day-count "payments" "2025-09-29") 5)"#, env).unwrap());
    let mut env2 = make_env();
    env2.crypto.count = 5;
    assert!(eval_expr(r#"(< (per-day-count "payments" "2025-09-29") 10)"#, env2).unwrap());
}

#[test]
fn test_tuple_builds_list() {
    assert!(eval_expr(r#"(member "b" (tuple "a" "b"))"#, make_env()).unwrap());
    assert!(!eval_expr(r#"(member "c" (tuple "a" "b"))"#, make_env()).unwrap());
}

#[test]
fn test_and_short_circuit_gas() {
    // the arguments past the decisive #f are never evaluated: with gas for
    // only the list node and the first argument, evaluation still finishes
    let mut env = make_env();
    env.max_gas = 2;
    assert!(!eval_expr("(and #f #t #t #t #t #t)", env).unwrap());
}

#[test]
fn test_or_short_circuit_gas() {
    let mut env = make_env();
    env.max_gas = 2;
    assert!(eval_expr("(or #t #f #f #f #f)", env).unwrap());
}

#[test]
fn test_gas_boundary_exact() {
    // (= 1 2) costs exactly three entered nodes
    let mut env = make_env();
    env.max_gas = 3;
    assert!(!eval_expr("(= 1 2)", env).unwrap());
    let mut env2 = make_env();
    env2.max_gas = 2;
    let err = eval_expr("(= 1 2)", env2).unwrap_err();
    assert_eq!(err, "gas budget exceeded");
}

#[test]
fn test_subset_reflexive_and_transitive() {
    let mut env = make_env();
    env.vars.insert(
        "l1".into(),
        Node::List(vec![Node::Str("a".into()), Node::Str("b".into())]),
    );
    env.vars.insert(
        "l2".into(),
        Node::List(vec![
            Node::Str("b".into()),
            Node::Str("a".into()),
            Node::Str("c".into()),
        ]),
    );
    env.vars.insert(
        "l3".into(),
        Node::List(vec![
            Node::Str("c".into()),
            Node::Str("b".into()),
            Node::Str("a".into()),
            Node::Str("d".into()),
        ]),
    );
    assert!(eval_expr("(subset? l1 l1)", make_env_with(&env)).unwrap());
    assert!(eval_expr("(subset? l1 l2)", make_env_with(&env)).unwrap());
    assert!(eval_expr("(subset? l2 l3)", make_env_with(&env)).unwrap());
    assert!(eval_expr("(subset? l1 l3)", make_env_with(&env)).unwrap());
}

fn make_env_with(src: &Env<StubCallbacks>) -> Env<StubCallbacks> {
    let mut env = make_env();
    for (k, v) in &src.vars.entries {
        env.vars.insert(k.clone(), v.duplicate());
    }
    env
}

#[test]
fn test_member_agrees_with_singleton_subset() {
    for text in ["a", "b", "zz"] {
        let m = eval_expr(
            &format!(r#"(member "{text}" (tuple "a" "b"))"#),
            make_env(),
        )
        .unwrap();
        let s = eval_expr(
            &format!(r#"(subset? (tuple "{text}") (tuple "a" "b"))"#),
            make_env(),
        )
        .unwrap();
        assert_eq!(m, s);
    }
}

#[test]
fn test_gas_boundary_scenario() {
    // the same eight-argument conjunction that exhausts a budget of three
    // completes under a budget of one hundred
    let mut env = make_env();
    env.max_gas = 100;
    assert!(eval_expr("(and #t #t #t #t #t #t #t #t)", env).unwrap());
}

#[test]
fn test_merkle_op_uses_hook() {
    let mut env = make_env();
    env.crypto.merkle = true;
    assert!(eval_expr(r#"(merkle_ok? "leaf" "proof")"#, env).unwrap());
    let mut env2 = make_env();
    env2.crypto.merkle = false;
    assert!(!eval_expr(r#"(merkle_ok? "leaf" "proof")"#, env2).unwrap());
}

#[test]
fn test_vrf_op_uses_hook() {
    let mut env = make_env();
    env.crypto.vrf = true;
    assert!(eval_expr(r#"(vrf_ok? "2025-09-29" 50)"#, env).unwrap());
    let mut env2 = make_env();
    env2.crypto.vrf = false;
    assert!(!eval_expr(r#"(vrf_ok? "2025-09-29" 50)"#, env2).unwrap());
}

#[test]
fn test_get_non_req_is_nil() {
    // get on anything but the literal symbol req yields Nil, which is not
    // truthy
    assert!(!eval_expr(r#"(get other "actor_pub")"#, make_env()).unwrap());
    assert!(!eval_expr(r#"(get req missing_key_symbol)"#, make_env()).unwrap());
    assert!(!eval_expr(r#"(get req "no_such_field")"#, make_env()).unwrap());
}

#[test]
fn test_number_equality_by_value() {
    // numbers compare as values: scale does not matter
    assert!(eval_expr("(= 2.5 2.50)", make_env()).unwrap());
    assert!(eval_expr("(= 1 1.0)", make_env()).unwrap());
    assert!(eval_expr("(= 0 0.00)", make_env()).unwrap());
    assert!(!eval_expr("(= 2.5 2.51)", make_env()).unwrap());
    // a number against a string still compares by rendering
    assert!(eval_expr(r#"(= 2.5 "2.5")"#, make_env()).unwrap());
    assert!(!eval_expr(r#"(= 2.50 "2.5")"#, make_env()).unwrap());
}

#[test]
fn test_bare_req_resolves_like_any_name() {
    // a bare req in value position resolves through vars or to itself
    assert!(eval_expr(r#"(= req "req")"#, make_env()).unwrap());
    let mut env = make_env();
    env.vars.insert("req".into(), Node::Str("bound".into()));
    assert!(eval_expr(r#"(= req "bound")"#, env).unwrap());
}
