use agent_safe_spl::env::Bindings;
use agent_safe_spl::token::{
    create_presentation_signature, mint, signing_payload, verify_token, verify_token_with_pop,
    MintOptions,
};
use agent_safe_spl::types::Node;

fn request() -> Bindings {
    let mut req = Bindings::new();
    req.insert("action".into(), Node::Str("payments.create".into()));
    req.insert("actor_pub".into(), Node::Str("K_ai".into()));
    req
}

#[test]
fn signing_payload_layout() {
    let payload = signing_payload(
        "  (and #t)  ",
        &Some("aa".to_string()),
        &None,
        true,
        &Some("2026-01-01".to_string()),
    );
    assert_eq!(payload, b"(and #t)\0aa\0\x001\x002026-01-01".to_vec());
    let payload2 = signing_payload("p", &None, &None, false, &None);
    assert_eq!(payload2, b"p\0\0\x000\0".to_vec());
}

#[test]
fn mint_and_verify_round_trip() {
    let (_public, secret) = agent_safe_spl::generate_keypair().unwrap();
    let policy = r#"(= (get req "action") "payments.create")"#;
    let token = mint(policy, &secret, MintOptions::default()).unwrap();
    assert_eq!(token.version, "0.1.0");
    assert_eq!(token.policy, policy);

    let r = verify_token(&token, request(), Bindings::new());
    assert!(r.allow);
    assert!(r.error.is_none());

    let mut other = Bindings::new();
    other.insert("action".into(), Node::Str("payments.delete".into()));
    let r2 = verify_token(&token, other, Bindings::new());
    assert!(!r2.allow);
    assert!(r2.error.is_none());
}

#[test]
fn tampering_invalidates_signature() {
    let (_public, secret) = agent_safe_spl::generate_keypair().unwrap();
    let policy = r#"(= (get req "action") "payments.create")"#;
    let token = mint(policy, &secret, MintOptions::default()).unwrap();

    let mut t = token.clone();
    t.policy = r#"(= (get req "action") "payments.delete")"#.into();
    assert_eq!(verify_token(&t, request(), Bindings::new()).error.unwrap(), "invalid signature");

    let mut t = token.clone();
    t.sealed = true;
    let r = verify_token(&t, request(), Bindings::new());
    assert!(!r.allow);
    assert!(r.sealed);
    assert_eq!(r.error.unwrap(), "invalid signature");

    let mut t = token.clone();
    t.expires = Some("2026-01-01".into());
    assert_eq!(verify_token(&t, request(), Bindings::new()).error.unwrap(), "invalid signature");

    let mut t = token.clone();
    t.merkle_root = Some("00".into());
    assert_eq!(verify_token(&t, request(), Bindings::new()).error.unwrap(), "invalid signature");

    let mut t = token.clone();
    t.hash_chain_commitment = Some("11".into());
    assert_eq!(verify_token(&t, request(), Bindings::new()).error.unwrap(), "invalid signature");

    let mut t = token.clone();
    let mut sig = t.signature.clone();
    let flipped = if sig.starts_with('0') { "1" } else { "0" };
    sig.replace_range(0..1, flipped);
    t.signature = sig;
    assert_eq!(verify_token(&t, request(), Bindings::new()).error.unwrap(), "invalid signature");

    let mut t = token.clone();
    let mut pk = t.public_key.clone();
    let flipped = if pk.starts_with('0') { "1" } else { "0" };
    pk.replace_range(0..1, flipped);
    t.public_key = pk;
    assert_eq!(verify_token(&t, request(), Bindings::new()).error.unwrap(), "invalid signature");
}

#[test]
fn mint_rejects_bad_keys() {
    assert_eq!(
        mint("#t", "zz!", MintOptions::default()).unwrap_err().0,
        "invalid private key hex"
    );
    assert_eq!(
        mint("#t", "aabb", MintOptions::default()).unwrap_err().0,
        "private key must be 32 bytes"
    );
}

#[test]
fn pop_binding_requires_presentation() {
    let (_ip, issuer_secret) = agent_safe_spl::generate_keypair().unwrap();
    let (agent_public, agent_secret) = agent_safe_spl::generate_keypair().unwrap();

    let opts = MintOptions { pop_key: Some(agent_public.clone()), ..MintOptions::default() };
    let token = mint("#t", &issuer_secret, opts).unwrap();

    // without a presentation signature: the PoP error
    let r = verify_token(&token, Bindings::new(), Bindings::new());
    assert!(!r.allow);
    assert_eq!(r.error.unwrap(), "PoP binding requires presentation signature");

    // with a valid presentation signature, verification proceeds to the policy
    let pres = create_presentation_signature(&token, &agent_secret).unwrap();
    let r2 = verify_token_with_pop(&token, Bindings::new(), Bindings::new(), Some(&pres));
    assert!(r2.allow);
    assert!(r2.error.is_none());

    // with a signature from the wrong key: the PoP failure
    let (_x, other_secret) = agent_safe_spl::generate_keypair().unwrap();
    let bad = create_presentation_signature(&token, &other_secret).unwrap();
    let r3 = verify_token_with_pop(&token, Bindings::new(), Bindings::new(), Some(&bad));
    assert!(!r3.allow);
    assert_eq!(r3.error.unwrap(), "invalid presentation signature");
}

#[test]
fn verify_token_surfaces_parse_and_eval_errors() {
    let (_p, secret) = agent_safe_spl::generate_keypair().unwrap();
    let token = mint("(and #t", &secret, MintOptions::default()).unwrap();
    let r = verify_token(&token, Bindings::new(), Bindings::new());
    assert!(!r.allow);
    assert_eq!(r.error.unwrap(), "parse error: unterminated (");

    let token2 = mint("(bogus)", &secret, MintOptions::default()).unwrap();
    let r2 = verify_token(&token2, Bindings::new(), Bindings::new());
    assert!(!r2.allow);
    assert_eq!(r2.error.unwrap(), "Unknown op: bogus");
}

#[test]
fn sealed_flag_returned_not_enforced() {
    let (_p, secret) = agent_safe_spl::generate_keypair().unwrap();
    let opts = MintOptions { sealed: true, ..MintOptions::default() };
    let token = mint("#t", &secret, opts).unwrap();
    let r = verify_token(&token, Bindings::new(), Bindings::new());
    // the envelope's sealed flag is returned to the caller; the policy still
    // evaluates
    assert!(r.allow);
    assert!(r.sealed);
    assert!(r.error.is_none());
}

#[test]
fn presentation_signature_rejects_bad_keys() {
    let (_p, secret) = agent_safe_spl::generate_keypair().unwrap();
    let token = mint("#t", &secret, MintOptions::default()).unwrap();
    assert_eq!(
        create_presentation_signature(&token, "qq").unwrap_err().0,
        "invalid agent private key hex"
    );
    assert_eq!(
        create_presentation_signature(&token, "aabb").unwrap_err().0,
        "agent private key must be 32 bytes"
    );
}
