//! The token envelope: the canonical signing payload, minting,
//! proof-of-possession signatures, and token verification.
use vstd::prelude::*;

use crate::crypto::{
    ed25519_pub_of_seed, ed25519_public_key, ed25519_sig_of, ed25519_sign, ed25519_verifies,
    hex_decode, hex_decode_spec, hex_encode, hex_of, sha256, sha256_of, valid_hex,
    verify_ed25519,
};
use crate::env::{Bindings, CryptoCallbacks, Env, EnvModel, StubCallbacks};
use crate::evaluator::{err_msg, eval_policy, spec_eval_policy};
use crate::parser::{parse, parse_msg, parse_spec, trim_spec};
use crate::types::{truthy, Node, SplError};

verus! {

/// A signed capability token.
#[derive(Debug, Clone)]
pub struct Token {
    pub version: String,
    /// The policy source, trimmed.
    pub policy: String,
    pub merkle_root: Option<String>,
    pub hash_chain_commitment: Option<String>,
    pub sealed: bool,
    pub expires: Option<String>,
    /// Issuer public key, hex.
    pub public_key: String,
    /// Ed25519 signature over the signing payload, hex.
    pub signature: String,
    /// Holder key for proof-of-possession binding, hex, if bound.
    pub pop_key: Option<String>,
}

/// Options for minting a token.
#[derive(Debug, Default)]
pub struct MintOptions {
    pub merkle_root: Option<String>,
    pub hash_chain_commitment: Option<String>,
    pub sealed: bool,
    pub expires: Option<String>,
    pub pop_key: Option<String>,
}

/// The text of an optional field: the empty text when absent.
pub open spec fn opt_text(o: Option<String>) -> Seq<char> {
    match o {
        Some(s) => s@,
        None => Seq::empty(),
    }
}

/// The canonical signing payload: the five covered fields, UTF-8 encoded,
/// joined by single NUL bytes — trimmed policy, Merkle root, hash-chain
/// commitment, `1`/`0` for the sealed flag, and expiry.
pub open spec fn payload_spec(
    policy: Seq<char>,
    merkle_root: Seq<char>,
    hash_chain_commitment: Seq<char>,
    sealed: bool,
    expires: Seq<char>,
) -> Seq<u8> {
    vstd::utf8::encode_utf8(trim_spec(policy)) + seq![0u8] + vstd::utf8::encode_utf8(merkle_root)
        + seq![0u8] + vstd::utf8::encode_utf8(hash_chain_commitment) + seq![0u8] + (if sealed {
        vstd::utf8::encode_utf8("1"@)
    } else {
        vstd::utf8::encode_utf8("0"@)
    }) + seq![0u8] + vstd::utf8::encode_utf8(expires)
}

/// The signing payload of a token's own fields.
pub open spec fn token_payload(t: Token) -> Seq<u8> {
    payload_spec(
        t.policy@,
        opt_text(t.merkle_root),
        opt_text(t.hash_chain_commitment),
        t.sealed,
        opt_text(t.expires),
    )
}

/// The signing payload is a pure function of the covered fields — that is
/// what [`payload_spec`] states — and it covers the sealed flag: flipping it
/// always changes the payload, as the byte standing for the flag differs.
pub proof fn lemma_payload_covers_sealed(
    policy: Seq<char>,
    merkle_root: Seq<char>,
    hash_chain_commitment: Seq<char>,
    expires: Seq<char>,
)
    ensures
        payload_spec(policy, merkle_root, hash_chain_commitment, true, expires) != payload_spec(
            policy,
            merkle_root,
            hash_chain_commitment,
            false,
            expires,
        ),
{
    let pre = vstd::utf8::encode_utf8(trim_spec(policy)) + seq![0u8] + vstd::utf8::encode_utf8(
        merkle_root,
    ) + seq![0u8] + vstd::utf8::encode_utf8(hash_chain_commitment) + seq![0u8];
    let p1 = payload_spec(policy, merkle_root, hash_chain_commitment, true, expires);
    let p0 = payload_spec(policy, merkle_root, hash_chain_commitment, false, expires);
    assert(vstd::utf8::encode_utf8("1"@) =~= seq![49u8]) by {
        reveal_strlit("1");
        reveal_with_fuel(vstd::utf8::encode_utf8, 3);
        assert("1"@.len() == 1);
        assert("1"@[0] == '1');
        assert("1"@.drop_first().len() == 0);
        assert(vstd::utf8::encode_utf8("1"@.drop_first()) =~= Seq::<u8>::empty());
        assert('1' as u32 == 49);
        assert(49u32 & 0x7F == 49) by (bit_vector);
        assert(vstd::utf8::leading_byte_width_1('1' as u32) == 49u8);
        assert(vstd::utf8::encode_scalar('1' as u32) =~= seq![49u8]);
    }
    assert(vstd::utf8::encode_utf8("0"@) =~= seq![48u8]) by {
        reveal_strlit("0");
        reveal_with_fuel(vstd::utf8::encode_utf8, 3);
        assert("0"@.len() == 1);
        assert("0"@[0] == '0');
        assert("0"@.drop_first().len() == 0);
        assert(vstd::utf8::encode_utf8("0"@.drop_first()) =~= Seq::<u8>::empty());
        assert('0' as u32 == 48);
        assert(48u32 & 0x7F == 48) by (bit_vector);
        assert(vstd::utf8::leading_byte_width_1('0' as u32) == 48u8);
        assert(vstd::utf8::encode_scalar('0' as u32) =~= seq![48u8]);
    }
    assert(p1[pre.len() as int] == 49);
    assert(p0[pre.len() as int] == 48);
}

fn extend_bytes(out: &mut Vec<u8>, more: &[u8])
    ensures
        final(out)@ == old(out)@ + more@,
{
    let n = more.len();
    let mut i: usize = 0;
    while i < n
        invariant
            n == more@.len(),
            0 <= i <= n,
            out@ =~= old(out)@ + more@.take(i as int),
        decreases n - i,
    {
        out.push(more[i]);
        i += 1;
    }
    proof {
        assert(old(out)@ + more@.take(n as int) =~= old(out)@ + more@);
    }
}

/// Builds the canonical signing payload for a token's covered fields.
pub fn signing_payload(
    policy: &str,
    merkle_root: &Option<String>,
    hash_chain_commitment: &Option<String>,
    sealed: bool,
    expires: &Option<String>,
) -> (r: Vec<u8>)
    ensures
        r@ == payload_spec(
            policy@,
            opt_text(*merkle_root),
            opt_text(*hash_chain_commitment),
            sealed,
            opt_text(*expires),
        ),
{
    let trimmed = crate::parser::trim_ws(policy);
    let mut out: Vec<u8> = Vec::new();
    extend_bytes(&mut out, trimmed.as_bytes());
    out.push(0);
    match merkle_root {
        Some(s) => extend_bytes(&mut out, s.as_str().as_bytes()),
        None => {
            proof {
                assert(vstd::utf8::encode_utf8(Seq::<char>::empty()).len() == 0);
            }
        }
    }
    out.push(0);
    match hash_chain_commitment {
        Some(s) => extend_bytes(&mut out, s.as_str().as_bytes()),
        None => {}
    }
    out.push(0);
    if sealed {
        extend_bytes(&mut out, "1".as_bytes());
    } else {
        extend_bytes(&mut out, "0".as_bytes());
    }
    out.push(0);
    match expires {
        Some(s) => extend_bytes(&mut out, s.as_str().as_bytes()),
        None => {}
    }
    proof {
        assert(out@ =~= payload_spec(
            policy@,
            opt_text(*merkle_root),
            opt_text(*hash_chain_commitment),
            sealed,
            opt_text(*expires),
        ));
    }
    out
}

/// Mints a signed capability token: the policy is trimmed, the verifying
/// key derived from the 32-byte seed, and the canonical payload signed with
/// Ed25519. A seed that is not valid hex, or not 32 bytes, is rejected with
/// its own error.
pub fn mint(policy: &str, private_key_hex: &str, opts: MintOptions) -> (r: Result<
    Token,
    SplError,
>)
    ensures
        match r {
            Ok(t) => valid_hex(private_key_hex@) && hex_decode_spec(private_key_hex@).len() == 32
                && ({
                let seed = hex_decode_spec(private_key_hex@);
                let payload = payload_spec(
                    policy@,
                    opt_text(opts.merkle_root),
                    opt_text(opts.hash_chain_commitment),
                    opts.sealed,
                    opt_text(opts.expires),
                );
                t.version@ == "0.1.0"@ && t.policy@ == trim_spec(policy@) && t.merkle_root
                    == opts.merkle_root && t.hash_chain_commitment == opts.hash_chain_commitment
                    && t.sealed == opts.sealed && t.expires == opts.expires && t.public_key@
                    == hex_of(ed25519_pub_of_seed(seed)) && t.signature@ == hex_of(
                    ed25519_sig_of(seed, payload),
                ) && t.pop_key == opts.pop_key
            }),
            Err(e) => (!valid_hex(private_key_hex@) && e@ == "invalid private key hex"@) || (
            valid_hex(private_key_hex@) && hex_decode_spec(private_key_hex@).len() != 32 && e@
                == "private key must be 32 bytes"@),
        },
{
    let seed = match hex_decode(private_key_hex) {
        Some(v) => v,
        None => {
            return Err(SplError(String::from_str("invalid private key hex")));
        }
    };
    if seed.len() != 32 {
        return Err(SplError(String::from_str("private key must be 32 bytes")));
    }
    let public = ed25519_public_key(seed.as_slice());
    let payload = signing_payload(
        policy,
        &opts.merkle_root,
        &opts.hash_chain_commitment,
        opts.sealed,
        &opts.expires,
    );
    let signature = ed25519_sign(seed.as_slice(), payload.as_slice());
    let trimmed = crate::parser::trim_ws(policy);
    Ok(
        Token {
            version: String::from_str("0.1.0"),
            policy: String::from_str(trimmed),
            merkle_root: opts.merkle_root,
            hash_chain_commitment: opts.hash_chain_commitment,
            sealed: opts.sealed,
            expires: opts.expires,
            public_key: hex_encode(public.as_slice()),
            signature: hex_encode(signature.as_slice()),
            pop_key: opts.pop_key,
        },
    )
}

/// Creates a proof-of-possession presentation signature: the holder signs
/// `SHA-256(signing payload)` with its own key; hex-encoded. A holder key
/// that is not valid hex, or not 32 bytes, is rejected.
pub fn create_presentation_signature(token: &Token, agent_private_key_hex: &str) -> (r: Result<
    String,
    SplError,
>)
    ensures
        match r {
            Ok(sig) => valid_hex(agent_private_key_hex@) && hex_decode_spec(
                agent_private_key_hex@,
            ).len() == 32 && sig@ == hex_of(
                ed25519_sig_of(
                    hex_decode_spec(agent_private_key_hex@),
                    sha256_of(token_payload(*token)),
                ),
            ),
            Err(e) => (!valid_hex(agent_private_key_hex@) && e@ == "invalid agent private key hex"@)
                || (valid_hex(agent_private_key_hex@) && hex_decode_spec(
                agent_private_key_hex@,
            ).len() != 32 && e@ == "agent private key must be 32 bytes"@),
        },
{
    let seed = match hex_decode(agent_private_key_hex) {
        Some(v) => v,
        None => {
            return Err(SplError(String::from_str("invalid agent private key hex")));
        }
    };
    if seed.len() != 32 {
        return Err(SplError(String::from_str("agent private key must be 32 bytes")));
    }
    let payload = signing_payload(
        token.policy.as_str(),
        &token.merkle_root,
        &token.hash_chain_commitment,
        token.sealed,
        &token.expires,
    );
    let digest = sha256(payload.as_slice());
    let sig = ed25519_sign(seed.as_slice(), digest.as_slice());
    Ok(hex_encode(sig.as_slice()))
}

/// The outcome of token verification.
pub struct VerifyTokenResult {
    pub allow: bool,
    /// The token's own sealed flag, returned for the caller to act on.
    pub sealed: bool,
    pub error: Option<String>,
}

/// The environment model a token verification evaluates under: the given
/// request and variables, stub callbacks, gas 10,000.
pub open spec fn token_env_model(req: Map<Seq<char>, crate::types::NodeView>, vars: Map<
    Seq<char>,
    crate::types::NodeView,
>) -> EnvModel {
    EnvModel {
        req,
        vars,
        hooks: (StubCallbacks { dpop: false, merkle: false, vrf: false, thresh: false, count: 0 }).model(),
    }
}

/// What token verification decides, step by step: the envelope signature
/// first, then the proof-of-possession binding, then parsing, then
/// evaluation.
pub open spec fn spec_verify_token(
    t: Token,
    req: Map<Seq<char>, crate::types::NodeView>,
    vars: Map<Seq<char>, crate::types::NodeView>,
    pres: Option<Seq<char>>,
) -> (bool, Option<Seq<char>>) {
    let payload = token_payload(t);
    if !(valid_hex(t.signature@) && valid_hex(t.public_key@) && ed25519_verifies(
        payload,
        hex_decode_spec(t.signature@),
        hex_decode_spec(t.public_key@),
    )) {
        (false, Some("invalid signature"@))
    } else if t.pop_key is Some && pres is None {
        (false, Some("PoP binding requires presentation signature"@))
    } else if t.pop_key matches Some(pk) && pres matches Some(ps) && !(valid_hex(ps)
        && valid_hex(pk@) && ed25519_verifies(
        sha256_of(payload),
        hex_decode_spec(ps),
        hex_decode_spec(pk@),
    )) {
        (false, Some("invalid presentation signature"@))
    } else {
        match parse_spec(t.policy@) {
            Err(pe) => (false, Some("parse error: "@ + parse_msg(pe))),
            Ok(ast) => {
                let o = spec_eval_policy(ast, token_env_model(req, vars), 10000);
                match o.res {
                    Ok(v) => (truthy(v), None),
                    Err(e) => (false, Some(err_msg(e))),
                }
            },
        }
    }
}

/// Verifies a token's signature and evaluates its policy; a token without
/// proof-of-possession binding needs no presentation signature.
pub fn verify_token(token: &Token, req: Bindings, vars: Bindings) -> (r: VerifyTokenResult)
    requires
        req.wf(),
        vars.wf(),
    ensures
        r.sealed == token.sealed,
        ({
            let o = spec_verify_token(*token, req@, vars@, None);
            r.allow == o.0 && (match (r.error, o.1) {
                (Some(m), Some(sm)) => m@ == sm,
                (None, None) => true,
                _ => false,
            })
        }),
{
    verify_token_with_pop(token, req, vars, None)
}

/// Verifies a token, checking its proof-of-possession binding against the
/// presentation signature when the token carries a holder key.
pub fn verify_token_with_pop(
    token: &Token,
    req: Bindings,
    vars: Bindings,
    presentation_signature: Option<&str>,
) -> (r: VerifyTokenResult)
    requires
        req.wf(),
        vars.wf(),
    ensures
        r.sealed == token.sealed,
        ({
            let o = spec_verify_token(
                *token,
                req@,
                vars@,
                match presentation_signature {
                    Some(s) => Some(s@),
                    None => None,
                },
            );
            r.allow == o.0 && (match (r.error, o.1) {
                (Some(m), Some(sm)) => m@ == sm,
                (None, None) => true,
                _ => false,
            })
        }),
{
    let payload = signing_payload(
        token.policy.as_str(),
        &token.merkle_root,
        &token.hash_chain_commitment,
        token.sealed,
        &token.expires,
    );
    if !verify_ed25519(
        payload.as_slice(),
        token.signature.as_str(),
        token.public_key.as_str(),
    ) {
        return VerifyTokenResult {
            allow: false,
            sealed: token.sealed,
            error: Some(String::from_str("invalid signature")),
        };
    }
    match &token.pop_key {
        Some(pop_key) => {
            match presentation_signature {
                None => {
                    return VerifyTokenResult {
                        allow: false,
                        sealed: token.sealed,
                        error: Some(
                            String::from_str("PoP binding requires presentation signature"),
                        ),
                    };
                }
                Some(pres_sig) => {
                    let digest = sha256(payload.as_slice());
                    if !verify_ed25519(digest.as_slice(), pres_sig, pop_key.as_str()) {
                        return VerifyTokenResult {
                            allow: false,
                            sealed: token.sealed,
                            error: Some(String::from_str("invalid presentation signature")),
                        };
                    }
                }
            }
        }
        None => {}
    }
    let ast = match parse(token.policy.as_str()) {
        Ok(ast) => ast,
        Err(e) => {
            let mut msg = String::from_str("parse error: ");
            msg.append(e.message().as_str());
            return VerifyTokenResult {
                allow: false,
                sealed: token.sealed,
                error: Some(msg),
            };
        }
    };
    let env = Env {
        req,
        vars,
        crypto: StubCallbacks { dpop: false, merkle: false, vrf: false, thresh: false, count: 0 },
        max_gas: 10000,
        sealed: false,
        strict: false,
    };
    match eval_policy(&ast, &env) {
        Ok(result) => VerifyTokenResult {
            allow: result.is_truthy(),
            sealed: token.sealed,
            error: None,
        },
        Err(e) => VerifyTokenResult {
            allow: false,
            sealed: token.sealed,
            error: Some(e.0),
        },
    }
}

} // verus!
