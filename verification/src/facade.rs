//! The verifier facade: refuses sealed environments, then maps the
//! evaluation result's truthiness to an allow/deny decision.
use vstd::prelude::*;

use crate::env::{CryptoCallbacks, Env};
use crate::evaluator::{err_msg, eval_policy, spec_eval_policy};
use crate::types::{truthy, wf_view, Node, SplError};

verus! {

/// The decision of one policy evaluation.
pub struct VerifyResult {
    pub allow: bool,
    /// Reserved for future policy outputs; always empty.
    pub obligations: Vec<String>,
}

/// Evaluates a policy AST in an environment and decides ALLOW or DENY.
///
/// A sealed environment is refused outright with its own error, before any
/// evaluation. Otherwise the decision is exactly the truthiness of the value
/// the interpreter denotes, and an evaluation error surfaces unchanged.
pub fn verify<C: CryptoCallbacks>(ast: &Node, env: &Env<C>) -> (r: Result<VerifyResult, SplError>)
    requires
        wf_view(ast@),
        env.wf(),
    ensures
        env.sealed ==> r is Err && r->Err_0@ == "token is sealed and cannot be attenuated"@,
        !env.sealed ==> ({
            let o = spec_eval_policy(ast@, env.model(), env.max_gas as int);
            match r {
                Ok(v) => o.res is Ok && v.allow == truthy(o.res->Ok_0)
                    && v.obligations@.len() == 0,
                Err(e) => o.res is Err && e@ == err_msg(o.res->Err_0),
            }
        }),
{
    if env.sealed {
        return Err(SplError(String::from_str("token is sealed and cannot be attenuated")));
    }
    match eval_policy(ast, env) {
        Err(e) => Err(e),
        Ok(v) => Ok(VerifyResult { allow: v.is_truthy(), obligations: Vec::new() }),
    }
}

} // verus!
