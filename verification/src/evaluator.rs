//! The bounded interpreter: a recursive-descent evaluator with a gas budget
//! and a recursion-depth limit.
//!
//! The semantics is given by the spec-level interpreter [`eval_node`]:
//! entering any node when the remaining gas is exhausted fails with the gas
//! error; entering a node beyond nesting depth 64 fails with the depth error;
//! otherwise literals return themselves, symbols resolve against the
//! environment, and a non-empty list applies the operator named by its head
//! to the remaining elements, evaluating arguments left to right. The
//! executable evaluator returns exactly what the spec interpreter denotes.
use vstd::prelude::*;

use crate::env::{CryptoCallbacks, Env, EnvModel};
use crate::render::{plain_of, spec_node_eq};
use crate::text::lex_lt;
use crate::types::{
    dec_cmp, num_le, num_lt, pow10, truthy, view_of_nodes, wf_view, Decimal, Node, NodeView,
    SplError,
};

verus! {

/// The evaluator's error kinds.
pub enum EvalErr {
    GasExceeded,
    DepthExceeded,
    /// A list head that is not a symbol.
    OperatorShape,
    /// A list head naming no operator.
    UnknownOperator(Seq<char>),
    /// An operator given fewer arguments than it reads.
    ArityMismatch,
}

/// The diagnostic message of each evaluator error.
pub open spec fn err_msg(e: EvalErr) -> Seq<char> {
    match e {
        EvalErr::GasExceeded => "gas budget exceeded"@,
        EvalErr::DepthExceeded => "max nesting depth exceeded"@,
        EvalErr::OperatorShape => "operator must be a symbol"@,
        EvalErr::UnknownOperator(name) => "Unknown op: "@ + name,
        EvalErr::ArityMismatch => "operator is missing arguments"@,
    }
}

/// The maximum nesting depth of one evaluation.
pub open spec fn max_depth() -> int {
    64
}

/// Whether some element of `items` is policy-equal to `x`.
pub open spec fn list_contains(items: Seq<NodeView>, x: NodeView) -> bool {
    exists|j: int| 0 <= j < items.len() && spec_node_eq(items[j], x)
}

/// Whether every element of `a` has a policy-equal counterpart in `b`.
pub open spec fn list_subset(a: Seq<NodeView>, b: Seq<NodeView>) -> bool {
    forall|i: int| 0 <= i < a.len() ==> list_contains(b, #[trigger] a[i])
}

/// What a symbol in value position denotes: the boolean literals, or a
/// variable binding, an unbound name denoting itself. Every name but the
/// two literals resolves this way; operator names are special only in head
/// position.
pub open spec fn symbol_value(s: Seq<char>, env: EnvModel) -> NodeView {
    if s == "#t"@ {
        NodeView::Bool(true)
    } else if s == "#f"@ {
        NodeView::Bool(false)
    } else if env.vars.contains_key(s) {
        env.vars[s]
    } else {
        NodeView::Symbol(s)
    }
}

/// The outcome of evaluating one node: a value or an error, and the gas
/// left.
pub ghost struct EvalOut {
    pub res: Result<NodeView, EvalErr>,
    pub gas: int,
}

/// The outcome of evaluating a run of arguments left to right.
pub ghost struct ArgsOut {
    pub res: Result<Seq<NodeView>, EvalErr>,
    pub gas: int,
}

/// Evaluation of one node: gas is charged on entry, the depth limit checked,
/// then the node dispatched.
pub open spec fn eval_node(n: NodeView, env: EnvModel, gas: int, depth: int) -> EvalOut
    decreases n, 2int,
{
    if gas <= 0 {
        EvalOut { res: Err(EvalErr::GasExceeded), gas }
    } else if depth + 1 > max_depth() {
        EvalOut { res: Err(EvalErr::DepthExceeded), gas: gas - 1 }
    } else {
        eval_body(n, env, gas - 1, depth + 1)
    }
}

pub open spec fn eval_body(n: NodeView, env: EnvModel, gas: int, depth: int) -> EvalOut
    decreases n, 1int,
{
    match n {
        NodeView::List(items) => if items.len() == 0 {
            EvalOut { res: Ok(NodeView::Nil), gas }
        } else {
            match items[0] {
                NodeView::Symbol(op) => apply_op(op, items.drop_first(), env, gas, depth),
                _ => EvalOut { res: Err(EvalErr::OperatorShape), gas },
            }
        },
        NodeView::Symbol(s) => EvalOut { res: Ok(symbol_value(s, env)), gas },
        _ => EvalOut { res: Ok(n), gas },
    }
}

/// `and`: arguments evaluated left to right, stopping at the first
/// non-truthy value.
pub open spec fn eval_and(args: Seq<NodeView>, env: EnvModel, gas: int, depth: int) -> EvalOut
    decreases args, 2int,
{
    if args.len() == 0 {
        EvalOut { res: Ok(NodeView::Bool(true)), gas }
    } else {
        let r0 = eval_node(args[0], env, gas, depth);
        match r0.res {
            Err(e) => r0,
            Ok(v) => if !truthy(v) {
                EvalOut { res: Ok(NodeView::Bool(false)), gas: r0.gas }
            } else {
                eval_and(args.drop_first(), env, r0.gas, depth)
            },
        }
    }
}

/// `or`: arguments evaluated left to right, stopping at the first truthy
/// value.
pub open spec fn eval_or(args: Seq<NodeView>, env: EnvModel, gas: int, depth: int) -> EvalOut
    decreases args, 2int,
{
    if args.len() == 0 {
        EvalOut { res: Ok(NodeView::Bool(false)), gas }
    } else {
        let r0 = eval_node(args[0], env, gas, depth);
        match r0.res {
            Err(e) => r0,
            Ok(v) => if truthy(v) {
                EvalOut { res: Ok(NodeView::Bool(true)), gas: r0.gas }
            } else {
                eval_or(args.drop_first(), env, r0.gas, depth)
            },
        }
    }
}

/// All arguments evaluated left to right.
pub open spec fn eval_args(args: Seq<NodeView>, env: EnvModel, gas: int, depth: int) -> ArgsOut
    decreases args, 2int,
{
    if args.len() == 0 {
        ArgsOut { res: Ok(Seq::empty()), gas }
    } else {
        let r0 = eval_node(args[0], env, gas, depth);
        match r0.res {
            Err(e) => ArgsOut { res: Err(e), gas: r0.gas },
            Ok(v) => {
                let rest = eval_args(args.drop_first(), env, r0.gas, depth);
                match rest.res {
                    Err(e) => rest,
                    Ok(vs) => ArgsOut { res: Ok(seq![v] + vs), gas: rest.gas },
                }
            },
        }
    }
}

/// Two leading arguments evaluated left to right; further arguments are
/// ignored, as the binary operators read only their first two. Fewer than
/// two arguments is an arity error.
pub open spec fn eval_two(args: Seq<NodeView>, env: EnvModel, gas: int, depth: int) -> ArgsOut
    decreases args, 2int,
{
    if args.len() < 2 {
        ArgsOut { res: Err(EvalErr::ArityMismatch), gas }
    } else {
        let r0 = eval_node(args[0], env, gas, depth);
        match r0.res {
            Err(e) => ArgsOut { res: Err(e), gas: r0.gas },
            Ok(v0) => {
                let r1 = eval_node(args[1], env, r0.gas, depth);
                match r1.res {
                    Err(e) => ArgsOut { res: Err(e), gas: r1.gas },
                    Ok(v1) => ArgsOut { res: Ok(seq![v0, v1]), gas: r1.gas },
                }
            },
        }
    }
}

/// `get`: the key argument is evaluated; a request field is returned only
/// for the literal symbol `req` and a string key, everything else is `Nil`.
pub open spec fn get_semantics(obj: NodeView, key: NodeView, env: EnvModel) -> NodeView {
    match key {
        NodeView::Str(k) => if obj == NodeView::Symbol("req"@) {
            if env.req.contains_key(k) {
                env.req[k]
            } else {
                NodeView::Nil
            }
        } else {
            NodeView::Nil
        },
        _ => NodeView::Nil,
    }
}

/// Operator dispatch: `op` applied to the unevaluated arguments `args`.
pub open spec fn apply_op(
    op: Seq<char>,
    args: Seq<NodeView>,
    env: EnvModel,
    gas: int,
    depth: int,
) -> EvalOut
    decreases args, 3int,
{
    if op == "and"@ {
        eval_and(args, env, gas, depth)
    } else if op == "or"@ {
        eval_or(args, env, gas, depth)
    } else if op == "not"@ {
        if args.len() < 1 {
            EvalOut { res: Err(EvalErr::ArityMismatch), gas }
        } else {
            let r0 = eval_node(args[0], env, gas, depth);
            match r0.res {
                Err(e) => r0,
                Ok(v) => EvalOut { res: Ok(NodeView::Bool(!truthy(v))), gas: r0.gas },
            }
        }
    } else if op == "="@ {
        {
            let r = eval_two(args, env, gas, depth);
            match r.res {
                Err(e) => EvalOut { res: Err(e), gas: r.gas },
                Ok(vs) => EvalOut {
                    res: Ok(NodeView::Bool(spec_node_eq(vs[0], vs[1]))),
                    gas: r.gas,
                },
            }
        }
    } else if op == "<="@ || op == "<"@ || op == ">="@ || op == ">"@ {
        {
            let r = eval_two(args, env, gas, depth);
            match r.res {
                Err(e) => EvalOut { res: Err(e), gas: r.gas },
                Ok(vs) => {
                    let a = crate::types::spec_as_number(vs[0]);
                    let b = crate::types::spec_as_number(vs[1]);
                    let c = if op == "<="@ {
                        num_le(a, b)
                    } else if op == "<"@ {
                        num_lt(a, b)
                    } else if op == ">="@ {
                        num_le(b, a)
                    } else {
                        num_lt(b, a)
                    };
                    EvalOut { res: Ok(NodeView::Bool(c)), gas: r.gas }
                },
            }
        }
    } else if op == "member"@ || op == "in"@ {
        {
            let r = eval_two(args, env, gas, depth);
            match r.res {
                Err(e) => EvalOut { res: Err(e), gas: r.gas },
                Ok(vs) => {
                    let c = match vs[1] {
                        NodeView::List(items) => list_contains(items, vs[0]),
                        _ => false,
                    };
                    EvalOut { res: Ok(NodeView::Bool(c)), gas: r.gas }
                },
            }
        }
    } else if op == "subset?"@ {
        {
            let r = eval_two(args, env, gas, depth);
            match r.res {
                Err(e) => EvalOut { res: Err(e), gas: r.gas },
                Ok(vs) => {
                    let c = match (vs[0], vs[1]) {
                        (NodeView::List(a), NodeView::List(b)) => list_subset(a, b),
                        _ => false,
                    };
                    EvalOut { res: Ok(NodeView::Bool(c)), gas: r.gas }
                },
            }
        }
    } else if op == "before"@ {
        {
            let r = eval_two(args, env, gas, depth);
            match r.res {
                Err(e) => EvalOut { res: Err(e), gas: r.gas },
                Ok(vs) => EvalOut {
                    res: Ok(NodeView::Bool(lex_lt(plain_of(vs[0]), plain_of(vs[1])))),
                    gas: r.gas,
                },
            }
        }
    } else if op == "get"@ {
        if args.len() < 2 {
            EvalOut { res: Err(EvalErr::ArityMismatch), gas }
        } else {
            let r1 = eval_node(args[1], env, gas, depth);
            match r1.res {
                Err(e) => r1,
                Ok(key) => EvalOut {
                    res: Ok(get_semantics(args[0], key, env)),
                    gas: r1.gas,
                },
            }
        }
    } else if op == "tuple"@ {
        let r = eval_args(args, env, gas, depth);
        match r.res {
            Err(e) => EvalOut { res: Err(e), gas: r.gas },
            Ok(vs) => EvalOut { res: Ok(NodeView::List(vs)), gas: r.gas },
        }
    } else if op == "per-day-count"@ {
        {
            let r = eval_two(args, env, gas, depth);
            match r.res {
                Err(e) => EvalOut { res: Err(e), gas: r.gas },
                Ok(vs) => {
                    let c = (env.hooks.count)(plain_of(vs[0]), plain_of(vs[1]));
                    EvalOut { res: Ok(NodeView::Number(c, 0)), gas: r.gas }
                },
            }
        }
    } else if op == "dpop_ok?"@ {
        EvalOut { res: Ok(NodeView::Bool(env.hooks.dpop)), gas }
    } else if op == "merkle_ok?"@ {
        let r = eval_args(args, env, gas, depth);
        match r.res {
            Err(e) => EvalOut { res: Err(e), gas: r.gas },
            Ok(vs) => EvalOut { res: Ok(NodeView::Bool((env.hooks.merkle)(vs))), gas: r.gas },
        }
    } else if op == "vrf_ok?"@ {
        {
            let r = eval_two(args, env, gas, depth);
            match r.res {
                Err(e) => EvalOut { res: Err(e), gas: r.gas },
                Ok(vs) => {
                    let d = plain_of(vs[0]);
                    let a = crate::types::spec_as_number(vs[1]);
                    EvalOut { res: Ok(NodeView::Bool((env.hooks.vrf)(d, a.0, a.1))), gas: r.gas }
                },
            }
        }
    } else if op == "thresh_ok?"@ {
        EvalOut { res: Ok(NodeView::Bool(env.hooks.thresh)), gas }
    } else {
        EvalOut { res: Err(EvalErr::UnknownOperator(op)), gas }
    }
}

/// One whole evaluation: the spec interpreter started with the
/// environment's gas budget at depth zero.
pub open spec fn spec_eval_policy(n: NodeView, env: EnvModel, max_gas: int) -> EvalOut {
    eval_node(n, env, max_gas, 0)
}

/// Whether some element of `items` is policy-equal to `x`, executably.
pub fn vec_contains(items: &Vec<Node>, x: &Node) -> (r: bool)
    requires
        crate::types::wf_list(view_of_nodes(items@)),
        wf_view(x@),
    ensures
        r == list_contains(view_of_nodes(items@), x@),
{
    let ghost vs = view_of_nodes(items@);
    proof {
        crate::types::lemma_view_of_nodes(items@);
    }
    let n = items.len();
    let mut j: usize = 0;
    while j < n
        invariant
            vs == view_of_nodes(items@),
            crate::types::wf_list(vs),
            wf_view(x@),
            n == items@.len(),
            vs.len() == n,
            forall|k: int| 0 <= k < n ==> vs[k] == items@[k]@,
            0 <= j <= n,
            forall|k: int| 0 <= k < j ==> !spec_node_eq(#[trigger] vs[k], x@),
        decreases n - j,
    {
        proof {
            crate::types::lemma_wf_list_elem(vs, j as int);
        }
        if crate::render::node_eq(&items[j], x) {
            proof {
                assert(spec_node_eq(vs[j as int], x@));
            }
            return true;
        }
        j += 1;
    }
    proof {
        if list_contains(vs, x@) {
            let k = choose|k: int| 0 <= k < vs.len() && spec_node_eq(vs[k], x@);
            assert(!spec_node_eq(vs[k], x@));
        }
    }
    false
}

/// Whether every element of `a` has a policy-equal counterpart in `b`,
/// executably.
pub fn vec_subset(a: &Vec<Node>, b: &Vec<Node>) -> (r: bool)
    requires
        crate::types::wf_list(view_of_nodes(a@)),
        crate::types::wf_list(view_of_nodes(b@)),
    ensures
        r == list_subset(view_of_nodes(a@), view_of_nodes(b@)),
{
    let ghost va = view_of_nodes(a@);
    let ghost vb = view_of_nodes(b@);
    proof {
        crate::types::lemma_view_of_nodes(a@);
    }
    let n = a.len();
    let mut i: usize = 0;
    while i < n
        invariant
            va == view_of_nodes(a@),
            vb == view_of_nodes(b@),
            crate::types::wf_list(va),
            crate::types::wf_list(vb),
            n == a@.len(),
            va.len() == n,
            forall|k: int| 0 <= k < n ==> va[k] == a@[k]@,
            0 <= i <= n,
            forall|k: int| 0 <= k < i ==> list_contains(vb, #[trigger] va[k]),
        decreases n - i,
    {
        proof {
            crate::types::lemma_wf_list_elem(va, i as int);
        }
        if !vec_contains(b, &a[i]) {
            assert(!list_contains(vb, va[i as int]));
            return false;
        }
        i += 1;
    }
    true
}

/// Gas and depth counters of one evaluation.
pub(crate) struct EvalState {
    pub gas: i64,
    pub depth: i64,
}

fn resolve_symbol<C: CryptoCallbacks>(s: &String, env: &Env<C>) -> (r: Node)
    requires
        env.wf(),
    ensures
        r@ == symbol_value(s@, env.model()),
        wf_view(r@),
{
    if crate::text::str_eq(s.as_str(), "#t") {
        Node::Bool(true)
    } else if crate::text::str_eq(s.as_str(), "#f") {
        Node::Bool(false)
    } else {
        match env.vars.get(s.as_str()) {
            Some(v) => v.duplicate(),
            None => Node::Symbol(s.clone()),
        }
    }
}

fn eval<C: CryptoCallbacks>(node: &Node, env: &Env<C>, st: &mut EvalState) -> (r: Result<
    Node,
    SplError,
>)
    requires
        wf_view(node@),
        env.wf(),
        0 <= old(st).depth <= 64,
    ensures
        final(st).depth == old(st).depth,
        ({
            let o = eval_node(node@, env.model(), old(st).gas as int, old(st).depth as int);
            final(st).gas as int == o.gas && (match r {
                Ok(v) => o.res is Ok && o.res->Ok_0 == v@ && wf_view(v@),
                Err(e) => o.res is Err && e@ == err_msg(o.res->Err_0),
            })
        }),
    decreases node, 2int,
{
    if st.gas <= 0 {
        return Err(SplError(String::from_str("gas budget exceeded")));
    }
    st.gas = st.gas - 1;
    if st.depth >= 64 {
        return Err(SplError(String::from_str("max nesting depth exceeded")));
    }
    st.depth = st.depth + 1;
    let r = eval_inner(node, env, st);
    st.depth = st.depth - 1;
    r
}

#[verifier::rlimit(100)]
fn eval_op<C: CryptoCallbacks>(
    op: &String,
    items: &Vec<Node>,
    env: &Env<C>,
    st: &mut EvalState,
) -> (r: Result<Node, SplError>)
    requires
        items@.len() >= 1,
        crate::types::wf_list(view_of_nodes(items@)),
        env.wf(),
        1 <= old(st).depth <= 64,
    ensures
        final(st).depth == old(st).depth,
        ({
            let o = apply_op(
                op@,
                view_of_nodes(items@).drop_first(),
                env.model(),
                old(st).gas as int,
                old(st).depth as int,
            );
            final(st).gas as int == o.gas && (match r {
                Ok(v) => o.res is Ok && o.res->Ok_0 == v@ && wf_view(v@),
                Err(e) => o.res is Err && e@ == err_msg(o.res->Err_0),
            })
        }),
    decreases items, 3int,
{
    let ghost args = view_of_nodes(items@).drop_first();
    let ghost env_m = env.model();
    let ghost gas0 = st.gas as int;
    let ghost depth0 = st.depth as int;
    proof {
        crate::types::lemma_view_of_nodes(items@);
        assert forall|j: int| 0 <= j < args.len() implies #[trigger] args[j] == items@[j + 1]@ by {
            assert(view_of_nodes(items@)[j + 1] == items@[j + 1]@);
        }
        crate::types::lemma_wf_list(view_of_nodes(items@));
        assert forall|j: int| 0 <= j < args.len() implies wf_view(#[trigger] args[j]) by {
            assert(args[j] == view_of_nodes(items@)[j + 1]);
        }
    }
    let n = items.len();
    if crate::text::str_eq(op.as_str(), "and") {
        let mut i: usize = 1;
        proof {
            assert(args.skip(0) =~= args);
        }
        while i < n
            invariant
                n == items@.len(),
                n >= 1,
                args == view_of_nodes(items@).drop_first(),
                args.len() == n - 1,
                forall|j: int| 0 <= j < args.len() ==> #[trigger] args[j] == items@[j + 1]@,
                forall|j: int| 0 <= j < args.len() ==> wf_view(#[trigger] args[j]),
                env.wf(),
                env_m == env.model(),
                gas0 == old(st).gas as int,
                depth0 == old(st).depth as int,
                op@ == "and"@,
                1 <= st.depth <= 64,
                st.depth == depth0,
                1 <= i <= n,
                eval_and(args, env_m, gas0, depth0) == eval_and(
                    args.skip(i - 1),
                    env_m,
                    st.gas as int,
                    depth0,
                ),
            decreases n - i,
        {
            proof {
                assert(decreases_to!(*items => items[i as int]));
                assert(args.skip(i - 1)[0] == args[i - 1]);
            }
            let arg_val = eval(&items[i], env, st);
            match arg_val {
                Err(e) => {
                    return Err(e);
                }
                Ok(v) => {
                    if !v.is_truthy() {
                        return Ok(Node::Bool(false));
                    }
                    proof {
                        assert(args.skip(i - 1).drop_first() =~= args.skip(i as int));
                    }
                    i += 1;
                }
            }
        }
        proof {
            assert(args.skip(n - 1).len() == 0);
        }
        Ok(Node::Bool(true))
    } else if crate::text::str_eq(op.as_str(), "or") {
        let mut i: usize = 1;
        proof {
            assert(args.skip(0) =~= args);
        }
        while i < n
            invariant
                n == items@.len(),
                n >= 1,
                args == view_of_nodes(items@).drop_first(),
                args.len() == n - 1,
                forall|j: int| 0 <= j < args.len() ==> #[trigger] args[j] == items@[j + 1]@,
                forall|j: int| 0 <= j < args.len() ==> wf_view(#[trigger] args[j]),
                env.wf(),
                env_m == env.model(),
                gas0 == old(st).gas as int,
                depth0 == old(st).depth as int,
                op@ == "or"@,
                op@ != "and"@,
                1 <= st.depth <= 64,
                st.depth == depth0,
                1 <= i <= n,
                eval_or(args, env_m, gas0, depth0) == eval_or(
                    args.skip(i - 1),
                    env_m,
                    st.gas as int,
                    depth0,
                ),
            decreases n - i,
        {
            proof {
                assert(decreases_to!(*items => items[i as int]));
                assert(args.skip(i - 1)[0] == args[i - 1]);
            }
            let arg_val = eval(&items[i], env, st);
            match arg_val {
                Err(e) => {
                    return Err(e);
                }
                Ok(v) => {
                    if v.is_truthy() {
                        return Ok(Node::Bool(true));
                    }
                    proof {
                        assert(args.skip(i - 1).drop_first() =~= args.skip(i as int));
                    }
                    i += 1;
                }
            }
        }
        proof {
            assert(args.skip(n - 1).len() == 0);
        }
        Ok(Node::Bool(false))
    } else if crate::text::str_eq(op.as_str(), "not") {
        if n < 2 {
            return Err(SplError(String::from_str("operator is missing arguments")));
        }
        proof {
            assert(decreases_to!(*items => items[1int]));
        }
        match eval(&items[1], env, st) {
            Err(e) => Err(e),
            Ok(v) => Ok(Node::Bool(!v.is_truthy())),
        }
    } else if crate::text::str_eq(op.as_str(), "=") {
        if n < 3 {
            return Err(SplError(String::from_str("operator is missing arguments")));
        }
        proof {
            assert(decreases_to!(*items => items[1int]));
            assert(decreases_to!(*items => items[2int]));
        }
        let v0 = match eval(&items[1], env, st) {
            Err(e) => {
                return Err(e);
            }
            Ok(v) => v,
        };
        let v1 = match eval(&items[2], env, st) {
            Err(e) => {
                return Err(e);
            }
            Ok(v) => v,
        };
        Ok(Node::Bool(crate::render::node_eq(&v0, &v1)))
    } else if crate::text::str_eq(op.as_str(), "<=") || crate::text::str_eq(op.as_str(), "<")
        || crate::text::str_eq(op.as_str(), ">=") || crate::text::str_eq(op.as_str(), ">") {
        if n < 3 {
            return Err(SplError(String::from_str("operator is missing arguments")));
        }
        proof {
            assert(decreases_to!(*items => items[1int]));
            assert(decreases_to!(*items => items[2int]));
        }
        let v0 = match eval(&items[1], env, st) {
            Err(e) => {
                return Err(e);
            }
            Ok(v) => v,
        };
        let v1 = match eval(&items[2], env, st) {
            Err(e) => {
                return Err(e);
            }
            Ok(v) => v,
        };
        let a = v0.as_number();
        let b = v1.as_number();
        let c = dec_cmp(&a, &b);
        let res: bool = if crate::text::str_eq(op.as_str(), "<=") {
            c != 1
        } else if crate::text::str_eq(op.as_str(), "<") {
            c == -1
        } else if crate::text::str_eq(op.as_str(), ">=") {
            c != -1
        } else {
            c == 1
        };
        Ok(Node::Bool(res))
    } else if crate::text::str_eq(op.as_str(), "member")
        || crate::text::str_eq(op.as_str(), "in") {
        if n < 3 {
            return Err(SplError(String::from_str("operator is missing arguments")));
        }
        proof {
            assert(decreases_to!(*items => items[1int]));
            assert(decreases_to!(*items => items[2int]));
        }
        let v0 = match eval(&items[1], env, st) {
            Err(e) => {
                return Err(e);
            }
            Ok(v) => v,
        };
        let v1 = match eval(&items[2], env, st) {
            Err(e) => {
                return Err(e);
            }
            Ok(v) => v,
        };
        match &v1 {
            Node::List(elems) => Ok(Node::Bool(vec_contains(elems, &v0))),
            _ => Ok(Node::Bool(false)),
        }
    } else if crate::text::str_eq(op.as_str(), "subset?") {
        if n < 3 {
            return Err(SplError(String::from_str("operator is missing arguments")));
        }
        proof {
            assert(decreases_to!(*items => items[1int]));
            assert(decreases_to!(*items => items[2int]));
        }
        let v0 = match eval(&items[1], env, st) {
            Err(e) => {
                return Err(e);
            }
            Ok(v) => v,
        };
        let v1 = match eval(&items[2], env, st) {
            Err(e) => {
                return Err(e);
            }
            Ok(v) => v,
        };
        match (&v0, &v1) {
            (Node::List(ea), Node::List(eb)) => Ok(Node::Bool(vec_subset(ea, eb))),
            _ => Ok(Node::Bool(false)),
        }
    } else if crate::text::str_eq(op.as_str(), "before") {
        if n < 3 {
            return Err(SplError(String::from_str("operator is missing arguments")));
        }
        proof {
            assert(decreases_to!(*items => items[1int]));
            assert(decreases_to!(*items => items[2int]));
        }
        let v0 = match eval(&items[1], env, st) {
            Err(e) => {
                return Err(e);
            }
            Ok(v) => v,
        };
        let v1 = match eval(&items[2], env, st) {
            Err(e) => {
                return Err(e);
            }
            Ok(v) => v,
        };
        let sa = crate::render::plain_string(&v0);
        let sb = crate::render::plain_string(&v1);
        Ok(Node::Bool(crate::text::str_lex_lt(sa.as_str(), sb.as_str())))
    } else if crate::text::str_eq(op.as_str(), "get") {
        if n < 3 {
            return Err(SplError(String::from_str("operator is missing arguments")));
        }
        proof {
            assert(decreases_to!(*items => items[2int]));
        }
        let key = match eval(&items[2], env, st) {
            Err(e) => {
                return Err(e);
            }
            Ok(v) => v,
        };
        match &key {
            Node::Str(k) => {
                match &items[1] {
                    Node::Symbol(s) => {
                        if crate::text::str_eq(s.as_str(), "req") {
                            match env.req.get(k.as_str()) {
                                Some(v) => Ok(v.duplicate()),
                                None => Ok(Node::Nil),
                            }
                        } else {
                            Ok(Node::Nil)
                        }
                    }
                    _ => Ok(Node::Nil),
                }
            }
            _ => Ok(Node::Nil),
        }
    } else if crate::text::str_eq(op.as_str(), "tuple") {
        match eval_rest(items, env, st) {
            Err(e) => Err(e),
            Ok(vals) => {
                proof {
                    crate::types::lemma_view_of_nodes(vals@);
                    crate::types::lemma_wf_list(view_of_nodes(vals@));
                }
                Ok(Node::List(vals))
            }
        }
    } else if crate::text::str_eq(op.as_str(), "per-day-count") {
        if n < 3 {
            return Err(SplError(String::from_str("operator is missing arguments")));
        }
        proof {
            assert(decreases_to!(*items => items[1int]));
            assert(decreases_to!(*items => items[2int]));
        }
        let v0 = match eval(&items[1], env, st) {
            Err(e) => {
                return Err(e);
            }
            Ok(v) => v,
        };
        let v1 = match eval(&items[2], env, st) {
            Err(e) => {
                return Err(e);
            }
            Ok(v) => v,
        };
        let action = crate::render::plain_string(&v0);
        let day = crate::render::plain_string(&v1);
        let c = env.crypto.per_day_count(&action, &day);
        Ok(Node::Number(Decimal::from_int(c)))
    } else if crate::text::str_eq(op.as_str(), "dpop_ok?") {
        Ok(Node::Bool(env.crypto.dpop_ok()))
    } else if crate::text::str_eq(op.as_str(), "merkle_ok?") {
        match eval_rest(items, env, st) {
            Err(e) => Err(e),
            Ok(vals) => Ok(Node::Bool(env.crypto.merkle_ok(&vals))),
        }
    } else if crate::text::str_eq(op.as_str(), "vrf_ok?") {
        if n < 3 {
            return Err(SplError(String::from_str("operator is missing arguments")));
        }
        proof {
            assert(decreases_to!(*items => items[1int]));
            assert(decreases_to!(*items => items[2int]));
        }
        let v0 = match eval(&items[1], env, st) {
            Err(e) => {
                return Err(e);
            }
            Ok(v) => v,
        };
        let v1 = match eval(&items[2], env, st) {
            Err(e) => {
                return Err(e);
            }
            Ok(v) => v,
        };
        let day = crate::render::plain_string(&v0);
        let amount = v1.as_number();
        Ok(Node::Bool(env.crypto.vrf_ok(&day, &amount)))
    } else if crate::text::str_eq(op.as_str(), "thresh_ok?") {
        Ok(Node::Bool(env.crypto.thresh_ok()))
    } else {
        let mut msg = String::from_str("Unknown op: ");
        msg.append(op.as_str());
        Err(SplError(msg))
    }
}

/// Evaluates `items[1..]` left to right, collecting the values.
fn eval_rest<C: CryptoCallbacks>(
    items: &Vec<Node>,
    env: &Env<C>,
    st: &mut EvalState,
) -> (r: Result<Vec<Node>, SplError>)
    requires
        items@.len() >= 1,
        crate::types::wf_list(view_of_nodes(items@)),
        env.wf(),
        1 <= old(st).depth <= 64,
    ensures
        final(st).depth == old(st).depth,
        ({
            let o = eval_args(
                view_of_nodes(items@).drop_first(),
                env.model(),
                old(st).gas as int,
                old(st).depth as int,
            );
            final(st).gas as int == o.gas && (match r {
                Ok(vals) => o.res is Ok && o.res->Ok_0 == view_of_nodes(vals@)
                    && (forall|j: int| 0 <= j < vals@.len() ==> wf_view(#[trigger] vals@[j]@)),
                Err(e) => o.res is Err && e@ == err_msg(o.res->Err_0),
            })
        }),
    decreases items, 2int,
{
    let ghost args = view_of_nodes(items@).drop_first();
    let ghost env_m = env.model();
    let ghost gas0 = st.gas as int;
    let ghost depth0 = st.depth as int;
    proof {
        crate::types::lemma_view_of_nodes(items@);
        assert forall|j: int| 0 <= j < args.len() implies #[trigger] args[j] == items@[j + 1]@ by {
            assert(view_of_nodes(items@)[j + 1] == items@[j + 1]@);
        }
        crate::types::lemma_wf_list(view_of_nodes(items@));
        assert forall|j: int| 0 <= j < args.len() implies wf_view(#[trigger] args[j]) by {
            assert(args[j] == view_of_nodes(items@)[j + 1]);
        }
    }
    let n = items.len();
    let mut out: Vec<Node> = Vec::new();
    let mut i: usize = 1;
    proof {
        assert(args.skip(0) =~= args);
        assert(view_of_nodes(out@) =~= Seq::<NodeView>::empty());
    }
    while i < n
        invariant
            n == items@.len(),
            n >= 1,
            args == view_of_nodes(items@).drop_first(),
            args.len() == n - 1,
            forall|j: int| 0 <= j < args.len() ==> #[trigger] args[j] == items@[j + 1]@,
            forall|j: int| 0 <= j < args.len() ==> wf_view(#[trigger] args[j]),
            env.wf(),
            env_m == env.model(),
            gas0 == old(st).gas as int,
            depth0 == old(st).depth as int,
            1 <= st.depth <= 64,
            st.depth == depth0,
            1 <= i <= n,
            out@.len() == i - 1,
            forall|j: int| 0 <= j < out@.len() ==> wf_view(#[trigger] out@[j]@),
            ({
                let full = eval_args(args, env_m, gas0, depth0);
                let rem = eval_args(args.skip(i - 1), env_m, st.gas as int, depth0);
                ((rem.res is Err ==> full.res == rem.res && full.gas == rem.gas)
                    && (rem.res is Ok ==> full.res is Ok && full.gas == rem.gas
                        && full.res->Ok_0 == view_of_nodes(out@) + rem.res->Ok_0))
            }),
        decreases n - i,
    {
        proof {
            assert(decreases_to!(*items => items[i as int]));
            assert(args.skip(i - 1)[0] == args[i - 1]);
        }
        let arg_val = eval(&items[i], env, st);
        match arg_val {
            Err(e) => {
                return Err(e);
            }
            Ok(v) => {
                let ghost out_before = out@;
                out.push(v);
                proof {
                    assert(out@.drop_last() =~= out_before);
                    crate::types::lemma_view_of_nodes(out@);
                    crate::types::lemma_view_of_nodes(out_before);
                    assert(view_of_nodes(out@) =~= view_of_nodes(out_before).push(
                        out@.last()@,
                    ));
                    assert(args.skip(i - 1).drop_first() =~= args.skip(i as int));
                }
                i += 1;
                proof {
                    let full = eval_args(args, env_m, gas0, depth0);
                    let rem = eval_args(args.skip(i - 1), env_m, st.gas as int, depth0);
                    if rem.res is Ok {
                        assert(view_of_nodes(out_before) + (seq![out@.last()@]
                            + rem.res->Ok_0) =~= view_of_nodes(out@) + rem.res->Ok_0);
                    }
                }
            }
        }
    }
    proof {
        assert(args.skip(n - 1).len() == 0);
        assert(view_of_nodes(out@) + Seq::<NodeView>::empty() =~= view_of_nodes(out@));
    }
    Ok(out)
}

fn eval_inner<C: CryptoCallbacks>(node: &Node, env: &Env<C>, st: &mut EvalState) -> (r: Result<
    Node,
    SplError,
>)
    requires
        wf_view(node@),
        env.wf(),
        1 <= old(st).depth <= 64,
    ensures
        final(st).depth == old(st).depth,
        ({
            let o = eval_body(node@, env.model(), old(st).gas as int, old(st).depth as int);
            final(st).gas as int == o.gas && (match r {
                Ok(v) => o.res is Ok && o.res->Ok_0 == v@ && wf_view(v@),
                Err(e) => o.res is Err && e@ == err_msg(o.res->Err_0),
            })
        }),
    decreases node, 1int,
{
    match node {
        Node::List(items) => {
            proof {
                crate::types::lemma_view_of_nodes(items@);
            }
            if items.len() == 0 {
                proof {
                    assert(view_of_nodes(items@).len() == 0);
                }
                return Ok(Node::Nil);
            }
            match &items[0] {
                Node::Symbol(s) => {
                    proof {
                        assert((*node)->List_0 == *items);
                        assert(decreases_to!(*node => (*node)->List_0));
                        assert(view_of_nodes(items@)[0] == items@[0]@);
                    }
                    eval_op(s, items, env, st)
                }
                _ => {
                    proof {
                        assert(view_of_nodes(items@)[0] == items@[0]@);
                    }
                    Err(SplError(String::from_str("operator must be a symbol")))
                }
            }
        }
        Node::Symbol(s) => Ok(resolve_symbol(s, env)),
        _ => Ok(node.duplicate()),
    }
}

/// One whole evaluation of `ast` in `env`: gas initialised from
/// `env.max_gas`, depth from zero. Returns precisely what the spec
/// interpreter denotes: the value of [`spec_eval_policy`] on success, and on
/// failure the message of the error it names.
pub fn eval_policy<C: CryptoCallbacks>(ast: &Node, env: &Env<C>) -> (r: Result<Node, SplError>)
    requires
        wf_view(ast@),
        env.wf(),
    ensures
        ({
            let o = spec_eval_policy(ast@, env.model(), env.max_gas as int);
            match r {
                Ok(v) => o.res is Ok && o.res->Ok_0 == v@ && wf_view(v@),
                Err(e) => o.res is Err && e@ == err_msg(o.res->Err_0),
            }
        }),
{
    let mut st = EvalState { gas: env.max_gas, depth: 0 };
    eval(ast, env, &mut st)
}

} // verus!
