//! General properties of the interpreter, stated and proved once:
//! termination of evaluation under a sufficient gas budget, gas exhaustion
//! under an insufficient one, the short-circuit behaviour of `and` and
//! `or`, and the order laws of `subset?` and `member`.
use vstd::prelude::*;

use crate::evaluator::{
    eval_and, eval_args, eval_node, eval_or, eval_two, list_contains, list_subset,
    spec_eval_policy, EvalErr,
};
use crate::env::EnvModel;
use crate::render::{plain_of, spec_node_eq};
use crate::types::{
    count_nodes, count_in_list, height_of, height_in_list, norm_dec, num_eq, wf_view, NodeView,
};

verus! {

/// The operator names are pairwise distinct texts: each has its length and
/// first character exposed.
pub proof fn lemma_op_names()
    ensures
        "and"@.len() == 3 && "and"@[0] == 'a',
        "or"@.len() == 2 && "or"@[0] == 'o',
        "not"@.len() == 3 && "not"@[0] == 'n',
        "="@.len() == 1 && "="@[0] == '=',
        "<="@.len() == 2 && "<="@[0] == '<',
        "<"@.len() == 1 && "<"@[0] == '<',
        ">="@.len() == 2 && ">="@[0] == '>',
        ">"@.len() == 1 && ">"@[0] == '>',
        "member"@.len() == 6 && "member"@[0] == 'm',
        "in"@.len() == 2 && "in"@[0] == 'i',
        "subset?"@.len() == 7 && "subset?"@[0] == 's',
        "before"@.len() == 6 && "before"@[0] == 'b',
        "get"@.len() == 3 && "get"@[0] == 'g',
        "tuple"@.len() == 5 && "tuple"@[0] == 't',
        "per-day-count"@.len() == 13 && "per-day-count"@[0] == 'p',
        "dpop_ok?"@.len() == 8 && "dpop_ok?"@[0] == 'd',
        "merkle_ok?"@.len() == 10 && "merkle_ok?"@[0] == 'm',
        "vrf_ok?"@.len() == 7 && "vrf_ok?"@[0] == 'v',
        "thresh_ok?"@.len() == 10 && "thresh_ok?"@[0] == 't',
{
    reveal_strlit("and");
    reveal_strlit("or");
    reveal_strlit("not");
    reveal_strlit("=");
    reveal_strlit("<=");
    reveal_strlit("<");
    reveal_strlit(">=");
    reveal_strlit(">");
    reveal_strlit("member");
    reveal_strlit("in");
    reveal_strlit("subset?");
    reveal_strlit("before");
    reveal_strlit("get");
    reveal_strlit("tuple");
    reveal_strlit("per-day-count");
    reveal_strlit("dpop_ok?");
    reveal_strlit("merkle_ok?");
    reveal_strlit("vrf_ok?");
    reveal_strlit("thresh_ok?");
}

/// The operator names the evaluator knows.
pub open spec fn known_op(op: Seq<char>) -> bool {
    op == "and"@ || op == "or"@ || op == "not"@ || op == "="@ || op == "<="@ || op == "<"@
        || op == ">="@ || op == ">"@ || op == "member"@ || op == "in"@ || op == "subset?"@
        || op == "before"@ || op == "get"@ || op == "tuple"@ || op == "per-day-count"@ || op
        == "dpop_ok?"@ || op == "merkle_ok?"@ || op == "vrf_ok?"@ || op == "thresh_ok?"@
}

/// Whether `op` has the arguments it reads: one for `not`, two for the
/// binary operators, any number elsewhere.
pub open spec fn op_arity_ok(op: Seq<char>, n: int) -> bool {
    if op == "not"@ {
        n >= 1
    } else if op == "="@ || op == "<="@ || op == "<"@ || op == ">="@ || op == ">"@ || op
        == "member"@ || op == "in"@ || op == "subset?"@ || op == "before"@ || op == "get"@ || op
        == "per-day-count"@ || op == "vrf_ok?"@ {
        n >= 2
    } else {
        true
    }
}

/// A valid AST: every non-empty list is headed by a known operator symbol
/// with the arguments it reads, recursively.
pub open spec fn valid_ast(n: NodeView) -> bool
    decreases n, 1int,
{
    match n {
        NodeView::List(items) => items.len() == 0 || (items[0] matches NodeView::Symbol(op)
            && known_op(op) && op_arity_ok(op, items.len() - 1) && valid_list(
            items.drop_first(),
        )),
        _ => true,
    }
}

pub open spec fn valid_list(s: Seq<NodeView>) -> bool
    decreases s, 0int,
{
    if s.len() == 0 {
        true
    } else {
        valid_ast(s[0]) && valid_list(s.drop_first())
    }
}

/// The number of nodes the evaluator enters: each leaf once, each list once
/// plus its arguments; the head symbol of an operator form is never
/// entered.
pub open spec fn eval_cost(n: NodeView) -> nat
    decreases n, 1int,
{
    match n {
        NodeView::List(items) => if items.len() == 0 {
            1
        } else {
            1 + cost_list(items.drop_first())
        },
        _ => 1,
    }
}

pub open spec fn cost_list(s: Seq<NodeView>) -> nat
    decreases s, 0int,
{
    if s.len() == 0 {
        0
    } else {
        eval_cost(s[0]) + cost_list(s.drop_first())
    }
}

/// The evaluator's cost never exceeds the node count.
pub proof fn lemma_cost_le_count(n: NodeView)
    ensures
        1 <= eval_cost(n) <= count_nodes(n),
    decreases n, 1int,
{
    match n {
        NodeView::List(items) => {
            if items.len() > 0 {
                lemma_cost_list_le_count(items.drop_first());
                lemma_count_first(items);
            }
        }
        _ => {}
    }
}

proof fn lemma_cost_list_le_count(s: Seq<NodeView>)
    ensures
        cost_list(s) <= count_in_list(s),
    decreases s, 0int,
{
    if s.len() > 0 {
        lemma_cost_le_count(s[0]);
        lemma_cost_list_le_count(s.drop_first());
    }
}

/// The elements of a list contribute their counts.
proof fn lemma_count_first(items: Seq<NodeView>)
    requires
        items.len() > 0,
    ensures
        count_in_list(items) == count_nodes(items[0]) + count_in_list(items.drop_first()),
{
}

proof fn lemma_height_list_bound(s: Seq<NodeView>, i: int)
    requires
        0 <= i < s.len(),
    ensures
        height_of(s[i]) <= height_in_list(s),
    decreases s,
{
    if i > 0 {
        lemma_height_list_bound(s.drop_first(), i - 1);
        assert(s.drop_first()[i - 1] == s[i]);
    }
}

proof fn lemma_valid_list_elem(s: Seq<NodeView>, i: int)
    requires
        valid_list(s),
        0 <= i < s.len(),
    ensures
        valid_ast(s[i]),
    decreases s,
{
    if i > 0 {
        lemma_valid_list_elem(s.drop_first(), i - 1);
        assert(s.drop_first()[i - 1] == s[i]);
    }
}

proof fn lemma_cost_list_split(s: Seq<NodeView>)
    requires
        s.len() > 0,
    ensures
        cost_list(s) == eval_cost(s[0]) + cost_list(s.drop_first()),
        cost_list(s) >= eval_cost(s[0]),
        cost_list(s.drop_first()) <= cost_list(s),
{
    lemma_cost_nonneg_list(s.drop_first());
    lemma_cost_le_count(s[0]);
}

proof fn lemma_cost_nonneg_list(s: Seq<NodeView>)
    ensures
        cost_list(s) >= 0,
{
}

/// Evaluation under a sufficient budget: a valid AST whose height fits the
/// remaining depth, given at least its cost in gas, evaluates to a value,
/// consuming between one unit and its cost.
pub proof fn lemma_eval_sufficient(n: NodeView, env: EnvModel, gas: int, depth: int)
    requires
        valid_ast(n),
        0 <= depth,
        height_of(n) + depth <= 64,
        gas >= eval_cost(n),
    ensures
        ({
            let o = eval_node(n, env, gas, depth);
            o.res is Ok && gas - eval_cost(n) <= o.gas <= gas - 1
        }),
    decreases n, 3int,
{
        reveal_with_fuel(eval_node, 3);
        reveal_with_fuel(crate::evaluator::eval_body, 3);
        reveal_with_fuel(crate::evaluator::apply_op, 3);
        reveal_strlit("and");
        reveal_strlit("or");
        reveal_strlit("not");
        reveal_strlit("=");
        reveal_strlit("<=");
        reveal_strlit("<");
        reveal_strlit(">=");
        reveal_strlit(">");
        reveal_strlit("member");
        reveal_strlit("in");
        reveal_strlit("subset?");
        reveal_strlit("before");
        reveal_strlit("get");
        reveal_strlit("tuple");
        reveal_strlit("per-day-count");
        reveal_strlit("dpop_ok?");
        reveal_strlit("merkle_ok?");
        reveal_strlit("vrf_ok?");
        reveal_strlit("thresh_ok?");
        reveal_with_fuel(eval_and, 3);
        reveal_with_fuel(eval_or, 3);
        reveal_with_fuel(eval_args, 3);
        reveal_with_fuel(eval_two, 3);
        reveal_with_fuel(eval_cost, 3);
        reveal_with_fuel(cost_list, 3);
        reveal_with_fuel(valid_ast, 3);
        reveal_with_fuel(valid_list, 3);
        reveal_with_fuel(crate::types::height_of, 3);
        reveal_with_fuel(crate::types::height_in_list, 3);
    lemma_op_names();
    match n {
        NodeView::List(items) => {
            if items.len() > 0 {
                let op = items[0]->Symbol_0;
                let args = items.drop_first();
                lemma_height_args(items);
                if op == "and"@ {
                    lemma_and_sufficient(args, env, gas - 1, depth + 1);
                } else if op == "or"@ {
                    lemma_or_sufficient(args, env, gas - 1, depth + 1);
                } else if op == "not"@ {
                    lemma_valid_list_elem(args, 0);
                    lemma_height_list_bound(args, 0);
                    lemma_cost_list_split(args);
                    lemma_eval_sufficient(args[0], env, gas - 1, depth + 1);
                } else if op == "="@ {
                    lemma_two_sufficient(args, env, gas - 1, depth + 1);
                } else if op == "<="@ || op == "<"@ || op == ">="@ || op == ">"@ {
                    lemma_two_sufficient(args, env, gas - 1, depth + 1);
                } else if op == "member"@ || op == "in"@ {
                    lemma_two_sufficient(args, env, gas - 1, depth + 1);
                } else if op == "subset?"@ {
                    lemma_two_sufficient(args, env, gas - 1, depth + 1);
                } else if op == "before"@ {
                    lemma_two_sufficient(args, env, gas - 1, depth + 1);
                } else if op == "per-day-count"@ {
                    lemma_two_sufficient(args, env, gas - 1, depth + 1);
                } else if op == "vrf_ok?"@ {
                    lemma_two_sufficient(args, env, gas - 1, depth + 1);
                } else if op == "get"@ {
                    lemma_valid_list_elem(args, 1);
                    lemma_height_list_bound(args, 1);
                    lemma_cost_list_split(args);
                    lemma_cost_list_split(args.drop_first());
                    assert(args.drop_first()[0] == args[1]);
                    lemma_eval_sufficient(args[1], env, gas - 1, depth + 1);
                } else if op == "tuple"@ || op == "merkle_ok?"@ {
                    lemma_args_sufficient(args, env, gas - 1, depth + 1);
                } else {
                    assert(op == "dpop_ok?"@ || op == "thresh_ok?"@);
                }
            }
        }
        _ => {}
    }
}

proof fn lemma_height_args(items: Seq<NodeView>)
    requires
        items.len() > 0,
    ensures
        height_in_list(items.drop_first()) <= height_in_list(items),
    decreases items,
{
    let rest = items.drop_first();
    assert forall|i: int| 0 <= i < rest.len() implies height_of(#[trigger] rest[i])
        <= height_in_list(items) by {
        lemma_height_list_bound(items, i + 1);
        assert(items[i + 1] == rest[i]);
    }
    lemma_height_list_from_elems(rest, height_in_list(items));
}

proof fn lemma_height_list_from_elems(s: Seq<NodeView>, bound: nat)
    requires
        forall|i: int| 0 <= i < s.len() ==> height_of(#[trigger] s[i]) <= bound,
    ensures
        height_in_list(s) <= bound || s.len() == 0,
    decreases s,
{
    reveal_with_fuel(crate::types::height_in_list, 3);
    if s.len() > 0 {
        assert forall|i: int| 0 <= i < s.drop_first().len() implies height_of(
            #[trigger] s.drop_first()[i],
        ) <= bound by {
            assert(s.drop_first()[i] == s[i + 1]);
        }
        lemma_height_list_from_elems(s.drop_first(), bound);
        assert(height_of(s[0]) <= bound);
    }
}

proof fn lemma_and_sufficient(args: Seq<NodeView>, env: EnvModel, gas: int, depth: int)
    requires
        valid_list(args),
        1 <= depth,
        height_in_list(args) + depth <= 64,
        gas >= cost_list(args),
    ensures
        ({
            let o = eval_and(args, env, gas, depth);
            o.res is Ok && gas - cost_list(args) <= o.gas <= gas
        }),
    decreases args, 2int,
{
        reveal_with_fuel(eval_node, 3);
        reveal_with_fuel(crate::evaluator::eval_body, 3);
        reveal_with_fuel(crate::evaluator::apply_op, 3);
        reveal_strlit("and");
        reveal_strlit("or");
        reveal_strlit("not");
        reveal_strlit("=");
        reveal_strlit("<=");
        reveal_strlit("<");
        reveal_strlit(">=");
        reveal_strlit(">");
        reveal_strlit("member");
        reveal_strlit("in");
        reveal_strlit("subset?");
        reveal_strlit("before");
        reveal_strlit("get");
        reveal_strlit("tuple");
        reveal_strlit("per-day-count");
        reveal_strlit("dpop_ok?");
        reveal_strlit("merkle_ok?");
        reveal_strlit("vrf_ok?");
        reveal_strlit("thresh_ok?");
        reveal_with_fuel(eval_and, 3);
        reveal_with_fuel(eval_or, 3);
        reveal_with_fuel(eval_args, 3);
        reveal_with_fuel(eval_two, 3);
        reveal_with_fuel(eval_cost, 3);
        reveal_with_fuel(cost_list, 3);
        reveal_with_fuel(valid_ast, 3);
        reveal_with_fuel(valid_list, 3);
        reveal_with_fuel(crate::types::height_of, 3);
        reveal_with_fuel(crate::types::height_in_list, 3);
    if args.len() > 0 {
        lemma_valid_list_elem(args, 0);
        lemma_height_list_bound(args, 0);
        lemma_cost_list_split(args);
        lemma_eval_sufficient(args[0], env, gas, depth);
        let r0 = eval_node(args[0], env, gas, depth);
        lemma_height_args_cons(args);
        lemma_and_sufficient(args.drop_first(), env, r0.gas, depth);
    }
}

proof fn lemma_height_args_cons(args: Seq<NodeView>)
    requires
        args.len() > 0,
    ensures
        height_in_list(args.drop_first()) <= height_in_list(args),
        valid_list(args) ==> valid_list(args.drop_first()),
{
    lemma_height_args_tail(args);
}

proof fn lemma_height_args_tail(args: Seq<NodeView>)
    requires
        args.len() > 0,
    ensures
        height_in_list(args.drop_first()) <= height_in_list(args),
{
}

proof fn lemma_or_sufficient(args: Seq<NodeView>, env: EnvModel, gas: int, depth: int)
    requires
        valid_list(args),
        1 <= depth,
        height_in_list(args) + depth <= 64,
        gas >= cost_list(args),
    ensures
        ({
            let o = eval_or(args, env, gas, depth);
            o.res is Ok && gas - cost_list(args) <= o.gas <= gas
        }),
    decreases args, 2int,
{
        reveal_with_fuel(eval_node, 3);
        reveal_with_fuel(crate::evaluator::eval_body, 3);
        reveal_with_fuel(crate::evaluator::apply_op, 3);
        reveal_strlit("and");
        reveal_strlit("or");
        reveal_strlit("not");
        reveal_strlit("=");
        reveal_strlit("<=");
        reveal_strlit("<");
        reveal_strlit(">=");
        reveal_strlit(">");
        reveal_strlit("member");
        reveal_strlit("in");
        reveal_strlit("subset?");
        reveal_strlit("before");
        reveal_strlit("get");
        reveal_strlit("tuple");
        reveal_strlit("per-day-count");
        reveal_strlit("dpop_ok?");
        reveal_strlit("merkle_ok?");
        reveal_strlit("vrf_ok?");
        reveal_strlit("thresh_ok?");
        reveal_with_fuel(eval_and, 3);
        reveal_with_fuel(eval_or, 3);
        reveal_with_fuel(eval_args, 3);
        reveal_with_fuel(eval_two, 3);
        reveal_with_fuel(eval_cost, 3);
        reveal_with_fuel(cost_list, 3);
        reveal_with_fuel(valid_ast, 3);
        reveal_with_fuel(valid_list, 3);
        reveal_with_fuel(crate::types::height_of, 3);
        reveal_with_fuel(crate::types::height_in_list, 3);
    if args.len() > 0 {
        lemma_valid_list_elem(args, 0);
        lemma_height_list_bound(args, 0);
        lemma_cost_list_split(args);
        lemma_eval_sufficient(args[0], env, gas, depth);
        let r0 = eval_node(args[0], env, gas, depth);
        lemma_height_args_cons(args);
        lemma_or_sufficient(args.drop_first(), env, r0.gas, depth);
    }
}

proof fn lemma_args_sufficient(args: Seq<NodeView>, env: EnvModel, gas: int, depth: int)
    requires
        valid_list(args),
        1 <= depth,
        height_in_list(args) + depth <= 64,
        gas >= cost_list(args),
    ensures
        ({
            let o = eval_args(args, env, gas, depth);
            o.res is Ok && gas - cost_list(args) <= o.gas <= gas
        }),
    decreases args, 2int,
{
        reveal_with_fuel(eval_node, 3);
        reveal_with_fuel(crate::evaluator::eval_body, 3);
        reveal_with_fuel(crate::evaluator::apply_op, 3);
        reveal_strlit("and");
        reveal_strlit("or");
        reveal_strlit("not");
        reveal_strlit("=");
        reveal_strlit("<=");
        reveal_strlit("<");
        reveal_strlit(">=");
        reveal_strlit(">");
        reveal_strlit("member");
        reveal_strlit("in");
        reveal_strlit("subset?");
        reveal_strlit("before");
        reveal_strlit("get");
        reveal_strlit("tuple");
        reveal_strlit("per-day-count");
        reveal_strlit("dpop_ok?");
        reveal_strlit("merkle_ok?");
        reveal_strlit("vrf_ok?");
        reveal_strlit("thresh_ok?");
        reveal_with_fuel(eval_and, 3);
        reveal_with_fuel(eval_or, 3);
        reveal_with_fuel(eval_args, 3);
        reveal_with_fuel(eval_two, 3);
        reveal_with_fuel(eval_cost, 3);
        reveal_with_fuel(cost_list, 3);
        reveal_with_fuel(valid_ast, 3);
        reveal_with_fuel(valid_list, 3);
        reveal_with_fuel(crate::types::height_of, 3);
        reveal_with_fuel(crate::types::height_in_list, 3);
    if args.len() > 0 {
        lemma_valid_list_elem(args, 0);
        lemma_height_list_bound(args, 0);
        lemma_cost_list_split(args);
        lemma_eval_sufficient(args[0], env, gas, depth);
        let r0 = eval_node(args[0], env, gas, depth);
        lemma_height_args_cons(args);
        lemma_args_sufficient(args.drop_first(), env, r0.gas, depth);
    }
}

proof fn lemma_two_sufficient(args: Seq<NodeView>, env: EnvModel, gas: int, depth: int)
    requires
        valid_list(args),
        args.len() >= 2,
        1 <= depth,
        height_in_list(args) + depth <= 64,
        gas >= cost_list(args),
    ensures
        ({
            let o = eval_two(args, env, gas, depth);
            o.res is Ok && gas - cost_list(args) <= o.gas <= gas
        }),
    decreases args, 2int,
{
        reveal_with_fuel(eval_node, 3);
        reveal_with_fuel(crate::evaluator::eval_body, 3);
        reveal_with_fuel(crate::evaluator::apply_op, 3);
        reveal_strlit("and");
        reveal_strlit("or");
        reveal_strlit("not");
        reveal_strlit("=");
        reveal_strlit("<=");
        reveal_strlit("<");
        reveal_strlit(">=");
        reveal_strlit(">");
        reveal_strlit("member");
        reveal_strlit("in");
        reveal_strlit("subset?");
        reveal_strlit("before");
        reveal_strlit("get");
        reveal_strlit("tuple");
        reveal_strlit("per-day-count");
        reveal_strlit("dpop_ok?");
        reveal_strlit("merkle_ok?");
        reveal_strlit("vrf_ok?");
        reveal_strlit("thresh_ok?");
        reveal_with_fuel(eval_and, 3);
        reveal_with_fuel(eval_or, 3);
        reveal_with_fuel(eval_args, 3);
        reveal_with_fuel(eval_two, 3);
        reveal_with_fuel(eval_cost, 3);
        reveal_with_fuel(cost_list, 3);
        reveal_with_fuel(valid_ast, 3);
        reveal_with_fuel(valid_list, 3);
        reveal_with_fuel(crate::types::height_of, 3);
        reveal_with_fuel(crate::types::height_in_list, 3);
    lemma_valid_list_elem(args, 0);
    lemma_valid_list_elem(args, 1);
    lemma_height_list_bound(args, 0);
    lemma_height_list_bound(args, 1);
    lemma_cost_list_split(args);
    lemma_cost_list_split(args.drop_first());
    assert(args.drop_first()[0] == args[1]);
    lemma_eval_sufficient(args[0], env, gas, depth);
    let r0 = eval_node(args[0], env, gas, depth);
    lemma_eval_sufficient(args[1], env, r0.gas, depth);
    lemma_cost_nonneg_list(args.drop_first().drop_first());
}

/// A strict AST: one on which the evaluator enters every node it would
/// enter on any environment — no `and`/`or` (which short-circuit), no `get`
/// (whose first argument is never evaluated), no operator given arguments
/// beyond those it reads.
pub open spec fn strict_ast(n: NodeView) -> bool
    decreases n, 1int,
{
    match n {
        NodeView::List(items) => items.len() == 0 || (items[0] matches NodeView::Symbol(op) && ((
        op == "not"@ && items.len() == 2) || ((op == "="@ || op == "<="@ || op == "<"@ || op
            == ">="@ || op == ">"@ || op == "member"@ || op == "in"@ || op == "subset?"@ || op
            == "before"@ || op == "per-day-count"@ || op == "vrf_ok?"@) && items.len() == 3) || (
        op == "tuple"@ || op == "merkle_ok?"@) || ((op == "dpop_ok?"@ || op == "thresh_ok?"@)
            && items.len() == 1)) && strict_list(items.drop_first())),
        _ => true,
    }
}

pub open spec fn strict_list(s: Seq<NodeView>) -> bool
    decreases s, 0int,
{
    if s.len() == 0 {
        true
    } else {
        strict_ast(s[0]) && strict_list(s.drop_first())
    }
}

proof fn lemma_strict_list_elem(s: Seq<NodeView>, i: int)
    requires
        strict_list(s),
        0 <= i < s.len(),
    ensures
        strict_ast(s[i]),
    decreases s,
{
    if i > 0 {
        lemma_strict_list_elem(s.drop_first(), i - 1);
        assert(s.drop_first()[i - 1] == s[i]);
    }
}

/// Exact gas accounting on strict ASTs: with gas at least the cost the
/// evaluator returns a value consuming exactly the cost, and with less it
/// fails with the gas error.
pub proof fn lemma_eval_exact(n: NodeView, env: EnvModel, gas: int, depth: int)
    requires
        strict_ast(n),
        0 <= depth,
        height_of(n) + depth <= 64,
    ensures
        ({
            let o = eval_node(n, env, gas, depth);
            (gas >= eval_cost(n) ==> o.res is Ok && o.gas == gas - eval_cost(n)) && (gas
                < eval_cost(n) ==> o.res == Err::<NodeView, EvalErr>(EvalErr::GasExceeded))
        }),
    decreases n, 3int,
{
    reveal_with_fuel(eval_node, 3);
    reveal_with_fuel(crate::evaluator::eval_body, 3);
    reveal_with_fuel(crate::evaluator::apply_op, 3);
    lemma_op_names();
    match n {
        NodeView::List(items) => {
            if items.len() > 0 {
                let op = items[0]->Symbol_0;
                let args = items.drop_first();
                lemma_height_args(items);
                lemma_cost_nonneg_list(args);
                if gas >= 1 {
                    if op == "not"@ {
                        lemma_strict_list_elem(args, 0);
                        lemma_height_list_bound(args, 0);
                        lemma_cost_list_split(args);
                        assert(args.drop_first().len() == 0);
                        lemma_eval_exact(args[0], env, gas - 1, depth + 1);
                    } else if op == "tuple"@ || op == "merkle_ok?"@ {
                        lemma_args_exact(args, env, gas - 1, depth + 1);
                    } else if op == "dpop_ok?"@ || op == "thresh_ok?"@ {
                        assert(args.len() == 0);
                    } else {
                        lemma_two_exact(args, env, gas - 1, depth + 1);
                    }
                }
            }
        }
        _ => {}
    }
}

proof fn lemma_args_exact(args: Seq<NodeView>, env: EnvModel, gas: int, depth: int)
    requires
        strict_list(args),
        1 <= depth,
        height_in_list(args) + depth <= 64,
        gas >= 0,
    ensures
        ({
            let o = eval_args(args, env, gas, depth);
            (gas >= cost_list(args) ==> o.res is Ok && o.gas == gas - cost_list(args)) && (gas
                < cost_list(args) ==> o.res == Err::<Seq<NodeView>, EvalErr>(
                EvalErr::GasExceeded,
            ))
        }),
    decreases args, 2int,
{
    reveal_with_fuel(eval_args, 2);
    if args.len() > 0 {
        lemma_strict_list_elem(args, 0);
        lemma_height_list_bound(args, 0);
        lemma_cost_list_split(args);
        lemma_eval_exact(args[0], env, gas, depth);
        let r0 = eval_node(args[0], env, gas, depth);
        lemma_height_args_tail(args);
        lemma_cost_nonneg_list(args.drop_first());
        lemma_cost_le_count(args[0]);
        if gas >= eval_cost(args[0]) {
            lemma_args_exact(args.drop_first(), env, r0.gas, depth);
        }
    }
}

proof fn lemma_two_exact(args: Seq<NodeView>, env: EnvModel, gas: int, depth: int)
    requires
        strict_list(args),
        args.len() == 2,
        1 <= depth,
        height_in_list(args) + depth <= 64,
        gas >= 0,
    ensures
        ({
            let o = eval_two(args, env, gas, depth);
            (gas >= cost_list(args) ==> o.res is Ok && o.gas == gas - cost_list(args)) && (gas
                < cost_list(args) ==> o.res == Err::<Seq<NodeView>, EvalErr>(
                EvalErr::GasExceeded,
            ))
        }),
    decreases args, 2int,
{
    reveal_with_fuel(eval_two, 2);
    lemma_strict_list_elem(args, 0);
    lemma_strict_list_elem(args, 1);
    lemma_height_list_bound(args, 0);
    lemma_height_list_bound(args, 1);
    lemma_cost_list_split(args);
    lemma_cost_list_split(args.drop_first());
    assert(args.drop_first()[0] == args[1]);
    assert(args.drop_first().drop_first().len() == 0);
    lemma_eval_exact(args[0], env, gas, depth);
    let r0 = eval_node(args[0], env, gas, depth);
    lemma_cost_le_count(args[0]);
    lemma_cost_le_count(args[1]);
    if gas >= eval_cost(args[0]) {
        lemma_eval_exact(args[1], env, r0.gas, depth);
    }
}

/// For every strict AST whose height fits the depth limit, a gas budget
/// under its cost fails with the gas error.
pub proof fn lemma_eval_gas_exceeded(n: NodeView, env: EnvModel, max_gas: int)
    requires
        strict_ast(n),
        height_of(n) <= 64,
        max_gas < eval_cost(n),
    ensures
        spec_eval_policy(n, env, max_gas).res == Err::<NodeView, EvalErr>(EvalErr::GasExceeded),
{
    lemma_eval_exact(n, env, max_gas, 0);
}

/// `and` short-circuits: once a run of arguments is decisive — it errors,
/// or some argument evaluates non-truthy — any arguments standing after it
/// change neither the result nor the gas left. They are never evaluated.
pub proof fn lemma_and_short_circuit(
    args: Seq<NodeView>,
    extra: Seq<NodeView>,
    env: EnvModel,
    gas: int,
    depth: int,
)
    requires
        ({
            let o = eval_and(args, env, gas, depth);
            o.res is Err || o.res == Ok::<NodeView, EvalErr>(NodeView::Bool(false))
        }),
    ensures
        eval_and(args + extra, env, gas, depth) == eval_and(args, env, gas, depth),
    decreases args,
{
    reveal_with_fuel(eval_and, 2);
    if args.len() == 0 {
    } else {
        assert((args + extra)[0] == args[0]);
        assert((args + extra).len() > 0);
        let r0 = eval_node(args[0], env, gas, depth);
        match r0.res {
            Err(e) => {},
            Ok(v) => {
                if crate::types::truthy(v) {
                    assert((args + extra).drop_first() =~= args.drop_first() + extra);
                    lemma_and_short_circuit(args.drop_first(), extra, env, r0.gas, depth);
                }
            },
        }
    }
}

/// `or` short-circuits in the same way, at the first truthy argument or
/// error.
pub proof fn lemma_or_short_circuit(
    args: Seq<NodeView>,
    extra: Seq<NodeView>,
    env: EnvModel,
    gas: int,
    depth: int,
)
    requires
        ({
            let o = eval_or(args, env, gas, depth);
            o.res is Err || o.res == Ok::<NodeView, EvalErr>(NodeView::Bool(true))
        }),
    ensures
        eval_or(args + extra, env, gas, depth) == eval_or(args, env, gas, depth),
    decreases args,
{
    reveal_with_fuel(eval_or, 2);
    if args.len() == 0 {
    } else {
        assert((args + extra)[0] == args[0]);
        let r0 = eval_node(args[0], env, gas, depth);
        match r0.res {
            Err(e) => {},
            Ok(v) => {
                if !crate::types::truthy(v) {
                    assert((args + extra).drop_first() =~= args.drop_first() + extra);
                    lemma_or_short_circuit(args.drop_first(), extra, env, r0.gas, depth);
                }
            },
        }
    }
}

/// `subset?` is reflexive: every list is a subset of itself.
pub proof fn lemma_subset_reflexive(a: Seq<NodeView>)
    ensures
        list_subset(a, a),
{
    assert forall|i: int| 0 <= i < a.len() implies list_contains(a, #[trigger] a[i]) by {
        assert(spec_node_eq(a[i], a[i]));
    }
}

/// Whether a value's own number, if it is one, is written in minimal scale.
pub open spec fn norm_view(n: NodeView) -> bool {
    match n {
        NodeView::Number(m, s) => norm_dec(m, s),
        _ => true,
    }
}

/// Every element is well formed and every number element is in minimal
/// scale.
pub open spec fn norm_elems(s: Seq<NodeView>) -> bool {
    forall|i: int| 0 <= i < s.len() ==> wf_view(#[trigger] s[i]) && norm_view(s[i])
}

/// On well-formed values whose numbers are in minimal scale, policy
/// equality is exactly plain-rendering equality: rationally equal
/// normalized decimals are identical, and the decimal rendering is
/// injective.
pub proof fn lemma_node_eq_iff_plain(a: NodeView, b: NodeView)
    requires
        wf_view(a),
        wf_view(b),
        norm_view(a),
        norm_view(b),
    ensures
        spec_node_eq(a, b) == (plain_of(a) == plain_of(b)),
{
    match (a, b) {
        (NodeView::Number(m1, s1), NodeView::Number(m2, s2)) => {
            if num_eq((m1, s1), (m2, s2)) {
                crate::types::lemma_num_eq_norm((m1, s1), (m2, s2));
            }
            if plain_of(a) == plain_of(b) {
                crate::roundtrip::lemma_dec_render_parses(m1, s1);
                crate::roundtrip::lemma_dec_render_parses(m2, s2);
                assert(crate::parser::dec_of_token(crate::render::dec_render(m1, s1))
                    == crate::parser::dec_of_token(crate::render::dec_render(m2, s2)));
                assert(m1 == m2 && s1 == s2);
            }
        }
        _ => {}
    }
}

/// `subset?` is transitive, on lists of well-formed elements whose numbers
/// are written in minimal scale. Without the scale condition a number can
/// match another number as a value but a string only as its rendering, and
/// the chain breaks: `[2.5]` is a subset of `[2.50]` and `[2.50]` of
/// `["2.50"]`, yet `[2.5]` is not a subset of `["2.50"]`.
pub proof fn lemma_subset_transitive(a: Seq<NodeView>, b: Seq<NodeView>, c: Seq<NodeView>)
    requires
        list_subset(a, b),
        list_subset(b, c),
        norm_elems(a),
        norm_elems(b),
        norm_elems(c),
    ensures
        list_subset(a, c),
{
    assert forall|i: int| 0 <= i < a.len() implies list_contains(c, #[trigger] a[i]) by {
        assert(list_contains(b, a[i]));
        let j = choose|j: int| 0 <= j < b.len() && spec_node_eq(b[j], a[i]);
        assert(list_contains(c, b[j]));
        let k = choose|k: int| 0 <= k < c.len() && spec_node_eq(c[k], b[j]);
        lemma_node_eq_iff_plain(b[j], a[i]);
        lemma_node_eq_iff_plain(c[k], b[j]);
        lemma_node_eq_iff_plain(c[k], a[i]);
        assert(spec_node_eq(c[k], a[i]));
    }
}

/// `member` agrees with `subset?` on singletons: an element is a member of
/// a list exactly when the one-element list is a subset of it.
pub proof fn lemma_member_singleton(x: NodeView, l: Seq<NodeView>)
    ensures
        list_contains(l, x) == list_subset(seq![x], l),
{
    if list_contains(l, x) {
        assert forall|i: int| 0 <= i < seq![x].len() implies list_contains(
            l,
            #[trigger] seq![x][i],
        ) by {
            assert(seq![x][i] == x);
        }
    }
    if list_subset(seq![x], l) {
        assert(seq![x][0] == x);
        assert(list_contains(l, seq![x][0]));
    }
}

/// For every valid AST whose height fits the depth limit, and every gas
/// budget of at least its node count, evaluation completes and returns a
/// value.
pub proof fn lemma_eval_completes(n: NodeView, env: EnvModel, max_gas: int)
    requires
        valid_ast(n),
        height_of(n) <= 64,
        max_gas >= count_nodes(n),
    ensures
        spec_eval_policy(n, env, max_gas).res is Ok,
{
    lemma_cost_le_count(n);
    lemma_eval_sufficient(n, env, max_gas, 0);
}

} // verus!
