//! The policy AST and runtime value model.
//!
//! One tagged variant, [`Node`], represents both parsed S-expression nodes and
//! evaluated values. Numbers are exact decimals: a signed mantissa and a
//! power-of-ten scale, so `-3.14` is mantissa `-314` at scale `2`. The
//! mathematical model of a node is [`NodeView`], where text is a `Seq<char>`
//! and a decimal is its mantissa and scale as unbounded integers.
use vstd::prelude::*;

use crate::text::{digit_char, digits_of, is_ws, push_char, str_eq};

verus! {

/// An exact decimal number: `mantissa / 10^scale`.
///
/// Kept within [`Decimal::wf`] bounds so that cross-multiplied comparisons of
/// two decimals stay inside `i128`.
#[derive(Clone, Copy, Debug)]
pub struct Decimal {
    pub mantissa: i64,
    pub scale: u32,
}

/// AST node for policy S-expressions.
#[derive(Debug)]
pub enum Node {
    Bool(bool),
    Number(Decimal),
    Str(String),
    Symbol(String),
    List(Vec<Node>),
    Nil,
}

/// The mathematical model of a [`Node`].
pub enum NodeView {
    Bool(bool),
    /// Mantissa and scale: the number `mantissa / 10^scale`.
    Number(int, nat),
    Str(Seq<char>),
    Symbol(Seq<char>),
    List(Seq<NodeView>),
    Nil,
}

impl Decimal {
    /// Bounds under which comparisons cannot overflow `i128`:
    /// the mantissa is symmetric around zero and the scale at most 19.
    pub open spec fn wf(self) -> bool {
        -0x7fff_ffff_ffff_ffff <= self.mantissa && self.scale <= 19
    }

    pub open spec fn m(self) -> int {
        self.mantissa as int
    }

    pub open spec fn s(self) -> nat {
        self.scale as nat
    }

    pub fn new(mantissa: i64, scale: u32) -> (r: Decimal)
        requires
            -0x7fff_ffff_ffff_ffff <= mantissa,
            scale <= 19,
        ensures
            r.m() == mantissa as int && r.s() == scale as nat,
            r.wf(),
    {
        Decimal { mantissa, scale }
    }

    pub fn from_int(mantissa: i64) -> (r: Decimal)
        requires
            -0x7fff_ffff_ffff_ffff <= mantissa,
        ensures
            r.m() == mantissa as int && r.s() == 0,
            r.wf(),
    {
        Decimal { mantissa, scale: 0 }
    }
}

impl View for Node {
    type V = NodeView;

    open spec fn view(&self) -> NodeView
        decreases self,
    {
        match self {
            Node::Bool(b) => NodeView::Bool(*b),
            Node::Number(d) => NodeView::Number(d.m(), d.s()),
            Node::Str(s) => NodeView::Str(s@),
            Node::Symbol(s) => NodeView::Symbol(s@),
            Node::List(items) => NodeView::List(view_of_nodes(items@)),
            Node::Nil => NodeView::Nil,
        }
    }
}

/// The views of a sequence of nodes, elementwise.
pub open spec fn view_of_nodes(s: Seq<Node>) -> Seq<NodeView>
    decreases s,
{
    if s.len() == 0 {
        Seq::empty()
    } else {
        view_of_nodes(s.drop_last()).push(s.last()@)
    }
}

pub broadcast proof fn lemma_view_of_nodes(s: Seq<Node>)
    ensures
        (#[trigger] view_of_nodes(s)).len() == s.len(),
        forall|i: int| 0 <= i < s.len() ==> view_of_nodes(s)[i] == s[i]@,
    decreases s,
{
    if s.len() > 0 {
        lemma_view_of_nodes(s.drop_last());
        assert(view_of_nodes(s) == view_of_nodes(s.drop_last()).push(s.last()@));
        assert forall|i: int| 0 <= i < s.len() implies view_of_nodes(s)[i] == s[i]@ by {
            if i < s.len() - 1 {
                assert(view_of_nodes(s.drop_last()).push(s.last()@)[i]
                    == view_of_nodes(s.drop_last())[i]);
                assert(s.drop_last()[i] == s[i]);
            }
        }
    }
}

/// Well-formedness of a node model: every decimal in it obeys the
/// [`Decimal::wf`] bounds.
pub open spec fn wf_view(n: NodeView) -> bool
    decreases n, 1int,
{
    match n {
        NodeView::Number(m, s) => -0x7fff_ffff_ffff_ffff <= m <= 0x7fff_ffff_ffff_ffff
            && s <= 19,
        NodeView::List(items) => wf_list(items),
        _ => true,
    }
}

pub open spec fn wf_list(items: Seq<NodeView>) -> bool
    decreases items, 0int,
{
    if items.len() == 0 {
        true
    } else {
        wf_view(items[0]) && wf_list(items.drop_first())
    }
}

/// A list of nodes is well formed exactly when each element is.
pub proof fn lemma_wf_list(items: Seq<NodeView>)
    ensures
        wf_list(items) <==> (forall|i: int|
            0 <= i < items.len() ==> wf_view(#[trigger] items[i])),
    decreases items.len(),
{
    if items.len() > 0 {
        lemma_wf_list(items.drop_first());
        if wf_view(items[0]) && wf_list(items.drop_first()) {
            assert forall|i: int| 0 <= i < items.len() implies wf_view(#[trigger] items[i]) by {
                if i > 0 {
                    assert(items[i] == items.drop_first()[i - 1]);
                }
            }
        }
        if forall|i: int| 0 <= i < items.len() ==> wf_view(#[trigger] items[i]) {
            assert forall|i: int|
                0 <= i < items.drop_first().len()
                implies wf_view(#[trigger] items.drop_first()[i]) by {
                assert(items.drop_first()[i] == items[i + 1]);
            }
        }
    }
}

pub proof fn lemma_wf_list_elem(items: Seq<NodeView>, i: int)
    requires
        wf_list(items),
        0 <= i < items.len(),
    ensures
        wf_view(items[i]),
{
    lemma_wf_list(items);
}

/// The number of nodes in an AST, every leaf and list node counted once.
pub open spec fn count_nodes(n: NodeView) -> nat
    decreases n,
{
    match n {
        NodeView::List(items) => 1 + count_in_list(items),
        _ => 1,
    }
}

pub open spec fn count_in_list(s: Seq<NodeView>) -> nat
    decreases s,
{
    if s.len() == 0 {
        0
    } else {
        count_nodes(s[0]) + count_in_list(s.drop_first())
    }
}

/// The structural height of an AST: what the evaluator's depth counter
/// reaches while evaluating it.
pub open spec fn height_of(n: NodeView) -> nat
    decreases n,
{
    match n {
        NodeView::List(items) => 1 + height_in_list(items),
        _ => 1,
    }
}

pub open spec fn height_in_list(s: Seq<NodeView>) -> nat
    decreases s,
{
    if s.len() == 0 {
        0
    } else if height_of(s[0]) >= height_in_list(s.drop_first()) {
        height_of(s[0])
    } else {
        height_in_list(s.drop_first())
    }
}

/// Truthiness: `Bool` is itself, `Nil` is false, a number is true unless
/// zero, everything else is true.
pub open spec fn truthy(n: NodeView) -> bool {
    match n {
        NodeView::Bool(b) => b,
        NodeView::Nil => false,
        NodeView::Number(m, s) => m != 0,
        _ => true,
    }
}

/// Policy evaluation error, carrying its diagnostic message.
#[derive(Clone, Debug)]
pub struct SplError(pub String);

impl View for SplError {
    type V = Seq<char>;

    open spec fn view(&self) -> Seq<char> {
        self.0@
    }
}

impl SplError {
    /// The diagnostic message.
    pub fn message(&self) -> (r: &String)
        ensures
            r@ == self@,
    {
        &self.0
    }
}

impl Node {
    pub fn is_truthy(&self) -> (r: bool)
        ensures
            r == truthy(self@),
    {
        match self {
            Node::Bool(b) => *b,
            Node::Nil => false,
            Node::Number(d) => d.mantissa != 0,
            _ => true,
        }
    }

    /// The text of a `Str` or `Symbol` node, if it is one.
    pub fn as_str(&self) -> (r: Option<&String>)
        ensures
            match r {
                Some(s) => (self@ matches NodeView::Str(t) && t == s@)
                    || (self@ matches NodeView::Symbol(t) && t == s@),
                None => !(self@ is Str) && !(self@ is Symbol),
            },
    {
        match self {
            Node::Str(s) => Some(s),
            Node::Symbol(s) => Some(s),
            _ => None,
        }
    }

    /// The numeric coercion the comparison operators use: a `Number` is
    /// itself, anything else is zero.
    pub fn as_number(&self) -> (r: Decimal)
        ensures
            r.m() == spec_as_number(self@).0 && r.s() == spec_as_number(self@).1,
    {
        match self {
            Node::Number(d) => *d,
            _ => Decimal { mantissa: 0, scale: 0 },
        }
    }

    /// A structurally equal copy, verified deeply.
    pub fn duplicate(&self) -> (r: Node)
        ensures
            r@ == self@,
        decreases self,
    {
        match self {
            Node::Bool(b) => Node::Bool(*b),
            Node::Number(d) => Node::Number(*d),
            Node::Str(s) => Node::Str(s.clone()),
            Node::Symbol(s) => Node::Symbol(s.clone()),
            Node::Nil => Node::Nil,
            Node::List(items) => {
                let mut out: Vec<Node> = Vec::new();
                let n = items.len();
                let mut i: usize = 0;
                while i < n
                    invariant
                        *self is List && (*self)->List_0 == *items,
                        n == items@.len(),
                        0 <= i <= n,
                        out@.len() == i,
                        forall|j: int| 0 <= j < i ==> out@[j]@ == items@[j]@,
                    decreases n - i,
                {
                    proof {
                        assert((*self)->List_0 == *items);
                        assert(decreases_to!(*self => (*self)->List_0));
                        assert(decreases_to!(*items => items[i as int]));
                    }
                    let child = items[i].duplicate();
                    out.push(child);
                    i += 1;
                }
                proof {
                    lemma_view_of_nodes(out@);
                    lemma_view_of_nodes(items@);
                    assert(view_of_nodes(out@) =~= view_of_nodes(items@));
                }
                Node::List(out)
            }
        }
    }
}

impl Node {
    /// Structural equality of two nodes, decided deeply.
    pub fn deep_eq(&self, other: &Node) -> (r: bool)
        ensures
            r == (self@ == other@),
        decreases self,
    {
        match (self, other) {
            (Node::Bool(a), Node::Bool(b)) => {
                let r = *a == *b;
                proof {
                    assert(r == (self@ == other@));
                }
                r
            }
            (Node::Number(a), Node::Number(b)) => {
                let r = a.mantissa == b.mantissa && a.scale == b.scale;
                proof {
                    assert(r == (self@ == other@));
                }
                r
            }
            (Node::Str(a), Node::Str(b)) => {
                let r = str_eq(a.as_str(), b.as_str());
                proof {
                    assert(r == (self@ == other@));
                }
                r
            }
            (Node::Symbol(a), Node::Symbol(b)) => {
                let r = str_eq(a.as_str(), b.as_str());
                proof {
                    assert(r == (self@ == other@));
                }
                r
            }
            (Node::Nil, Node::Nil) => true,
            (Node::List(a), Node::List(b)) => {
                proof {
                    lemma_view_of_nodes(a@);
                    lemma_view_of_nodes(b@);
                }
                if a.len() != b.len() {
                    proof {
                        assert(view_of_nodes(a@).len() != view_of_nodes(b@).len());
                    }
                    return false;
                }
                let n = a.len();
                let mut i: usize = 0;
                while i < n
                    invariant
                        *self is List && (*self)->List_0 == *a,
                        *other is List && (*other)->List_0 == *b,
                        n == a@.len(),
                        n == b@.len(),
                        0 <= i <= n,
                        view_of_nodes(a@).len() == n,
                        view_of_nodes(b@).len() == n,
                        forall|j: int| 0 <= j < n ==> view_of_nodes(a@)[j] == #[trigger] a@[j]@,
                        forall|j: int| 0 <= j < n ==> view_of_nodes(b@)[j] == #[trigger] b@[j]@,
                        forall|j: int| 0 <= j < i
                            ==> view_of_nodes(a@)[j] == #[trigger] view_of_nodes(b@)[j],
                    decreases n - i,
                {
                    proof {
                        assert(decreases_to!(*self => (*self)->List_0));
                        assert(decreases_to!(*a => a[i as int]));
                    }
                    if !a[i].deep_eq(&b[i]) {
                        proof {
                            assert(view_of_nodes(a@)[i as int] != view_of_nodes(b@)[i as int]);
                        }
                        return false;
                    }
                    i += 1;
                }
                proof {
                    assert(view_of_nodes(a@) =~= view_of_nodes(b@));
                }
                true
            }
            _ => {
                proof {
                    assert(self@ != other@);
                }
                false
            }
        }
    }
}

impl PartialEq for Node {
    fn eq(&self, other: &Node) -> (r: bool) {
        self.deep_eq(other)
    }
}

impl vstd::std_specs::cmp::PartialEqSpecImpl for Node {
    open spec fn obeys_eq_spec() -> bool {
        true
    }

    open spec fn eq_spec(&self, other: &Node) -> bool {
        self@ == other@
    }
}

/// Mantissa and scale of the numeric coercion: a `Number` is itself,
/// anything else is zero.
pub open spec fn spec_as_number(n: NodeView) -> (int, nat) {
    match n {
        NodeView::Number(m, s) => (m, s),
        _ => (0int, 0nat),
    }
}


pub open spec fn pow10(n: nat) -> int
    decreases n,
{
    if n == 0 {
        1
    } else {
        10 * pow10((n - 1) as nat)
    }
}

/// Order of two decimals as rationals: `a/10^as < b/10^bs` cross-multiplied.
pub open spec fn num_lt(a: (int, nat), b: (int, nat)) -> bool {
    a.0 * pow10(b.1) < b.0 * pow10(a.1)
}

pub open spec fn num_le(a: (int, nat), b: (int, nat)) -> bool {
    a.0 * pow10(b.1) <= b.0 * pow10(a.1)
}

/// Equality of two decimals as rationals: `a/10^as == b/10^bs`
/// cross-multiplied.
pub open spec fn num_eq(a: (int, nat), b: (int, nat)) -> bool {
    a.0 * pow10(b.1) == b.0 * pow10(a.1)
}

/// A decimal written in its minimal scale: no trailing zero digit in the
/// fraction (so `2.5`, but not `2.50`; an integer value only at scale 0).
pub open spec fn norm_dec(m: int, s: nat) -> bool {
    s == 0 || m % 10 != 0
}

proof fn lemma_pow10_add(x: nat, y: nat)
    ensures
        pow10((x + y) as nat) == pow10(x) * pow10(y),
    decreases y,
{
    if y == 0 {
        assert(pow10(x) * 1 == pow10(x)) by (nonlinear_arith);
    } else {
        lemma_pow10_add(x, (y - 1) as nat);
        assert((x + y - 1) as nat + 1 == (x + y) as nat);
        assert(pow10((x + y) as nat) == 10 * (pow10(x) * pow10((y - 1) as nat)));
        assert(10 * (pow10(x) * pow10((y - 1) as nat)) == pow10(x) * (10 * pow10(
            (y - 1) as nat,
        ))) by (nonlinear_arith);
    }
}

/// Two rationally equal decimals, both in minimal scale, are the same
/// mantissa and scale.
pub proof fn lemma_num_eq_norm(a: (int, nat), b: (int, nat))
    requires
        num_eq(a, b),
        norm_dec(a.0, a.1),
        norm_dec(b.0, b.1),
    ensures
        a == b,
{
    if a.1 <= b.1 {
        lemma_num_eq_norm_ordered(a, b);
    } else {
        lemma_num_eq_norm_ordered(b, a);
    }
}

proof fn lemma_num_eq_norm_ordered(a: (int, nat), b: (int, nat))
    requires
        a.0 * pow10(b.1) == b.0 * pow10(a.1),
        norm_dec(a.0, a.1),
        norm_dec(b.0, b.1),
        a.1 <= b.1,
    ensures
        a == b,
{
    let k = (b.1 - a.1) as nat;
    let pa = pow10(a.1);
    lemma_pow10_pos(a.1);
    lemma_pow10_add(a.1, k);
    assert((a.1 + k) as nat == b.1);
    assert((a.0 * pow10(k)) * pa == b.0 * pa) by (nonlinear_arith)
        requires
            a.0 * (pa * pow10(k)) == b.0 * pa,
    ;
    assert(a.0 * pow10(k) == b.0) by (nonlinear_arith)
        requires
            (a.0 * pow10(k)) * pa == b.0 * pa,
            pa >= 1,
    ;
    if k >= 1 {
        assert(pow10(k) == 10 * pow10((k - 1) as nat));
        assert(b.0 == (a.0 * pow10((k - 1) as nat)) * 10) by (nonlinear_arith)
            requires
                a.0 * (10 * pow10((k - 1) as nat)) == b.0,
        ;
        assert(b.0 % 10 == 0) by (nonlinear_arith)
            requires
                b.0 == (a.0 * pow10((k - 1) as nat)) * 10,
        ;
        assert(b.1 >= 1);
        assert(false);
    }
    assert(a.1 == b.1);
    assert(a.0 * pow10(0) == a.0) by (nonlinear_arith);
}

pub proof fn lemma_pow10_pos(s: nat)
    ensures
        1 <= pow10(s),
    decreases s,
{
    if s > 0 {
        lemma_pow10_pos((s - 1) as nat);
    }
}

proof fn lemma_pow10_mono(i: nat, j: nat)
    requires
        i <= j,
    ensures
        pow10(i) <= pow10(j),
    decreases j - i,
{
    if i < j {
        lemma_pow10_mono(i, (j - 1) as nat);
        lemma_pow10_pos((j - 1) as nat);
        assert(pow10(j) == 10 * pow10((j - 1) as nat));
    }
}

/// Powers of ten from the twentieth digit on exceed the mantissa bound.
pub proof fn lemma_pow10_large(k: nat)
    requires
        k >= 19,
    ensures
        pow10(k) > 0x7fff_ffff_ffff_ffff,
{
    lemma_pow10_mono(19, k);
    assert(pow10(19) == 10_000_000_000_000_000_000) by {
        reveal_with_fuel(pow10, 21);
    }
}

proof fn lemma_pow10_bounds(s: nat)
    requires
        s <= 19,
    ensures
        1 <= pow10(s) <= 10_000_000_000_000_000_000,
{
    lemma_pow10_pos(s);
    lemma_pow10_mono(s, 19);
    assert(pow10(19) == 10_000_000_000_000_000_000) by {
        reveal_with_fuel(pow10, 21);
    }
}

pub fn pow10_i128(s: u32) -> (r: i128)
    requires
        s <= 19,
    ensures
        r as int == pow10(s as nat),
        1 <= r <= 10_000_000_000_000_000_000,
{
    let mut r: i128 = 1;
    let mut k: u32 = 0;
    proof {
        lemma_pow10_bounds(s as nat);
    }
    while k < s
        invariant
            0 <= k <= s <= 19,
            r as int == pow10(k as nat),
            1 <= r <= 10_000_000_000_000_000_000,
        decreases s - k,
    {
        proof {
            lemma_pow10_bounds(k as nat);
            lemma_pow10_bounds((k + 1) as nat);
            assert(pow10((k + 1) as nat) == 10 * pow10(k as nat));
        }
        r = r * 10;
        k = k + 1;
    }
    r
}

/// Compares two decimals as rationals by cross-multiplying into `i128`.
/// Returns -1, 0 or 1.
pub fn dec_cmp(a: &Decimal, b: &Decimal) -> (r: i8)
    requires
        a.wf(),
        b.wf(),
    ensures
        r == -1 || r == 0 || r == 1,
        (r == -1) == num_lt((a.m(), a.s()), (b.m(), b.s())),
        (r == 1) == num_lt((b.m(), b.s()), (a.m(), a.s())),
        (r == 0) == (a.m() * pow10(b.s()) == b.m() * pow10(a.s())),
{
    let pb = pow10_i128(b.scale);
    let pa = pow10_i128(a.scale);
    proof {
        lemma_mul_in_range(a.mantissa as int, pb as int);
        lemma_mul_in_range(b.mantissa as int, pa as int);
    }
    let lhs: i128 = (a.mantissa as i128) * pb;
    let rhs: i128 = (b.mantissa as i128) * pa;
    if lhs < rhs {
        -1
    } else if lhs == rhs {
        0
    } else {
        1
    }
}

pub proof fn lemma_mul_in_range(m: int, p: int)
    requires
        -0x7fff_ffff_ffff_ffff <= m <= 0x7fff_ffff_ffff_ffff,
        1 <= p <= 10_000_000_000_000_000_000,
    ensures
        -0x8000_0000_0000_0000_0000_0000_0000_0000 <= m * p
            <= 0x7fff_ffff_ffff_ffff_ffff_ffff_ffff_ffff,
{
    assert(m * p <= 0x7fff_ffff_ffff_ffff * 10_000_000_000_000_000_000
        && m * p >= -0x7fff_ffff_ffff_ffff * 10_000_000_000_000_000_000) by (nonlinear_arith)
        requires
            -0x7fff_ffff_ffff_ffff <= m <= 0x7fff_ffff_ffff_ffff,
            1 <= p <= 10_000_000_000_000_000_000,
    ;
}


} // verus!
