//! Canonical string renderings of nodes.
//!
//! Two renderings exist, as the evaluator needs both:
//! - the display form, used for lists: booleans as `#t`/`#f`, strings quoted,
//!   lists parenthesised and space-separated;
//! - the plain form, used by equality and by `before`: booleans as
//!   `true`/`false`, strings raw, lists falling back to the display form.
use vstd::prelude::*;

use crate::text::{digit_char, digits_of, push_char};
use crate::types::{dec_cmp, lemma_view_of_nodes, num_eq, view_of_nodes, Decimal, Node, NodeView};

verus! {

pub open spec fn zeros(k: nat) -> Seq<char> {
    Seq::new(k, |i: int| '0')
}

/// The digits of `|m|`, left-padded with zeros to at least `s + 1` digits.
pub open spec fn padded_digits(m: int, s: nat) -> Seq<char> {
    let ds = digits_of(vstd::math::abs(m));
    if ds.len() >= s + 1 {
        ds
    } else {
        zeros((s + 1 - ds.len()) as nat) + ds
    }
}

/// The rendering of the decimal `m / 10^s`: sign, integer digits, and for a
/// positive scale a point followed by exactly `s` fraction digits.
pub open spec fn dec_render(m: int, s: nat) -> Seq<char> {
    let sgn: Seq<char> = if m < 0 {
        seq!['-']
    } else {
        Seq::empty()
    };
    let p = padded_digits(m, s);
    if s == 0 {
        sgn + p
    } else {
        sgn + p.take(p.len() - s) + seq!['.'] + p.skip(p.len() - s)
    }
}

/// The display rendering of a node.
pub open spec fn display_of(n: NodeView) -> Seq<char>
    decreases n, 1int,
{
    match n {
        NodeView::Bool(b) => if b {
            "#t"@
        } else {
            "#f"@
        },
        NodeView::Number(m, s) => dec_render(m, s),
        NodeView::Str(s) => seq!['"'] + s + seq!['"'],
        NodeView::Symbol(s) => s,
        NodeView::Nil => "nil"@,
        NodeView::List(items) => seq!['('] + display_items(items) + seq![')'],
    }
}

/// The display renderings of list elements, space-separated.
pub open spec fn display_items(items: Seq<NodeView>) -> Seq<char>
    decreases items, 0int,
{
    if items.len() == 0 {
        Seq::empty()
    } else if items.len() == 1 {
        display_of(items[0])
    } else {
        display_of(items[0]) + seq![' '] + display_items(items.drop_first())
    }
}

/// The plain rendering of a node: the form equality and `before` compare.
pub open spec fn plain_of(n: NodeView) -> Seq<char> {
    match n {
        NodeView::Bool(b) => if b {
            "true"@
        } else {
            "false"@
        },
        NodeView::Number(m, s) => dec_render(m, s),
        NodeView::Str(s) => s,
        NodeView::Symbol(s) => s,
        NodeView::Nil => "nil"@,
        NodeView::List(items) => display_of(n),
    }
}

/// Node equality as the evaluator's `=`, `member` and `subset?` use it.
/// Two numbers are equal as rationals, cross-multiplied, so `2.5` equals
/// `2.50`; any other pair is equal when the plain renderings are the same
/// text, which gives equal strings and symbols, the deliberate text/symbol
/// coercion, and the rendering fallback for mixed pairs.
pub open spec fn spec_node_eq(a: NodeView, b: NodeView) -> bool {
    match (a, b) {
        (NodeView::Number(m1, s1), NodeView::Number(m2, s2)) => num_eq((m1, s1), (m2, s2)),
        _ => plain_of(a) == plain_of(b),
    }
}

proof fn lemma_display_items_push(items: Seq<NodeView>, x: NodeView)
    ensures
        items.len() == 0 ==> display_items(items.push(x)) == display_of(x),
        items.len() > 0 ==> display_items(items.push(x)) == display_items(items)
            + seq![' '] + display_of(x),
    decreases items.len(),
{
    let p = items.push(x);
    if items.len() == 0 {
        assert(p.len() == 1);
        assert(p[0] == x);
    } else {
        assert(p.len() >= 2);
        assert(p[0] == items[0]);
        assert(p.drop_first() =~= items.drop_first().push(x));
        lemma_display_items_push(items.drop_first(), x);
        if items.len() == 1 {
            assert(display_items(items) == display_of(items[0]));
        }
    }
}

fn digits_vec(n: u64) -> (v: Vec<char>)
    ensures
        v@ == digits_of(n as nat),
    decreases n,
{
    if n < 10 {
        let c: char = ((48 + (n as u8)) as char);
        let mut v: Vec<char> = Vec::new();
        v.push(c);
        proof {
            assert(v@ =~= seq![digit_char(n as int)]);
        }
        v
    } else {
        let mut v = digits_vec(n / 10);
        let c: char = ((48 + ((n % 10) as u8)) as char);
        v.push(c);
        proof {
            assert((n / 10) as nat == (n as nat) / 10);
            assert((n % 10) as nat == (n as nat) % 10);
        }
        v
    }
}

/// Appends the rendering of a decimal to `out`.
#[verifier::rlimit(60)]
pub fn write_decimal(d: &Decimal, out: &mut String)
    requires
        d.wf(),
    ensures
        final(out)@ == old(out)@ + dec_render(d.m(), d.s()),
{
    let ghost entry = out@;
    if d.mantissa < 0 {
        push_char(out, '-');
    }
    let mag: u64 = if d.mantissa < 0 {
        (-d.mantissa) as u64
    } else {
        d.mantissa as u64
    };
    proof {
        assert(mag as nat == vstd::math::abs(d.m()));
    }
    let ds = digits_vec(mag);
    let scale = d.scale as usize;
    if scale == 0 {
        let mut i: usize = 0;
        let n = ds.len();
        while i < n
            invariant
                n == ds@.len(),
                0 <= i <= n,
                out@ == (if d.m() < 0 { entry.push('-') } else { entry }) + ds@.take(i as int),
            decreases n - i,
        {
            push_char(out, ds[i]);
            proof {
                assert(ds@.take(i as int).push(ds@[i as int]) =~= ds@.take(i + 1));
            }
            i += 1;
        }
        proof {
            assert(ds@.take(n as int) =~= ds@);
            assert(padded_digits(d.m(), 0) == ds@);
            if d.m() < 0 {
                assert(entry.push('-') =~= entry + seq!['-']);
                assert(out@ =~= entry + dec_render(d.m(), d.s()));
            } else {
                assert(Seq::<char>::empty() + ds@ =~= ds@);
                assert(out@ =~= entry + dec_render(d.m(), d.s()));
            }
        }
    } else {
        // left-pad the digits to at least scale + 1, so that at least one
        // digit stands before the point
        let mut p: Vec<char> = Vec::new();
        let mut k: usize = ds.len();
        while k < scale + 1
            invariant
                d.s() <= 19,
                scale == d.s(),
                k >= ds@.len(),
                k <= scale + 1 || k == ds@.len(),
                p@ =~= zeros((k - ds@.len()) as nat),
            decreases scale + 1 - k,
        {
            p.push('0');
            proof {
                assert(zeros((k - ds@.len()) as nat).push('0')
                    =~= zeros((k + 1 - ds@.len()) as nat));
            }
            k += 1;
        }
        let mut j: usize = 0;
        let dn = ds.len();
        let ghost pz = p@;
        while j < dn
            invariant
                dn == ds@.len(),
                0 <= j <= dn,
                p@ == pz + ds@.take(j as int),
            decreases dn - j,
        {
            let c = ds[j];
            p.push(c);
            proof {
                assert(ds@.take(j as int).push(ds@[j as int]) =~= ds@.take(j + 1));
            }
            j += 1;
        }
        proof {
            assert(ds@.take(dn as int) =~= ds@);
            assert(p@ == pz + ds@);
            assert(p@ =~= padded_digits(d.m(), d.s()));
        }
        // integer part, point, fraction part
        let plen = p.len();
        let cut = plen - scale;
        let ghost before_digits = out@;
        let mut i: usize = 0;
        while i < cut
            invariant
                plen == p@.len(),
                cut <= plen,
                0 <= i <= cut,
                out@ == before_digits + p@.take(i as int),
            decreases cut - i,
        {
            push_char(out, p[i]);
            proof {
                assert(p@.take(i as int).push(p@[i as int]) =~= p@.take(i + 1));
            }
            i += 1;
        }
        push_char(out, '.');
        let ghost after_dot = out@;
        let mut i2: usize = cut;
        while i2 < plen
            invariant
                plen == p@.len(),
                cut <= i2 <= plen,
                out@ == after_dot + p@.take(i2 as int).skip(cut as int),
            decreases plen - i2,
        {
            push_char(out, p[i2]);
            proof {
                assert(p@.take(i2 as int).skip(cut as int).push(p@[i2 as int])
                    =~= p@.take(i2 + 1).skip(cut as int));
            }
            i2 += 1;
        }
        proof {
            let m = d.m();
            let s = d.s();
            let pd = padded_digits(m, s);
            assert(p@.take(plen as int) =~= p@);
            assert(p@.take(plen as int).skip(cut as int) =~= pd.skip(pd.len() - s));
            assert(before_digits + pd.take(pd.len() - s) =~= before_digits + p@.take(cut as int));
            if m < 0 {
                assert(entry.push('-') =~= entry + seq!['-']);
            }
            assert(after_dot =~= before_digits + pd.take(pd.len() - s) + seq!['.']);
            assert(out@ =~= entry + dec_render(m, s));
        }
    }
}

/// Appends the display rendering of `n` to `out`.
pub fn write_display(n: &Node, out: &mut String)
    requires
        crate::types::wf_view(n@),
    ensures
        final(out)@ == old(out)@ + display_of(n@),
    decreases n,
{
    match n {
        Node::Bool(b) => {
            if *b {
                out.append("#t");
            } else {
                out.append("#f");
            }
        }
        Node::Number(d) => {
            write_decimal(d, out);
        }
        Node::Str(s) => {
            push_char(out, '"');
            out.append(s.as_str());
            push_char(out, '"');
            proof {
                assert(old(out)@.push('"') + s@ =~= old(out)@ + (seq!['"'] + s@));
                assert((old(out)@ + (seq!['"'] + s@)).push('"')
                    =~= old(out)@ + (seq!['"'] + s@ + seq!['"']));
            }
        }
        Node::Symbol(s) => {
            out.append(s.as_str());
        }
        Node::Nil => {
            out.append("nil");
        }
        Node::List(items) => {
            let ghost entry = out@;
            push_char(out, '(');
            proof {
                assert(entry.push('(') =~= entry + seq!['(']);
                lemma_view_of_nodes(items@);
            }
            let n_items = items.len();
            let mut i: usize = 0;
            while i < n_items
                invariant
                    *n is List && (*n)->List_0 == *items,
                    crate::types::wf_view(n@),
                    n_items == items@.len(),
                    0 <= i <= n_items,
                    view_of_nodes(items@).len() == n_items,
                    forall|j: int| 0 <= j < n_items
                        ==> view_of_nodes(items@)[j] == items@[j]@,
                    out@ == entry + seq!['(']
                        + display_items(view_of_nodes(items@).take(i as int)),
                decreases n_items - i,
            {
                if i > 0 {
                    push_char(out, ' ');
                }
                proof {
                    assert(decreases_to!(*n => (*n)->List_0));
                    assert(decreases_to!(*items => items[i as int]));
                    let vs = view_of_nodes(items@);
                    assert(n@ == NodeView::List(vs));
                    assert(crate::types::wf_list(vs));
                    crate::types::lemma_wf_list_elem(vs, i as int);
                }
                write_display(&items[i], out);
                proof {
                    let vs = view_of_nodes(items@);
                    assert(vs.take(i as int).push(vs[i as int]) =~= vs.take(i + 1));
                    lemma_display_items_push(vs.take(i as int), vs[i as int]);
                    if i > 0 {
                        assert(out@ =~= entry + seq!['('] + display_items(vs.take(i + 1)));
                    } else {
                        assert(out@ =~= entry + seq!['('] + display_items(vs.take(1)));
                    }
                }
                i += 1;
            }
            push_char(out, ')');
            proof {
                let vs = view_of_nodes(items@);
                assert(vs.take(n_items as int) =~= vs);
                assert(out@ =~= entry + (seq!['('] + display_items(vs) + seq![')']));
            }
        }
    }
}

/// Appends the plain rendering of `n` to `out`.
pub fn write_plain(n: &Node, out: &mut String)
    requires
        crate::types::wf_view(n@),
    ensures
        final(out)@ == old(out)@ + plain_of(n@),
{
    match n {
        Node::Bool(b) => {
            if *b {
                out.append("true");
            } else {
                out.append("false");
            }
        }
        Node::Number(d) => {
            write_decimal(d, out);
        }
        Node::Str(s) => {
            out.append(s.as_str());
        }
        Node::Symbol(s) => {
            out.append(s.as_str());
        }
        Node::Nil => {
            out.append("nil");
        }
        Node::List(_) => {
            write_display(n, out);
        }
    }
}

/// The display rendering of a node: the canonical S-expression text.
pub fn display_string(n: &Node) -> (r: String)
    requires
        crate::types::wf_view(n@),
    ensures
        r@ == display_of(n@),
{
    let mut out = String::new();
    write_display(n, &mut out);
    proof {
        assert(Seq::<char>::empty() + display_of(n@) =~= display_of(n@));
    }
    out
}

/// The plain rendering of a node: what equality and `before` compare.
pub fn plain_string(n: &Node) -> (r: String)
    requires
        crate::types::wf_view(n@),
    ensures
        r@ == plain_of(n@),
{
    let mut out = String::new();
    write_plain(n, &mut out);
    proof {
        assert(Seq::<char>::empty() + plain_of(n@) =~= plain_of(n@));
    }
    out
}

/// Node equality: numbers by value, everything else by plain rendering.
pub fn node_eq(a: &Node, b: &Node) -> (r: bool)
    requires
        crate::types::wf_view(a@),
        crate::types::wf_view(b@),
    ensures
        r == spec_node_eq(a@, b@),
{
    match (a, b) {
        (Node::Number(da), Node::Number(db)) => dec_cmp(da, db) == 0,
        _ => {
            let sa = plain_string(a);
            let sb = plain_string(b);
            sa == sb
        }
    }
}

} // verus!
