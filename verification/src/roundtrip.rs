//! Parsing is a left inverse of canonical display: for displayable ASTs,
//! parsing the display rendering gives the same AST back.
//!
//! Displayable excludes exactly what the concrete syntax cannot carry: the
//! `Nil` literal (its rendering reads back as the symbol `nil`), strings
//! holding a quote or ending in a backslash (display does not escape), and
//! symbols whose text would read back as something else — empty, containing
//! delimiters, or spelling a boolean or a number.
use vstd::prelude::*;

use crate::parser::{
    dec_of_token, dot_pos, exp_pos, lemma_dot_pos, lemma_dot_pos_at, parse_atom_spec, unescape,
};
use crate::render::{dec_render, display_items, display_of, padded_digits, zeros};
use crate::text::{
    all_digits, digit_char, digit_val, digits_of, digits_val, is_digit, is_ws,
};
use crate::types::NodeView;

verus! {

/// A character that the tokenizer reads as part of an atom.
pub open spec fn plain_char(c: char) -> bool {
    !is_ws(c) && c != '(' && c != ')' && c != '"'
}

/// A symbol text that reads back as itself: non-empty, free of delimiters,
/// and not spelling a boolean or a number.
pub open spec fn symbol_text_ok(s: Seq<char>) -> bool {
    s.len() > 0 && (forall|i: int| 0 <= i < s.len() ==> plain_char(#[trigger] s[i]))
        && parse_atom_spec(s) == NodeView::Symbol(s)
}

/// The ASTs whose display rendering parses back to themselves.
pub open spec fn displayable(n: NodeView) -> bool
    decreases n, 1int,
{
    match n {
        NodeView::Bool(b) => true,
        NodeView::Number(m, s) => -0x7fff_ffff_ffff_ffff <= m <= 0x7fff_ffff_ffff_ffff && s
            <= 19,
        NodeView::Str(s) => (forall|i: int| 0 <= i < s.len() ==> s[i] != '"') && (s.len() == 0
            || s.last() != '\\'),
        NodeView::Symbol(s) => symbol_text_ok(s),
        NodeView::Nil => false,
        NodeView::List(items) => displayable_list(items),
    }
}

pub open spec fn displayable_list(items: Seq<NodeView>) -> bool
    decreases items, 0int,
{
    if items.len() == 0 {
        true
    } else {
        displayable(items[0]) && displayable_list(items.drop_first())
    }
}

/// The tokens that the display rendering of a node produces.
pub open spec fn tokens_of(n: NodeView) -> Seq<Seq<char>>
    decreases n, 1int,
{
    match n {
        NodeView::List(items) => seq![seq!['(']] + tokens_in_list(items) + seq![seq![')']],
        NodeView::Str(s) => seq![seq!['"'] + s + seq!['"']],
        _ => seq![display_of(n)],
    }
}

pub open spec fn tokens_in_list(items: Seq<NodeView>) -> Seq<Seq<char>>
    decreases items, 0int,
{
    if items.len() == 0 {
        Seq::empty()
    } else {
        tokens_of(items[0]) + tokens_in_list(items.drop_first())
    }
}

proof fn lemma_digits_of_digits(n: nat)
    ensures
        digits_of(n).len() >= 1,
        all_digits(digits_of(n)),
    decreases n,
{
    if n >= 10 {
        lemma_digits_of_digits(n / 10);
        let ds = digits_of(n / 10);
        assert forall|i: int| 0 <= i < digits_of(n).len() implies is_digit(
            #[trigger] digits_of(n)[i],
        ) by {
            if i < ds.len() {
                assert(digits_of(n)[i] == ds[i]);
            } else {
                assert(digits_of(n)[i] == digit_char((n % 10) as int));
            }
        }
    }
}

proof fn lemma_digits_val_of(n: nat)
    ensures
        digits_val(digits_of(n)) == n,
    decreases n,
{
    reveal_with_fuel(crate::text::digits_val, 2);
    if n < 10 {
        assert(digits_of(n) == seq![digit_char(n as int)]);
        assert(digits_of(n).drop_last() =~= Seq::<char>::empty());
        assert(digits_val(Seq::<char>::empty()) == 0);
        assert(digits_of(n).last() == digit_char(n as int));
        assert(digit_char(n as int) as int == 48 + n);
        assert(digit_val(digit_char(n as int)) == n);
        assert(digits_val(digits_of(n)) == digits_val(Seq::<char>::empty()) * 10 + digit_val(
            digit_char(n as int),
        ));
    } else {
        lemma_digits_val_of(n / 10);
        let ds = digits_of(n / 10);
        assert(digits_of(n) == ds.push(digit_char((n % 10) as int)));
        assert(digits_of(n).drop_last() =~= ds);
        assert(digit_val(digit_char((n % 10) as int)) == n % 10);
        assert(10 * (n / 10) + n % 10 == n) by (nonlinear_arith);
    }
}

proof fn lemma_digits_val_zeros_prefix(k: nat, ds: Seq<char>)
    ensures
        digits_val(zeros(k) + ds) == digits_val(ds),
    decreases ds.len(),
{
    if ds.len() == 0 {
        assert(zeros(k) + ds =~= zeros(k));
        lemma_digits_val_zeros(k);
    } else {
        assert((zeros(k) + ds).drop_last() =~= zeros(k) + ds.drop_last());
        assert((zeros(k) + ds).last() == ds.last());
        lemma_digits_val_zeros_prefix(k, ds.drop_last());
    }
}

proof fn lemma_digits_val_zeros(k: nat)
    ensures
        digits_val(zeros(k)) == 0,
    decreases k,
{
    if k > 0 {
        assert(zeros(k).drop_last() =~= zeros((k - 1) as nat));
        assert(zeros(k).last() == '0');
        lemma_digits_val_zeros((k - 1) as nat);
    }
}

/// Every character of a decimal rendering is a digit, the sign, or the
/// point; the first is the sign or a digit.
proof fn lemma_dec_render_chars(m: int, s: nat)
    requires
        -0x7fff_ffff_ffff_ffff <= m <= 0x7fff_ffff_ffff_ffff,
        s <= 19,
    ensures
        dec_render(m, s).len() >= 1,
        forall|i: int| 0 <= i < dec_render(m, s).len() ==> (is_digit(#[trigger] dec_render(
            m,
            s,
        )[i]) || dec_render(m, s)[i] == '-' || dec_render(m, s)[i] == '.'),
        is_digit(dec_render(m, s)[0]) || dec_render(m, s)[0] == '-',
{
    let mag = vstd::math::abs(m);
    let ds = digits_of(mag);
    lemma_digits_of_digits(mag);
    let p = padded_digits(m, s);
    assert forall|i: int| 0 <= i < p.len() implies is_digit(#[trigger] p[i]) by {
        if ds.len() >= s + 1 {
            assert(p[i] == ds[i]);
        } else {
            if i < s + 1 - ds.len() {
                assert(p[i] == '0');
            } else {
                assert(p[i] == ds[i - (s + 1 - ds.len())]);
            }
        }
    }
    assert(p.len() >= 1);
    let r = dec_render(m, s);
    if s == 0 {
        assert forall|i: int| 0 <= i < r.len() implies (is_digit(#[trigger] r[i]) || r[i] == '-'
            || r[i] == '.') by {
            if m < 0 {
                if i > 0 {
                    assert(r[i] == p[i - 1]);
                }
            } else {
                assert(r =~= Seq::<char>::empty() + p);
                assert(r[i] == p[i]);
            }
        }
        if m >= 0 {
            assert(r =~= Seq::<char>::empty() + p);
        }
    } else {
        let ip = p.take(p.len() - s);
        let fp = p.skip(p.len() - s);
        assert forall|i: int| 0 <= i < r.len() implies (is_digit(#[trigger] r[i]) || r[i] == '-'
            || r[i] == '.') by {
            let off: int = if m < 0 {
                1
            } else {
                0
            };
            if i >= off {
                if i - off < ip.len() {
                    assert(r[i] == ip[i - off]);
                    assert(ip[i - off] == p[i - off]);
                } else if i - off == ip.len() {
                    assert(r[i] == '.');
                } else {
                    assert(r[i] == fp[i - off - ip.len() - 1]);
                    assert(fp[i - off - ip.len() - 1] == p[p.len() - s + i - off - ip.len() - 1]);
                }
            }
        }
        if m >= 0 {
            assert(r[0] == p.take(p.len() - s)[0]);
            assert(p.take(p.len() - s)[0] == p[0]);
        }
    }
}

/// A decimal rendering reads back as exactly its mantissa and scale — in
/// particular the rendering is injective on well-formed decimals.
pub proof fn lemma_dec_render_parses(m: int, s: nat)
    requires
        -0x7fff_ffff_ffff_ffff <= m <= 0x7fff_ffff_ffff_ffff,
        s <= 19,
    ensures
        dec_of_token(dec_render(m, s)) == Some((m, s)),
{
    let mag = vstd::math::abs(m);
    let ds = digits_of(mag);
    lemma_digits_of_digits(mag);
    lemma_digits_val_of(mag);
    let p = padded_digits(m, s);
    assert(all_digits(p)) by {
        assert forall|i: int| 0 <= i < p.len() implies is_digit(#[trigger] p[i]) by {
            if ds.len() >= s + 1 {
                assert(p[i] == ds[i]);
            } else {
                if i < s + 1 - ds.len() {
                    assert(p[i] == '0');
                } else {
                    assert(p[i] == ds[i - (s + 1 - ds.len())]);
                }
            }
        }
    }
    assert(digits_val(p) == mag) by {
        if ds.len() >= s + 1 {
        } else {
            assert(p =~= zeros((s + 1 - ds.len()) as nat) + ds);
            lemma_digits_val_zeros_prefix((s + 1 - ds.len()) as nat, ds);
        }
    }
    let tok = dec_render(m, s);
    let body: Seq<char> = if m < 0 {
        tok.drop_first()
    } else {
        tok
    };
    lemma_dec_render_chars(m, s);
    assert forall|k: int| 0 <= k < body.len() implies #[trigger] body[k] != 'e' && body[k]
        != 'E' by {
        if m < 0 {
            assert(body[k] == tok[k + 1]);
        }
        assert(is_digit(body[k]) || body[k] == '-' || body[k] == '.') by {
            if m < 0 {
                assert(tok[k + 1] != '-') by {
                    if s == 0 {
                        assert(tok =~= seq!['-'] + padded_digits(m, s));
                        assert(tok[k + 1] == padded_digits(m, s)[k]);
                    }
                }
            }
        }
    }
    crate::parser::lemma_exp_pos_at(body, body.len() as int);
    assert(body.take(exp_pos(body)) =~= body);
    assert(digits_val(Seq::<char>::empty()) == 0);
    if s == 0 {
        assert(tok =~= (if m < 0 {
            seq!['-'] + p
        } else {
            Seq::<char>::empty() + p
        }));
        assert(body =~= p);
        assert(tok.len() > 0);
        assert((tok[0] == '-') == (m < 0)) by {
            if m < 0 {
            } else {
                assert(tok[0] == p[0]);
                assert(is_digit(p[0]));
            }
        }
        assert forall|j: int| 0 <= j < body.len() implies body[j] != '.' by {
            assert(is_digit(body[j]));
        }
        lemma_dot_pos_at(body, body.len() as int);
        assert(body.take(body.len() as int) =~= body);
        assert(body.take(body.len() as int) + Seq::<char>::empty() =~= p);
    } else {
        let ip = p.take(p.len() - s);
        let fp = p.skip(p.len() - s);
        assert(tok =~= (if m < 0 {
            seq!['-'] + ip + seq!['.'] + fp
        } else {
            Seq::<char>::empty() + ip + seq!['.'] + fp
        }));
        assert(body =~= ip + seq!['.'] + fp);
        assert(tok.len() > 0);
        assert((tok[0] == '-') == (m < 0)) by {
            if m >= 0 {
                assert(tok[0] == ip[0]);
                assert(ip[0] == p[0]);
                assert(is_digit(p[0]));
            }
        }
        let d = ip.len() as int;
        assert(body[d] == '.');
        assert forall|j: int| 0 <= j < d implies body[j] != '.' by {
            assert(body[j] == ip[j]);
            assert(ip[j] == p[j]);
            assert(is_digit(p[j]));
        }
        lemma_dot_pos_at(body, d);
        assert(body.take(d) =~= ip);
        assert(body.skip(d + 1) =~= fp);
        assert(all_digits(ip)) by {
            assert forall|j: int| 0 <= j < ip.len() implies is_digit(#[trigger] ip[j]) by {
                assert(ip[j] == p[j]);
            }
        }
        assert(all_digits(fp)) by {
            assert forall|j: int| 0 <= j < fp.len() implies is_digit(#[trigger] fp[j]) by {
                assert(fp[j] == p[j + p.len() - s]);
            }
        }
        assert forall|j: int| 0 <= j < fp.len() implies fp[j] != '.' by {
            assert(is_digit(fp[j]));
        }
        lemma_dot_pos_at(fp, fp.len() as int);
        assert(ip + fp =~= p);
        assert(ip.len() >= 1);
        assert(fp.len() == s);
    }
}

proof fn lemma_unescape_identity(s: Seq<char>)
    requires
        forall|i: int| 0 <= i < s.len() ==> s[i] != '"',
    ensures
        unescape(s) == s,
    decreases s.len(),
{
    if s.len() > 0 {
        if s.len() >= 2 && s[0] == '\\' && s[1] == '"' {
            assert(false);
        }
        assert forall|i: int| 0 <= i < s.drop_first().len() implies #[trigger] s.drop_first()[i]
            != '"' by {
            assert(s.drop_first()[i] == s[i + 1]);
        }
        lemma_unescape_identity(s.drop_first());
        assert(seq![s[0]] + s.drop_first() =~= s);
    }
}

/// The single token of a displayable atom.
pub open spec fn atom_token(n: NodeView) -> Seq<char> {
    match n {
        NodeView::Str(s) => seq!['"'] + s + seq!['"'],
        _ => display_of(n),
    }
}

/// A displayable atom's token reads back as the atom itself, and is neither
/// paren token.
proof fn lemma_atom_reads(n: NodeView)
    requires
        displayable(n),
        !(n is List),
    ensures
        parse_atom_spec(atom_token(n)) == n,
        atom_token(n) != "("@,
        atom_token(n) != ")"@,
        atom_token(n).len() >= 1,
        forall|i: int| 0 <= i < atom_token(n).len() ==> (#[trigger] atom_token(n)[i]) != '"'
            || n is Str,
{
    reveal_strlit("#t");
    reveal_strlit("#f");
    reveal_strlit("(");
    reveal_strlit(")");
    assert("#t"@.len() == 2 && "#t"@[0] == '#' && "#t"@[1] == 't');
    assert("#f"@.len() == 2 && "#f"@[0] == '#' && "#f"@[1] == 'f');
    assert("("@.len() == 1 && "("@[0] == '(');
    assert(")"@.len() == 1 && ")"@[0] == ')');
    let tok = atom_token(n);
    match n {
        NodeView::Bool(b) => {
            if b {
                assert(tok == "#t"@);
            } else {
                assert(tok == "#f"@);
                assert(tok != "#t"@) by {
                    assert("#t"@[1] != "#f"@[1]);
                }
            }
            assert(tok[0] == '#');
        }
        NodeView::Number(m, s) => {
            lemma_dec_render_chars(m, s);
            lemma_dec_render_parses(m, s);
            assert(tok != "#t"@) by {
                assert(is_digit(tok[0]) || tok[0] == '-');
            }
            assert(tok != "#f"@) by {
                assert(is_digit(tok[0]) || tok[0] == '-');
            }
            assert(tok != "("@) by {
                assert(is_digit(tok[0]) || tok[0] == '-');
            }
            assert(tok != ")"@) by {
                assert(is_digit(tok[0]) || tok[0] == '-');
            }
        }
        NodeView::Str(s) => {
            assert(tok.len() == s.len() + 2);
            assert(tok[0] == '"');
            assert(tok.last() == '"');
            assert(tok != "#t"@ && tok != "#f"@ && tok != "("@ && tok != ")"@);
            assert(dec_of_token(tok) is None) by {
                assert(!(tok[0] == '-' || tok[0] == '+'));
                let e = exp_pos(tok);
                crate::parser::lemma_exp_pos(tok);
                assert(e >= 1) by {
                    if e == 0 {
                        assert(tok[0] == 'e' || tok[0] == 'E');
                    }
                }
                let mant = tok.take(e);
                assert(mant[0] == '"');
                lemma_dot_pos(mant);
                let dd = dot_pos(mant);
                assert(dd >= 1) by {
                    if dd == 0 {
                        assert(mant[0] == '.');
                    }
                }
                assert(mant.take(dd)[0] == mant[0]);
                assert(!is_digit(mant.take(dd)[0]));
            }
            assert(tok.subrange(1, tok.len() - 1) =~= s);
            lemma_unescape_identity(s);
        }
        NodeView::Symbol(s) => {
            assert(tok == s);
            assert(tok != "("@) by {
                assert(plain_char(s[0]));
            }
            assert(tok != ")"@) by {
                assert(plain_char(s[0]));
            }
        }
        _ => {}
    }
}

/// A run of plain characters feeds the pending token buffer unchanged.
proof fn lemma_tok_plain(s: Seq<char>, i: int, j: int, toks: Seq<Seq<char>>, buf: Seq<char>)
    requires
        0 <= i <= j <= s.len(),
        forall|k: int| i <= k < j ==> plain_char(#[trigger] s[k]),
    ensures
        crate::parser::tok_run(s, i, toks, buf, false) == crate::parser::tok_run(
            s,
            j,
            toks,
            buf + s.subrange(i, j),
            false,
        ),
    decreases j - i,
{
    reveal_with_fuel(crate::parser::tok_run, 2);
    if i < j {
        assert(plain_char(s[i]));
        assert(buf.push(s[i]) =~= buf + s.subrange(i, i + 1));
        lemma_tok_plain(s, i + 1, j, toks, buf.push(s[i]));
        assert(buf.push(s[i]) + s.subrange(i + 1, j) =~= buf + s.subrange(i, j));
    } else {
        assert(buf + s.subrange(i, j) =~= buf);
    }
}

/// Inside a string, characters other than a quote feed the buffer.
proof fn lemma_tok_str_run(s: Seq<char>, i: int, j: int, toks: Seq<Seq<char>>, buf: Seq<char>)
    requires
        0 <= i <= j <= s.len(),
        forall|k: int| i <= k < j ==> (#[trigger] s[k]) != '"',
        buf.len() >= 1,
    ensures
        crate::parser::tok_run(s, i, toks, buf, true) == crate::parser::tok_run(
            s,
            j,
            toks,
            buf + s.subrange(i, j),
            true,
        ),
    decreases j - i,
{
    reveal_with_fuel(crate::parser::tok_run, 2);
    if i < j {
        assert(s[i] != '"');
        assert(buf.push(s[i]) =~= buf + s.subrange(i, i + 1));
        lemma_tok_str_run(s, i + 1, j, toks, buf.push(s[i]));
        assert(buf.push(s[i]) + s.subrange(i + 1, j) =~= buf + s.subrange(i, j));
    } else {
        assert(buf + s.subrange(i, j) =~= buf);
    }
}

/// The tokens of a node that stand already flushed after its rendering is
/// read, and the token still pending in the buffer.
pub open spec fn flushed_of(n: NodeView) -> Seq<Seq<char>> {
    match n {
        NodeView::Str(s) => tokens_of(n),
        NodeView::List(items) => tokens_of(n),
        _ => Seq::empty(),
    }
}

pub open spec fn pending_of(n: NodeView) -> Seq<char> {
    match n {
        NodeView::Str(s) => Seq::empty(),
        NodeView::List(items) => Seq::empty(),
        _ => display_of(n),
    }
}

/// Flushing the pending token after a node's rendering yields exactly the
/// node's tokens.
proof fn lemma_flush_pending(n: NodeView, toks: Seq<Seq<char>>)
    requires
        displayable(n),
    ensures
        crate::parser::flush_tok(toks + flushed_of(n), pending_of(n)) == toks + tokens_of(n),
    decreases n,
{
    match n {
        NodeView::Str(s) => {
            assert(pending_of(n).len() == 0);
        }
        NodeView::List(items) => {
            assert(pending_of(n).len() == 0);
        }
        _ => {
            lemma_atom_reads(n);
            assert(pending_of(n) == atom_token(n));
            assert(pending_of(n).len() >= 1);
            assert((toks + Seq::<Seq<char>>::empty()).push(display_of(n)) =~= toks + tokens_of(
                n,
            ));
            assert(toks + flushed_of(n) =~= toks);
        }
    }
}

/// The flushed tokens after a run of items, the last one's pending token
/// not yet flushed.
pub open spec fn flushed_items(items: Seq<NodeView>) -> Seq<Seq<char>>
    decreases items,
    when items.len() >= 1
{
    if items.len() == 1 {
        flushed_of(items[0])
    } else {
        tokens_of(items[0]) + flushed_items(items.drop_first())
    }
}

proof fn lemma_atom_chars_plain(n: NodeView)
    requires
        displayable(n),
        !(n is List),
        !(n is Str),
    ensures
        forall|i: int| 0 <= i < display_of(n).len() ==> plain_char(#[trigger] display_of(n)[i]),
        display_of(n).len() >= 1,
{
    reveal_strlit("#t");
    reveal_strlit("#f");
    match n {
        NodeView::Bool(b) => {
            if b {
                assert("#t"@.len() == 2 && "#t"@[0] == '#' && "#t"@[1] == 't');
                assert forall|i: int| 0 <= i < display_of(n).len() implies plain_char(
                    #[trigger] display_of(n)[i],
                ) by {
                    assert(display_of(n)[i] == '#' || display_of(n)[i] == 't');
                }
            } else {
                assert("#f"@.len() == 2 && "#f"@[0] == '#' && "#f"@[1] == 'f');
                assert forall|i: int| 0 <= i < display_of(n).len() implies plain_char(
                    #[trigger] display_of(n)[i],
                ) by {
                    assert(display_of(n)[i] == '#' || display_of(n)[i] == 'f');
                }
            }
        }
        NodeView::Number(m, s) => {
            lemma_dec_render_chars(m, s);
            assert forall|i: int| 0 <= i < display_of(n).len() implies plain_char(
                #[trigger] display_of(n)[i],
            ) by {
                assert(is_digit(display_of(n)[i]) || display_of(n)[i] == '-' || display_of(
                    n,
                )[i] == '.');
            }
        }
        NodeView::Symbol(s) => {}
        _ => {}
    }
}

/// Reading a displayable node's rendering carries the tokenizer from a
/// neutral state to its flushed tokens plus its pending token.
proof fn lemma_tok_node(n: NodeView, s: Seq<char>, i: int, toks: Seq<Seq<char>>)
    requires
        displayable(n),
        0 <= i,
        i + display_of(n).len() <= s.len(),
        s.subrange(i, i + display_of(n).len() as int) =~= display_of(n),
    ensures
        crate::parser::tok_run(s, i, toks, Seq::empty(), false) == crate::parser::tok_run(
            s,
            i + display_of(n).len() as int,
            toks + flushed_of(n),
            pending_of(n),
            false,
        ),
    decreases n, 1int,
{
    reveal_with_fuel(crate::parser::tok_run, 2);
    let d = display_of(n);
    match n {
        NodeView::Str(content) => {
            assert(d =~= seq!['"'] + content + seq!['"']);
            assert(s[i] == d[0]);
            assert(d[0] == '"');
            assert(crate::parser::flush_tok(toks, Seq::empty()) == toks);
            assert(crate::parser::tok_run(s, i, toks, Seq::empty(), false)
                == crate::parser::tok_run(s, i + 1, toks, seq!['"'], true));
            assert forall|k: int| i + 1 <= k < i + 1 + content.len() implies (#[trigger] s[k])
                != '"' by {
                assert(s[k] == d[k - i]);
                assert(d[k - i] == content[k - i - 1]);
            }
            lemma_tok_str_run(s, i + 1, i + 1 + content.len(), toks, seq!['"']);
            let buf2 = seq!['"'] + s.subrange(i + 1, i + 1 + content.len());
            assert forall|k: int| 0 <= k < content.len() implies s.subrange(
                i + 1,
                i + 1 + content.len() as int,
            )[k] == #[trigger] content[k] by {
                assert(s[i + 1 + k] == d[1 + k]);
                assert(d[1 + k] == content[k]);
            }
            assert(s.subrange(i + 1, i + 1 + content.len()) =~= content);
            assert(buf2 =~= seq!['"'] + content);
            assert(s[i + 1 + content.len()] == d[1 + content.len() as int]);
            assert(d[1 + content.len() as int] == '"');
            assert(buf2.last() != '\\') by {
                if content.len() == 0 {
                    assert(buf2.last() == '"');
                } else {
                    assert(buf2.last() == content.last());
                }
            }
            assert(crate::parser::tok_run(s, i + 1 + content.len(), toks, buf2, true)
                == crate::parser::tok_run(
                s,
                i + 2 + content.len(),
                toks.push(buf2.push('"')),
                Seq::empty(),
                false,
            ));
            assert(buf2.push('"') =~= seq!['"'] + content + seq!['"']);
            assert(toks.push(buf2.push('"')) =~= toks + flushed_of(n));
            assert(i + 2 + content.len() == i + d.len());
        }
        NodeView::List(items) => {
            assert(d =~= seq!['('] + display_items(items) + seq![')']);
            assert(s[i] == d[0]);
            assert(d[0] == '(');
            assert(!is_ws('('));
            assert(crate::parser::tok_run(s, i, toks, Seq::empty(), false)
                == crate::parser::tok_run(
                s,
                i + 1,
                toks.push(seq!['(']),
                Seq::empty(),
                false,
            ));
            let toks1 = toks.push(seq!['(']);
            let di = display_items(items);
            if items.len() == 0 {
                assert(di.len() == 0);
                assert(s[i + 1] == d[1]);
                assert(d[1] == ')');
                assert(crate::parser::tok_run(s, i + 1, toks1, Seq::empty(), false)
                    == crate::parser::tok_run(
                    s,
                    i + 2,
                    toks1.push(seq![')']),
                    Seq::empty(),
                    false,
                ));
                assert(toks1.push(seq![')']) =~= toks + tokens_of(n)) by {
                    assert(tokens_of(n) =~= seq![seq!['(']] + tokens_in_list(items) + seq![
                        seq![')'],
                    ]);
                    assert(tokens_in_list(items).len() == 0);
                }
            } else {
                assert forall|k: int| 0 <= k < di.len() implies s.subrange(
                    i + 1,
                    i + 1 + di.len(),
                )[k] == #[trigger] di[k] by {
                    assert(s[i + 1 + k] == d[1 + k]);
                    assert(d[1 + k] == di[k]);
                }
                assert(s.subrange(i + 1, i + 1 + di.len()) =~= di);
                lemma_tok_items(items, s, i + 1, toks1);
                let after = i + 1 + di.len();
                assert(s[after] == d[1 + di.len() as int]);
                assert(d[1 + di.len() as int] == ')');
                assert(!is_ws(')'));
                lemma_flushed_items_all(items, toks1);
                assert(crate::parser::tok_run(
                    s,
                    after,
                    toks1 + flushed_items(items),
                    pending_of(items.last()),
                    false,
                ) == crate::parser::tok_run(
                    s,
                    after + 1,
                    crate::parser::flush_tok(
                        toks1 + flushed_items(items),
                        pending_of(items.last()),
                    ).push(seq![')']),
                    Seq::empty(),
                    false,
                ));
                assert(crate::parser::flush_tok(
                    toks1 + flushed_items(items),
                    pending_of(items.last()),
                ).push(seq![')']) =~= toks + tokens_of(n)) by {
                    assert(crate::parser::flush_tok(
                        toks1 + flushed_items(items),
                        pending_of(items.last()),
                    ) == toks1 + tokens_in_list(items));
                    assert(tokens_of(n) =~= seq![seq!['(']] + tokens_in_list(items) + seq![
                        seq![')'],
                    ]);
                }
                assert(after + 1 == i + d.len());
            }
        }
        _ => {
            lemma_atom_chars_plain(n);
            assert forall|k: int| i <= k < i + d.len() implies plain_char(#[trigger] s[k]) by {
                assert(s[k] == d[k - i]);
            }
            lemma_tok_plain(s, i, i + d.len(), toks, Seq::empty());
            assert(Seq::<char>::empty() + s.subrange(i, i + d.len()) =~= d);
            assert(toks + flushed_of(n) =~= toks);
            assert(pending_of(n) == d);
        }
    }
}

/// Flushing after a whole run of items yields the items' tokens.
proof fn lemma_flushed_items_all(items: Seq<NodeView>, toks: Seq<Seq<char>>)
    requires
        displayable_list(items),
        items.len() >= 1,
    ensures
        crate::parser::flush_tok(toks + flushed_items(items), pending_of(items.last())) == toks
            + tokens_in_list(items),
    decreases items,
{
    if items.len() == 1 {
        lemma_flush_pending(items[0], toks);
        assert(items.last() == items[0]);
        assert(tokens_in_list(items) =~= tokens_of(items[0]) + tokens_in_list(
            items.drop_first(),
        ));
        assert(tokens_in_list(items.drop_first()).len() == 0);
        assert(tokens_in_list(items) =~= tokens_of(items[0]));
    } else {
        lemma_flushed_items_all(items.drop_first(), toks + tokens_of(items[0]));
        assert(items.last() == items.drop_first().last());
        assert(toks + flushed_items(items) =~= (toks + tokens_of(items[0])) + flushed_items(
            items.drop_first(),
        ));
        assert((toks + tokens_of(items[0])) + tokens_in_list(items.drop_first()) =~= toks
            + tokens_in_list(items));
    }
}

/// Reading a run of items separated by spaces: each item's tokens flush in
/// turn, the last one's pending token remaining.
proof fn lemma_tok_items(items: Seq<NodeView>, s: Seq<char>, i: int, toks: Seq<Seq<char>>)
    requires
        displayable_list(items),
        items.len() >= 1,
        0 <= i,
        i + display_items(items).len() <= s.len(),
        s.subrange(i, i + display_items(items).len() as int) =~= display_items(items),
    ensures
        crate::parser::tok_run(s, i, toks, Seq::empty(), false) == crate::parser::tok_run(
            s,
            i + display_items(items).len() as int,
            toks + flushed_items(items),
            pending_of(items.last()),
            false,
        ),
    decreases items, 0int,
{
    reveal_with_fuel(crate::parser::tok_run, 2);
    let di = display_items(items);
    let d0 = display_of(items[0]);
    if items.len() == 1 {
        assert(di == d0);
        lemma_tok_node(items[0], s, i, toks);
        assert(items.last() == items[0]);
    } else {
        assert(di =~= d0 + seq![' '] + display_items(items.drop_first()));
        assert forall|k: int| 0 <= k < d0.len() implies s.subrange(i, i + d0.len())[k]
            == #[trigger] d0[k] by {
            assert(s[i + k] == di[k]);
            assert(di[k] == d0[k]);
        }
        assert(s.subrange(i, i + d0.len()) =~= d0);
        lemma_tok_node(items[0], s, i, toks);
        let after0 = i + d0.len();
        assert(s[after0] == di[d0.len() as int]);
        assert(di[d0.len() as int] == ' ');
        assert(is_ws(' '));
        lemma_flush_pending(items[0], toks);
        assert(crate::parser::tok_run(s, after0, toks + flushed_of(items[0]), pending_of(
            items[0],
        ), false) == crate::parser::tok_run(
            s,
            after0 + 1,
            toks + tokens_of(items[0]),
            Seq::empty(),
            false,
        ));
        let rest = items.drop_first();
        let dr = display_items(rest);
        assert forall|k: int| 0 <= k < dr.len() implies s.subrange(
            after0 + 1,
            after0 + 1 + dr.len(),
        )[k] == #[trigger] dr[k] by {
            assert(s[after0 + 1 + k] == di[d0.len() as int + 1 + k]);
            assert(di[d0.len() as int + 1 + k] == dr[k]);
        }
        assert(s.subrange(after0 + 1, after0 + 1 + dr.len()) =~= dr);
        lemma_tok_items(rest, s, after0 + 1, toks + tokens_of(items[0]));
        assert(items.last() == rest.last());
        assert((toks + tokens_of(items[0])) + flushed_items(rest) =~= toks + flushed_items(
            items,
        ));
        assert(after0 + 1 + dr.len() == i + di.len());
    }
}

/// Reading back one node from its tokens.
proof fn lemma_parse_node(n: NodeView, toks: Seq<Seq<char>>, pos: int)
    requires
        displayable(n),
        0 <= pos,
        pos + tokens_of(n).len() <= toks.len(),
        toks.subrange(pos, pos + tokens_of(n).len() as int) =~= tokens_of(n),
    ensures
        crate::parser::parse_expr_spec(toks, pos) == Ok::<(NodeView, int), crate::parser::ParseErr>(
            (n, pos + tokens_of(n).len() as int),
        ),
    decreases n, 1int,
{
    reveal_with_fuel(crate::parser::parse_expr_spec, 2);
    reveal_with_fuel(crate::parser::parse_items_spec, 2);
    reveal_strlit("(");
    reveal_strlit(")");
    assert("("@.len() == 1 && "("@[0] == '(');
    assert(")"@.len() == 1 && ")"@[0] == ')');
    assert("("@ =~= seq!['(']);
    assert(")"@ =~= seq![')']);
    match n {
        NodeView::List(items) => {
            assert(tokens_of(n) =~= seq![seq!['(']] + tokens_in_list(items) + seq![seq![')']]);
            assert(toks[pos] == tokens_of(n)[0]);
            assert(tokens_of(n)[0] == seq!['(']);
            let til = tokens_in_list(items);
            assert forall|k: int| 0 <= k < til.len() implies toks.subrange(
                pos + 1,
                pos + 1 + til.len() as int,
            )[k] == #[trigger] til[k] by {
                assert(toks[pos + 1 + k] == tokens_of(n)[1 + k]);
                assert(tokens_of(n)[1 + k] == til[k]);
            }
            assert(toks.subrange(pos + 1, pos + 1 + til.len() as int) =~= til);
            assert(toks[pos + 1 + til.len() as int] == tokens_of(n)[1 + til.len() as int]);
            assert(tokens_of(n)[1 + til.len() as int] == seq![')']);
            lemma_parse_items(items, toks, pos + 1, Seq::empty());
            assert(Seq::<NodeView>::empty() + items =~= items);
            assert(tokens_of(n).len() == til.len() + 2);
        }
        _ => {
            lemma_atom_reads(n);
            assert(tokens_of(n) =~= seq![atom_token(n)]);
            assert(toks[pos] == tokens_of(n)[0]);
            assert(tokens_of(n)[0] == atom_token(n));
            assert(toks[pos] != "("@);
            assert(toks[pos] != ")"@);
        }
    }
}

/// Reading back a run of items up to the closing paren, with those already
/// read accumulated.
proof fn lemma_parse_items(
    items: Seq<NodeView>,
    toks: Seq<Seq<char>>,
    pos: int,
    acc: Seq<NodeView>,
)
    requires
        displayable_list(items),
        0 <= pos,
        pos + tokens_in_list(items).len() + 1 <= toks.len(),
        toks.subrange(pos, pos + tokens_in_list(items).len() as int) =~= tokens_in_list(items),
        toks[pos + tokens_in_list(items).len() as int] == seq![')'],
    ensures
        crate::parser::parse_items_spec(toks, pos, acc) == Ok::<
            (NodeView, int),
            crate::parser::ParseErr,
        >((NodeView::List(acc + items), pos + tokens_in_list(items).len() as int + 1)),
    decreases items, 2int,
{
    reveal_with_fuel(crate::parser::parse_expr_spec, 2);
    reveal_with_fuel(crate::parser::parse_items_spec, 2);
    reveal_strlit("(");
    reveal_strlit(")");
    assert("("@.len() == 1 && "("@[0] == '(');
    assert(")"@.len() == 1 && ")"@[0] == ')');
    assert("("@ =~= seq!['(']);
    assert(")"@ =~= seq![')']);
    let til = tokens_in_list(items);
    if items.len() == 0 {
        assert(til.len() == 0);
        assert(toks[pos] == seq![')']);
        assert(acc + items =~= acc);
    } else {
        let t0 = tokens_of(items[0]);
        assert(til =~= t0 + tokens_in_list(items.drop_first()));
        assert forall|k: int| 0 <= k < t0.len() implies toks.subrange(
            pos,
            pos + t0.len() as int,
        )[k] == #[trigger] t0[k] by {
            assert(toks[pos + k] == til[k]);
            assert(til[k] == t0[k]);
        }
        assert(toks.subrange(pos, pos + t0.len() as int) =~= t0);
        assert(toks[pos] == t0[0]);
        assert(toks[pos] != ")"@) by {
            match items[0] {
                NodeView::List(sub) => {
                    assert(t0[0] == seq!['(']);
                }
                _ => {
                    lemma_atom_reads(items[0]);
                    assert(t0[0] == atom_token(items[0]));
                }
            }
        }
        lemma_parse_node(items[0], toks, pos);
        let p2 = pos + t0.len() as int;
        assert(pos < p2 <= toks.len());
        let rest = items.drop_first();
        let tr = tokens_in_list(rest);
        assert forall|k: int| 0 <= k < tr.len() implies toks.subrange(
            p2,
            p2 + tr.len() as int,
        )[k] == #[trigger] tr[k] by {
            assert(toks[p2 + k] == til[t0.len() + k]);
            assert(til[t0.len() + k] == tr[k]);
        }
        assert(toks.subrange(p2, p2 + tr.len() as int) =~= tr);
        assert(toks[p2 + tr.len() as int] == toks[pos + til.len() as int]);
        lemma_parse_items(rest, toks, p2, acc.push(items[0]));
        assert(acc.push(items[0]) + rest =~= acc + items);
    }
}

proof fn lemma_display_edges(n: NodeView)
    requires
        displayable(n),
    ensures
        display_of(n).len() >= 1,
        !is_ws(display_of(n)[0]),
        !is_ws(display_of(n).last()),
{
    reveal_strlit("#t");
    reveal_strlit("#f");
    let d = display_of(n);
    match n {
        NodeView::Bool(b) => {
            if b {
                assert("#t"@.len() == 2 && "#t"@[0] == '#' && "#t"@[1] == 't');
            } else {
                assert("#f"@.len() == 2 && "#f"@[0] == '#' && "#f"@[1] == 'f');
            }
        }
        NodeView::Number(m, s) => {
            lemma_dec_render_chars(m, s);
            assert(is_digit(d[0]) || d[0] == '-');
            assert(is_digit(d.last()) || d.last() == '-' || d.last() == '.');
        }
        NodeView::Str(content) => {
            assert(d =~= seq!['"'] + content + seq!['"']);
            assert(d[0] == '"');
            assert(d.last() == '"');
        }
        NodeView::Symbol(s) => {
            assert(plain_char(s[0]));
            assert(plain_char(s[s.len() - 1]));
        }
        NodeView::List(items) => {
            assert(d =~= seq!['('] + display_items(items) + seq![')']);
            assert(d[0] == '(');
            assert(d.last() == ')');
        }
        _ => {}
    }
}

/// Parsing is a left inverse of display: the rendering of any displayable
/// AST that fits the source-size cap parses back to exactly that AST.
pub proof fn lemma_parse_display(n: NodeView)
    requires
        displayable(n),
        vstd::utf8::encode_utf8(display_of(n)).len() <= 65536,
    ensures
        crate::parser::parse_spec(display_of(n)) == Ok::<NodeView, crate::parser::ParseErr>(n),
{
    let d = display_of(n);
    lemma_display_edges(n);
    assert(crate::parser::trim_start(d) == d) by {
        reveal_with_fuel(crate::parser::trim_start, 2);
    }
    assert(crate::parser::trim_end(d) == d) by {
        reveal_with_fuel(crate::parser::trim_end, 2);
    }
    assert(d.subrange(0, d.len() as int) =~= d);
    lemma_tok_node(n, d, 0, Seq::empty());
    assert(crate::parser::tokenize_spec(d) == crate::parser::tok_run(
        d,
        d.len() as int,
        Seq::<Seq<char>>::empty() + flushed_of(n),
        pending_of(n),
        false,
    ));
    lemma_flush_pending(n, Seq::empty());
    let toks = crate::parser::tokenize_spec(d);
    assert(toks == Seq::<Seq<char>>::empty() + tokens_of(n)) by {
        reveal_with_fuel(crate::parser::tok_run, 2);
    }
    assert(toks =~= tokens_of(n));
    assert(tokens_of(n).len() >= 1) by {
        match n {
            NodeView::List(items) => {}
            _ => {}
        }
    }
    assert(toks.subrange(0, tokens_of(n).len() as int) =~= tokens_of(n));
    lemma_parse_node(n, toks, 0);
}

} // verus!
