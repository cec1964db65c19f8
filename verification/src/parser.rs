//! The S-expression parser: tokenizer, atom interpretation, and the
//! recursive-descent expression parser, with a source-size cap.
//!
//! The accepted text is pinned down by the spec functions here:
//! [`tokenize_spec`] describes the tokenizer, [`parse_atom_spec`] the
//! reading of one atom, and [`parse_spec`] the whole pipeline. The
//! executable parser returns exactly what they denote.
use vstd::prelude::*;

use crate::text::{
    all_digits, digit_at, digit_val, digits_val, is_digit, is_ws, push_char, str_eq, ws_char,
};
use crate::types::{wf_view, Node, NodeView, SplError};

verus! {

/// The byte-size cap on policy sources.
pub open spec fn max_policy_bytes() -> int {
    65536
}

/// Parse error kinds.
pub enum ParseErr {
    /// Source over the byte cap.
    SizeExceeded,
    /// No tokens, or tokens ran out inside an expression.
    Eof,
    /// A `(` with no matching `)`.
    Unterminated,
    /// A `)` with no open `(`.
    UnexpectedClose,
    /// Tokens left over after the first expression.
    ExtraTokens,
}

/// The diagnostic message of each parse error.
pub open spec fn parse_msg(e: ParseErr) -> Seq<char> {
    match e {
        ParseErr::SizeExceeded => "policy exceeds maximum size of 65536 bytes"@,
        ParseErr::Eof => "unexpected EOF"@,
        ParseErr::Unterminated => "unterminated ("@,
        ParseErr::UnexpectedClose => "unexpected )"@,
        ParseErr::ExtraTokens => "extra tokens"@,
    }
}

/// Leading whitespace dropped.
pub open spec fn trim_start(s: Seq<char>) -> Seq<char>
    decreases s.len(),
{
    if s.len() > 0 && is_ws(s[0]) {
        trim_start(s.drop_first())
    } else {
        s
    }
}

/// Trailing whitespace dropped.
pub open spec fn trim_end(s: Seq<char>) -> Seq<char>
    decreases s.len(),
{
    if s.len() > 0 && is_ws(s.last()) {
        trim_end(s.drop_last())
    } else {
        s
    }
}

/// Leading and trailing whitespace dropped.
pub open spec fn trim_spec(s: Seq<char>) -> Seq<char> {
    trim_end(trim_start(s))
}

/// A pending buffer appended to the tokens: empty buffers are dropped.
pub open spec fn flush_tok(toks: Seq<Seq<char>>, buf: Seq<char>) -> Seq<Seq<char>> {
    if buf.len() > 0 {
        toks.push(buf)
    } else {
        toks
    }
}

/// Splitting a buffer at whitespace, from position `i`, accumulating into
/// `toks` with `cur` the run read so far. This is what becomes of an
/// unterminated string buffer at the end of input.
pub open spec fn split_ws(
    b: Seq<char>,
    i: int,
    toks: Seq<Seq<char>>,
    cur: Seq<char>,
) -> Seq<Seq<char>>
    decreases b.len() - i,
{
    if i < 0 || i >= b.len() {
        flush_tok(toks, cur)
    } else if is_ws(b[i]) {
        split_ws(b, i + 1, flush_tok(toks, cur), Seq::empty())
    } else {
        split_ws(b, i + 1, toks, cur.push(b[i]))
    }
}

/// The tokenizer, from position `i` with tokens `toks` accumulated, `buf`
/// the pending token and `in_str` whether a string literal is open.
///
/// Whitespace separates tokens; each paren is a token; a `"` opens a string
/// token that runs to the next `"` not preceded by `\`, quotes included. A
/// buffer left open at the end of input is split at whitespace.
pub open spec fn tok_run(
    s: Seq<char>,
    i: int,
    toks: Seq<Seq<char>>,
    buf: Seq<char>,
    in_str: bool,
) -> Seq<Seq<char>>
    decreases s.len() - i,
{
    if i < 0 || i >= s.len() {
        if in_str {
            split_ws(buf, 0, toks, Seq::empty())
        } else {
            flush_tok(toks, buf)
        }
    } else {
        let c = s[i];
        if in_str {
            if c == '"' && buf.last() != '\\' {
                tok_run(s, i + 1, toks.push(buf.push('"')), Seq::empty(), false)
            } else {
                tok_run(s, i + 1, toks, buf.push(c), true)
            }
        } else if c == '"' {
            tok_run(s, i + 1, flush_tok(toks, buf), seq!['"'], true)
        } else if c == '(' || c == ')' {
            tok_run(s, i + 1, flush_tok(toks, buf).push(seq![c]), Seq::empty(), false)
        } else if is_ws(c) {
            tok_run(s, i + 1, flush_tok(toks, buf), Seq::empty(), false)
        } else {
            tok_run(s, i + 1, toks, buf.push(c), false)
        }
    }
}

/// The tokens of a source text.
pub open spec fn tokenize_spec(s: Seq<char>) -> Seq<Seq<char>> {
    tok_run(s, 0, Seq::empty(), Seq::empty(), false)
}

/// Index of the first `.` in `s`, or `s.len()` if there is none.
pub open spec fn dot_pos(s: Seq<char>) -> int
    decreases s.len(),
{
    if s.len() == 0 {
        0
    } else if s[0] == '.' {
        0
    } else {
        1 + dot_pos(s.drop_first())
    }
}

/// `dot_pos` is the index of the first `.`, or the length if there is none.
pub proof fn lemma_dot_pos(s: Seq<char>)
    ensures
        0 <= dot_pos(s) <= s.len(),
        dot_pos(s) < s.len() ==> s[dot_pos(s)] == '.',
        forall|k: int| 0 <= k < dot_pos(s) ==> s[k] != '.',
    decreases s.len(),
{
    if s.len() > 0 && s[0] != '.' {
        lemma_dot_pos(s.drop_first());
        assert forall|k: int| 0 <= k < dot_pos(s) implies s[k] != '.' by {
            if k > 0 {
                assert(s.drop_first()[k - 1] == s[k]);
            }
        }
        if dot_pos(s) < s.len() {
            assert(s.drop_first()[dot_pos(s) - 1] == s[dot_pos(s)]);
        }
    }
}

/// A sequence without a `.` anywhere has its `dot_pos` at the end; one whose
/// first `.` stands at `k` has it there.
pub proof fn lemma_dot_pos_at(s: Seq<char>, k: int)
    requires
        0 <= k <= s.len(),
        forall|j: int| 0 <= j < k ==> s[j] != '.',
        k < s.len() ==> s[k] == '.',
    ensures
        dot_pos(s) == k,
{
    lemma_dot_pos(s);
    if dot_pos(s) < k {
        assert(s[dot_pos(s)] == '.');
    }
    if dot_pos(s) > k && k < s.len() {
        assert(s[k] != '.');
    }
}

/// Index of the first `e` or `E` in `s`, or `s.len()` if there is none.
pub open spec fn exp_pos(s: Seq<char>) -> int
    decreases s.len(),
{
    if s.len() == 0 {
        0
    } else if s[0] == 'e' || s[0] == 'E' {
        0
    } else {
        1 + exp_pos(s.drop_first())
    }
}

/// `exp_pos` is the index of the first exponent marker, or the length.
pub proof fn lemma_exp_pos(s: Seq<char>)
    ensures
        0 <= exp_pos(s) <= s.len(),
        exp_pos(s) < s.len() ==> s[exp_pos(s)] == 'e' || s[exp_pos(s)] == 'E',
        forall|k: int| 0 <= k < exp_pos(s) ==> s[k] != 'e' && s[k] != 'E',
    decreases s.len(),
{
    if s.len() > 0 && s[0] != 'e' && s[0] != 'E' {
        lemma_exp_pos(s.drop_first());
        assert forall|k: int| 0 <= k < exp_pos(s) implies s[k] != 'e' && s[k] != 'E' by {
            if k > 0 {
                assert(s.drop_first()[k - 1] == s[k]);
            }
        }
        if exp_pos(s) < s.len() {
            assert(s.drop_first()[exp_pos(s) - 1] == s[exp_pos(s)]);
        }
    }
}

pub proof fn lemma_exp_pos_at(s: Seq<char>, k: int)
    requires
        0 <= k <= s.len(),
        forall|j: int| 0 <= j < k ==> s[j] != 'e' && s[j] != 'E',
        k < s.len() ==> s[k] == 'e' || s[k] == 'E',
    ensures
        exp_pos(s) == k,
{
    lemma_exp_pos(s);
    if exp_pos(s) < k {
        assert(s[exp_pos(s)] == 'e' || s[exp_pos(s)] == 'E');
    }
    if exp_pos(s) > k && k < s.len() {
        assert(s[k] != 'e' && s[k] != 'E');
    }
}

/// The decimal a token denotes, if it does: an optional sign, digits with
/// an optional point (at least one digit in the mantissa), and an optional
/// exponent `e`/`E` with its own optional sign and digits — the value
/// fitting the [`crate::types::Decimal::wf`] bounds. A negative effective
/// scale folds the exponent into the mantissa.
pub open spec fn dec_of_token(tok: Seq<char>) -> Option<(int, nat)> {
    let neg = tok.len() > 0 && tok[0] == '-';
    let signed = tok.len() > 0 && (tok[0] == '-' || tok[0] == '+');
    let body = if signed {
        tok.drop_first()
    } else {
        tok
    };
    let e = exp_pos(body);
    let mant = body.take(e);
    let etext = if e < body.len() {
        body.skip(e + 1)
    } else {
        Seq::<char>::empty()
    };
    let eneg = etext.len() > 0 && etext[0] == '-';
    let esigned = etext.len() > 0 && (etext[0] == '-' || etext[0] == '+');
    let edigits = if esigned {
        etext.drop_first()
    } else {
        etext
    };
    let d = dot_pos(mant);
    let ip = mant.take(d);
    let fp = if d == mant.len() {
        Seq::<char>::empty()
    } else {
        mant.skip(d + 1)
    };
    if all_digits(ip) && all_digits(fp) && dot_pos(fp) == fp.len() && ip.len() + fp.len() >= 1
        && (e == body.len() || (edigits.len() >= 1 && all_digits(edigits))) {
        let m0 = digits_val(ip + fp);
        let ev = if eneg {
            -digits_val(edigits)
        } else {
            digits_val(edigits)
        };
        let sv = fp.len() - ev;
        if sv >= 0 {
            if m0 <= 0x7fff_ffff_ffff_ffff && sv <= 19 {
                Some(
                    (
                        if neg {
                            -m0
                        } else {
                            m0
                        },
                        sv as nat,
                    ),
                )
            } else {
                None
            }
        } else {
            if m0 * crate::types::pow10((-sv) as nat) <= 0x7fff_ffff_ffff_ffff {
                Some(
                    (
                        if neg {
                            -(m0 * crate::types::pow10((-sv) as nat))
                        } else {
                            m0 * crate::types::pow10((-sv) as nat)
                        },
                        0,
                    ),
                )
            } else {
                None
            }
        }
    } else {
        None
    }
}

/// The string content of a quoted token: `\"` becomes `"`, left to right;
/// no other escapes exist.
pub open spec fn unescape(s: Seq<char>) -> Seq<char>
    decreases s.len(),
{
    if s.len() == 0 {
        Seq::empty()
    } else if s.len() >= 2 && s[0] == '\\' && s[1] == '"' {
        seq!['"'] + unescape(s.skip(2))
    } else {
        seq![s[0]] + unescape(s.drop_first())
    }
}

/// What one atom token denotes: the boolean literals, a decimal number, a
/// quoted string, or else a symbol of the token's own text.
pub open spec fn parse_atom_spec(tok: Seq<char>) -> NodeView {
    if tok == "#t"@ {
        NodeView::Bool(true)
    } else if tok == "#f"@ {
        NodeView::Bool(false)
    } else {
        match dec_of_token(tok) {
            Some((m, s)) => NodeView::Number(m, s),
            None => if tok.len() >= 2 && tok[0] == '"' && tok.last() == '"' {
                NodeView::Str(unescape(tok.subrange(1, tok.len() - 1)))
            } else {
                NodeView::Symbol(tok)
            },
        }
    }
}

/// One expression read at `pos`: a parenthesised list, a close paren
/// (an error), or an atom. Returns the node and the position after it.
pub open spec fn parse_expr_spec(toks: Seq<Seq<char>>, pos: int) -> Result<
    (NodeView, int),
    ParseErr,
>
    decreases toks.len() - pos, 0int,
{
    if pos < 0 || pos >= toks.len() {
        Err(ParseErr::Eof)
    } else if toks[pos] == "("@ {
        parse_items_spec(toks, pos + 1, Seq::empty())
    } else if toks[pos] == ")"@ {
        Err(ParseErr::UnexpectedClose)
    } else {
        Ok((parse_atom_spec(toks[pos]), pos + 1))
    }
}

/// List elements read from `pos` until the closing paren, `acc` holding
/// those already read.
pub open spec fn parse_items_spec(toks: Seq<Seq<char>>, pos: int, acc: Seq<NodeView>) -> Result<
    (NodeView, int),
    ParseErr,
>
    decreases toks.len() - pos, 1int,
{
    if pos < 0 || pos >= toks.len() {
        Err(ParseErr::Unterminated)
    } else if toks[pos] == ")"@ {
        Ok((NodeView::List(acc), pos + 1))
    } else {
        match parse_expr_spec(toks, pos) {
            Err(e) => Err(e),
            Ok((n, p2)) => {
                let next = if pos < p2 <= toks.len() {
                    p2
                } else {
                    pos + 1
                };
                parse_items_spec(toks, next, acc.push(n))
            },
        }
    }
}

/// The whole parse of a source text: the size cap, trimming, tokenizing,
/// exactly one expression, and nothing after it.
pub open spec fn parse_spec(s: Seq<char>) -> Result<NodeView, ParseErr> {
    if vstd::utf8::encode_utf8(s).len() > max_policy_bytes() {
        Err(ParseErr::SizeExceeded)
    } else {
        let toks = tokenize_spec(trim_spec(s));
        if toks.len() == 0 {
            Err(ParseErr::Eof)
        } else {
            match parse_expr_spec(toks, 0) {
                Err(e) => Err(e),
                Ok((n, p)) => if p != toks.len() {
                    Err(ParseErr::ExtraTokens)
                } else {
                    Ok(n)
                },
            }
        }
    }
}

/// A successful expression parse lands strictly beyond where it started and
/// within the tokens.
pub proof fn lemma_parse_progress(toks: Seq<Seq<char>>, pos: int)
    ensures
        parse_expr_spec(toks, pos) matches Ok((n, p2)) ==> pos < p2 <= toks.len(),
    decreases toks.len() - pos, 0int,
{
    if 0 <= pos < toks.len() && toks[pos] == "("@ {
        lemma_items_progress(toks, pos + 1, Seq::empty());
    }
}

/// The views of a sequence of strings, elementwise.
pub open spec fn views_of(toks: Seq<String>) -> Seq<Seq<char>>
    decreases toks,
{
    if toks.len() == 0 {
        Seq::empty()
    } else {
        views_of(toks.drop_last()).push(toks.last()@)
    }
}

pub proof fn lemma_views_of(toks: Seq<String>)
    ensures
        views_of(toks).len() == toks.len(),
        forall|i: int| 0 <= i < toks.len() ==> views_of(toks)[i] == toks[i]@,
    decreases toks,
{
    if toks.len() > 0 {
        lemma_views_of(toks.drop_last());
        assert(views_of(toks) == views_of(toks.drop_last()).push(toks.last()@));
        assert forall|i: int| 0 <= i < toks.len() implies views_of(toks)[i] == toks[i]@ by {
            if i < toks.len() - 1 {
                assert(views_of(toks.drop_last()).push(toks.last()@)[i]
                    == views_of(toks.drop_last())[i]);
                assert(toks.drop_last()[i] == toks[i]);
            }
        }
    }
}

/// The source with leading and trailing whitespace dropped.
pub(crate) fn trim_ws(s: &str) -> (r: &str)
    ensures
        r@ == trim_spec(s@),
{
    let n = s.unicode_len();
    let mut i: usize = 0;
    proof {
        assert(s@.skip(0) =~= s@);
    }
    while i < n && ws_char(s.get_char(i))
        invariant
            n == s@.len(),
            0 <= i <= n,
            trim_start(s@) == trim_start(s@.skip(i as int)),
        decreases n - i,
    {
        proof {
            assert(s@.skip(i as int)[0] == s@[i as int]);
            assert(s@.skip(i as int).drop_first() =~= s@.skip(i + 1));
        }
        i += 1;
    }
    proof {
        if i < n {
            assert(s@.skip(i as int)[0] == s@[i as int]);
        }
        assert(trim_start(s@) == s@.skip(i as int));
    }
    let ghost t = s@.skip(i as int);
    let mut j: usize = n;
    proof {
        assert(t.take(n - i) =~= t);
    }
    while j > i && ws_char(s.get_char(j - 1))
        invariant
            n == s@.len(),
            t == s@.skip(i as int),
            i <= j <= n,
            trim_end(t) == trim_end(t.take(j - i)),
        decreases j,
    {
        proof {
            assert(t.take(j - i).last() == t[j - i - 1]);
            assert(t[j - i - 1] == s@[j - 1]);
            assert(t.take(j - i).drop_last() =~= t.take(j - i - 1));
        }
        j -= 1;
    }
    proof {
        if j > i {
            assert(t.take(j - i).last() == t[j - i - 1]);
            assert(t[j - i - 1] == s@[j - 1]);
        }
        assert(trim_end(t) == t.take(j - i));
        assert(s@.subrange(i as int, j as int) =~= t.take(j - i));
    }
    s.substring_char(i, j)
}

/// The tokenizer.
fn tokenize(src: &str) -> (r: Vec<String>)
    ensures
        views_of(r@) == tokenize_spec(src@),
{
    let n = src.unicode_len();
    let mut toks: Vec<String> = Vec::new();
    let mut buf = String::new();
    let mut in_str = false;
    let mut last: char = ' ';
    let mut i: usize = 0;
    proof {
        assert(views_of(toks@) =~= Seq::<Seq<char>>::empty());
    }
    while i < n
        invariant
            n == src@.len(),
            0 <= i <= n,
            tokenize_spec(src@) == tok_run(src@, i as int, views_of(toks@), buf@, in_str),
            in_str ==> buf@.len() >= 1 && last == buf@.last(),
        decreases n - i,
    {
        let c = src.get_char(i);
        let ghost toksv0 = views_of(toks@);
        let ghost buf0 = buf@;
        let ghost instr0 = in_str;
        proof {
            lemma_views_of(toks@);
        }
        if in_str {
            if c == '"' && last != '\\' {
                push_char(&mut buf, '"');
                let ghost toks_old = toks@;
                toks.push(buf);
                proof {
                    assert(toks@.drop_last() =~= toks_old);
                }
                buf = String::new();
                in_str = false;
                proof {
                    assert(views_of(toks@) == toksv0.push(buf0.push('"')));
                    assert(buf@ == Seq::<char>::empty());
                }
            } else {
                push_char(&mut buf, c);
                last = c;
                proof {
                    assert(buf@ == buf0.push(c));
                }
            }
        } else if c == '"' {
            if !buf.as_str().is_empty() {
                let ghost toks_old = toks@;
                toks.push(buf);
                proof {
                    assert(toks@.drop_last() =~= toks_old);
                }
                buf = String::new();
            }
            push_char(&mut buf, '"');
            proof {
                assert(buf@ =~= seq!['"']);
            }
            last = '"';
            in_str = true;
            proof {
                assert(views_of(toks@) == flush_tok(toksv0, buf0));
                assert(buf@ == seq!['"']);
            }
        } else if c == '(' || c == ')' {
            if !buf.as_str().is_empty() {
                let ghost toks_old = toks@;
                toks.push(buf);
                proof {
                    assert(toks@.drop_last() =~= toks_old);
                }
                buf = String::new();
            }
            let mut paren = String::new();
            push_char(&mut paren, c);
            proof {
                assert(paren@ =~= seq![c]);
                lemma_views_of(toks@);
            }
            let ghost toks_old2 = toks@;
            toks.push(paren);
            proof {
                assert(toks@.drop_last() =~= toks_old2);
                assert(views_of(toks@) == flush_tok(toksv0, buf0).push(seq![c]));
                assert(buf@ == Seq::<char>::empty());
            }
        } else if ws_char(c) {
            if !buf.as_str().is_empty() {
                let ghost toks_old = toks@;
                toks.push(buf);
                proof {
                    assert(toks@.drop_last() =~= toks_old);
                }
                buf = String::new();
            }
            proof {
                assert(views_of(toks@) == flush_tok(toksv0, buf0));
                assert(buf@ == Seq::<char>::empty());
            }
        } else {
            push_char(&mut buf, c);
            proof {
                assert(buf@ == buf0.push(c));
            }
        }
        proof {
            reveal_with_fuel(tok_run, 2);
            assert(tok_run(src@, i as int, toksv0, buf0, instr0) == tok_run(
                src@,
                i + 1,
                views_of(toks@),
                buf@,
                in_str,
            ));
        }
        i += 1;
    }
    if in_str {
        let bn = buf.as_str().unicode_len();
        let mut cur = String::new();
        let mut j: usize = 0;
        proof {
            assert(cur@ =~= Seq::<char>::empty());
        }
        while j < bn
            invariant
                bn == buf@.len(),
                0 <= j <= bn,
                tokenize_spec(src@) == split_ws(buf@, j as int, views_of(toks@), cur@),
            decreases bn - j,
        {
            let c = buf.as_str().get_char(j);
            let ghost toksv0 = views_of(toks@);
            let ghost cur0 = cur@;
            proof {
                lemma_views_of(toks@);
            }
            if ws_char(c) {
                if !cur.as_str().is_empty() {
                    let ghost toks_old = toks@;
                    toks.push(cur);
                    proof {
                        assert(toks@.drop_last() =~= toks_old);
                    }
                    cur = String::new();
                }
                proof {
                    assert(views_of(toks@) == flush_tok(toksv0, cur0));
                    assert(cur@ == Seq::<char>::empty());
                }
            } else {
                push_char(&mut cur, c);
                proof {
                    assert(cur@ == cur0.push(c));
                }
            }
            proof {
                reveal_with_fuel(split_ws, 2);
                assert(split_ws(buf@, j as int, toksv0, cur0) == split_ws(
                    buf@,
                    j + 1,
                    views_of(toks@),
                    cur@,
                ));
            }
            j += 1;
        }
        proof {
            lemma_views_of(toks@);
        }
        if !cur.as_str().is_empty() {
            let ghost toks_old = toks@;
            toks.push(cur);
            proof {
                assert(toks@.drop_last() =~= toks_old);
            }
        }
    } else {
        proof {
            lemma_views_of(toks@);
        }
        if !buf.as_str().is_empty() {
            let ghost toks_old = toks@;
            toks.push(buf);
            proof {
                assert(toks@.drop_last() =~= toks_old);
            }
        }
    }
    toks
}

/// Reads a token as a decimal number, if it is one.
#[verifier::rlimit(100)]
fn parse_decimal(tok: &str) -> (r: Option<crate::types::Decimal>)
    ensures
        match r {
            Some(d) => dec_of_token(tok@) == Some((d.m(), d.s())) && d.wf(),
            None => dec_of_token(tok@) is None,
        },
{
    let n = tok.unicode_len();
    let neg = n > 0 && tok.get_char(0) == '-';
    let signed = neg || (n > 0 && tok.get_char(0) == '+');
    let start: usize = if signed {
        1
    } else {
        0
    };
    let ghost body = if signed {
        tok@.drop_first()
    } else {
        tok@
    };
    proof {
        assert(body.len() == n - start);
        assert forall|k: int| 0 <= k < body.len() implies #[trigger] body[k]
            == tok@[k + start] by {}
    }
    // integer digits of the mantissa
    let mut i: usize = start;
    let mut acc: u64 = 0;
    proof {
        assert(body.take(0) =~= Seq::<char>::empty());
    }
    while i < n && digit_at(tok, i)
        invariant
            n == tok@.len(),
            start <= i <= n,
            start == if signed { 1int } else { 0int },
            signed == (tok@.len() > 0 && (tok@[0] == '-' || tok@[0] == '+')),
            neg == (tok@.len() > 0 && tok@[0] == '-'),
            signed ==> body == tok@.drop_first(),
            !signed ==> body == tok@,
            body.len() == n - start,
            forall|k: int| 0 <= k < body.len() ==> #[trigger] body[k] == tok@[k + start],
            forall|k: int| 0 <= k < i - start ==> is_digit(#[trigger] body[k]),
            acc as int == digits_val(body.take(i - start)),
            acc <= 0x7fff_ffff_ffff_ffff,
        decreases n - i,
    {
        let c = tok.get_char(i);
        let dv: u64 = ((c as u32) - 48) as u64;
        proof {
            assert(body[i - start] == tok@[i as int]);
            assert(is_digit(c));
            assert(dv as int == digit_val(c));
        }
        if acc > (0x7fff_ffff_ffff_ffffu64 - dv) / 10 {
            proof {
                lemma_decimal_overflow(tok@, body, signed, (i - start) as int, acc as int, dv as int);
            }
            return None;
        }
        proof {
            assert(acc * 10 + dv <= 0x7fff_ffff_ffff_ffff) by (nonlinear_arith)
                requires
                    0 <= acc,
                    0 <= dv <= 9,
                    acc <= (0x7fff_ffff_ffff_ffff - dv) / 10,
            ;
            assert(body.take(i - start + 1).drop_last() =~= body.take(i - start));
            assert(body.take(i - start + 1).last() == body[i - start]);
        }
        acc = acc * 10 + dv;
        i += 1;
    }
    let int_digits = i - start;
    // optional point and fraction digits
    let mut j: usize = i;
    let mut fcount: usize = 0;
    let has_dot = i < n && tok.get_char(i) == '.';
    if has_dot {
        j = i + 1;
        proof {
            assert(body[i - start] == tok@[i as int]);
            assert(body.take(i - start) + body.subrange(i - start + 1, i - start + 1)
                =~= body.take(i - start));
        }
        while j < n && digit_at(tok, j)
            invariant
                n == tok@.len(),
                start == if signed { 1int } else { 0int },
                signed == (tok@.len() > 0 && (tok@[0] == '-' || tok@[0] == '+')),
                signed ==> body == tok@.drop_first(),
                !signed ==> body == tok@,
                body.len() == n - start,
                forall|k: int| 0 <= k < body.len() ==> #[trigger] body[k] == tok@[k + start],
                start <= i < n,
                forall|k: int| 0 <= k < i - start ==> is_digit(#[trigger] body[k]),
                body[i - start] == '.',
                i < j <= n,
                forall|k: int| i - start + 1 <= k < j - start ==> is_digit(#[trigger] body[k]),
                acc as int == digits_val(
                    body.take(i - start) + body.subrange(i - start + 1, j - start),
                ),
                acc <= 0x7fff_ffff_ffff_ffff,
            decreases n - j,
        {
            let c = tok.get_char(j);
            let dv: u64 = ((c as u32) - 48) as u64;
            proof {
                assert(body[j - start] == tok@[j as int]);
                assert(is_digit(c));
                assert(dv as int == digit_val(c));
            }
            if acc > (0x7fff_ffff_ffff_ffffu64 - dv) / 10 {
                proof {
                    lemma_decimal_overflow_frac(
                        tok@,
                        body,
                        signed,
                        (i - start) as int,
                        (j - start) as int,
                        acc as int,
                        dv as int,
                    );
                }
                return None;
            }
            proof {
                assert(acc * 10 + dv <= 0x7fff_ffff_ffff_ffff) by (nonlinear_arith)
                    requires
                        0 <= acc,
                        0 <= dv <= 9,
                        acc <= (0x7fff_ffff_ffff_ffff - dv) / 10,
                ;
                let ipg = body.take(i - start);
                assert((ipg + body.subrange(i - start + 1, j - start)).push(body[j - start])
                    =~= ipg + body.subrange(i - start + 1, j - start + 1));
                assert((ipg + body.subrange(i - start + 1, j - start + 1)).drop_last() =~= ipg
                    + body.subrange(i - start + 1, j - start));
                assert((ipg + body.subrange(i - start + 1, j - start + 1)).last() == body[j
                    - start]);
            }
            acc = acc * 10 + dv;
            j += 1;
        }
        fcount = j - i - 1;
    }
    parse_decimal_tail(
        tok,
        n,
        start,
        neg,
        signed,
        i,
        j,
        has_dot,
        int_digits,
        fcount,
        acc,
        Ghost(body),
    )
}

/// The middle stage of [`parse_decimal`]: decides how the mantissa ended —
/// end of token, exponent marker, or a character the grammar refuses — and
/// identifies the integer and fraction digit runs.
#[verifier::rlimit(100)]
fn parse_decimal_tail(
    tok: &str,
    n: usize,
    start: usize,
    neg: bool,
    signed: bool,
    i: usize,
    j: usize,
    has_dot: bool,
    int_digits: usize,
    fcount: usize,
    acc: u64,
    Ghost(body): Ghost<Seq<char>>,
) -> (r: Option<crate::types::Decimal>)
    requires
        n == tok@.len(),
        signed == (tok@.len() > 0 && (tok@[0] == '-' || tok@[0] == '+')),
        neg == (tok@.len() > 0 && tok@[0] == '-'),
        start == if signed { 1int } else { 0int },
        signed ==> body == tok@.drop_first(),
        !signed ==> body == tok@,
        start <= i <= j <= n,
        forall|k: int| 0 <= k < i - start ==> is_digit(#[trigger] body[k]),
        i < n ==> !is_digit(body[i - start]),
        has_dot == (i < n && tok@[i as int] == '.'),
        has_dot ==> i < j && body[i - start] == '.' && (forall|k: int|
            i - start + 1 <= k < j - start ==> is_digit(#[trigger] body[k])) && (j < n
            ==> !is_digit(body[j - start])),
        !has_dot ==> j == i,
        int_digits == i - start,
        fcount == if has_dot { j - i - 1 } else { 0int },
        has_dot ==> acc as int == digits_val(
            body.take(i - start) + body.subrange(i - start + 1, j - start),
        ),
        !has_dot ==> acc as int == digits_val(body.take(i - start)),
        acc <= 0x7fff_ffff_ffff_ffff,
    ensures
        match r {
            Some(d) => dec_of_token(tok@) == Some((d.m(), d.s())) && d.wf(),
            None => dec_of_token(tok@) is None,
        },
{
    proof {
        assert(body.len() == n - start);
        assert forall|k: int| 0 <= k < body.len() implies #[trigger] body[k]
            == tok@[k + start] by {}
    }
    // end of the mantissa: nothing, an exponent marker, or garbage
    let ghost e_sp = exp_pos(body);
    let ghost mant = body.take(e_sp);
    if int_digits == 0 && fcount == 0 {
        proof {
            lemma_mant_no_digits(tok@, body, signed, has_dot, (i - start) as int, (j
                - start) as int);
        }
        return None;
    }
    let has_exp = j < n && (tok.get_char(j) == 'e' || tok.get_char(j) == 'E');
    if j < n && !has_exp {
        proof {
            assert(body[j - start] == tok@[j as int]);
            lemma_mant_garbage(tok@, body, signed, has_dot, (i - start) as int, (j
                - start) as int);
        }
        return None;
    }
    proof {
        // the mantissa region is exactly what was scanned
        assert(e_sp == j - start) by {
        if has_exp {
            assert(body[j - start] == tok@[j as int]);
            assert forall|k: int| 0 <= k < j - start implies body[k] != 'e' && body[k]
                != 'E' by {
                if has_dot {
                    if k < i - start {
                        assert(is_digit(body[k]));
                    } else if k == i - start {
                        assert(body[k] == '.');
                    } else {
                        assert(is_digit(body[k]));
                    }
                } else {
                    assert(is_digit(body[k]));
                }
            }
            lemma_exp_pos_at(body, (j - start) as int);
        } else {
            assert(j == n);
            assert forall|k: int| 0 <= k < body.len() implies body[k] != 'e' && body[k]
                != 'E' by {
                if has_dot {
                    if k < i - start {
                        assert(is_digit(body[k]));
                    } else if k == i - start {
                        assert(body[k] == '.');
                    } else {
                        assert(is_digit(body[k]));
                    }
                } else {
                    assert(is_digit(body[k]));
                }
            }
            lemma_exp_pos_at(body, body.len() as int);
        }
        }
    }
    // identify the integer and fraction parts
    let ghost ipg = body.subrange(0, (i - start) as int);
    let ghost fpg = if has_dot {
        body.subrange((i - start + 1) as int, (j - start) as int)
    } else {
        Seq::<char>::empty()
    };
    proof {
        assert(ipg == mant.take(dot_pos(mant)) && fpg == (if dot_pos(mant) == mant.len() {
            Seq::<char>::empty()
        } else {
            mant.skip(dot_pos(mant) + 1)
        }) && all_digits(ipg) && all_digits(fpg) && dot_pos(fpg) == fpg.len() && fpg.len()
            == fcount && ipg.len() == int_digits && acc as int == digits_val(ipg + fpg)) by {
            if has_dot {
                assert forall|k: int| 0 <= k < i - start implies mant.take((i - start) as int)[k]
                    == #[trigger] ipg[k] by {}
                lemma_dot_pos_at(mant, (i - start) as int);
                assert(mant.take((i - start) as int) =~= ipg);
                assert(mant.skip((i - start + 1) as int) =~= fpg);
                assert(body.take(i - start) =~= ipg);
                assert(acc as int == digits_val(ipg + fpg));
            } else {
                assert forall|k: int| 0 <= k < mant.len() implies mant[k] != '.' by {
                    assert(is_digit(mant[k]));
                }
                lemma_dot_pos_at(mant, mant.len() as int);
                assert(mant.take(mant.len() as int) =~= mant);
                assert(mant =~= ipg);
                assert(ipg + fpg =~= body.take(i - start));
            }
            assert(all_digits(ipg)) by {
                assert forall|k: int| 0 <= k < ipg.len() implies is_digit(
                    #[trigger] ipg[k],
                ) by {
                    assert(ipg[k] == body[k]);
                }
            }
            assert(all_digits(fpg)) by {
                assert forall|k: int| 0 <= k < fpg.len() implies is_digit(
                    #[trigger] fpg[k],
                ) by {
                    assert(fpg[k] == body[k + i - start + 1]);
                }
            }
            assert forall|k: int| 0 <= k < fpg.len() implies fpg[k] != '.' by {
                assert(is_digit(fpg[k]));
            }
            lemma_dot_pos_at(fpg, fpg.len() as int);
        }
    }
    parse_decimal_exp(tok, n, start, neg, signed, j, fcount, acc, Ghost(body), Ghost(ipg),
        Ghost(fpg))
}

/// The last stage of [`parse_decimal`]: reads the optional exponent after
/// the mantissa and combines the parts.
#[verifier::rlimit(100)]
fn parse_decimal_exp(
    tok: &str,
    n: usize,
    start: usize,
    neg: bool,
    signed: bool,
    j: usize,
    fcount: usize,
    acc: u64,
    Ghost(body): Ghost<Seq<char>>,
    Ghost(ipg): Ghost<Seq<char>>,
    Ghost(fpg): Ghost<Seq<char>>,
) -> (r: Option<crate::types::Decimal>)
    requires
        n == tok@.len(),
        signed == (tok@.len() > 0 && (tok@[0] == '-' || tok@[0] == '+')),
        neg == (tok@.len() > 0 && tok@[0] == '-'),
        start == if signed { 1int } else { 0int },
        signed ==> body == tok@.drop_first(),
        !signed ==> body == tok@,
        start <= j <= n,
        exp_pos(body) == j - start,
        j < n ==> (tok@[j as int] == 'e' || tok@[j as int] == 'E'),
        ({
            let mant = body.take(exp_pos(body));
            let d = dot_pos(mant);
            ipg == mant.take(d) && fpg == (if d == mant.len() {
                Seq::<char>::empty()
            } else {
                mant.skip(d + 1)
            })
        }),
        all_digits(ipg),
        all_digits(fpg),
        dot_pos(fpg) == fpg.len(),
        ipg.len() + fpg.len() >= 1,
        fpg.len() == fcount,
        acc as int == digits_val(ipg + fpg),
        acc <= 0x7fff_ffff_ffff_ffff,
    ensures
        match r {
            Some(d) => dec_of_token(tok@) == Some((d.m(), d.s())) && d.wf(),
            None => dec_of_token(tok@) is None,
        },
{
    let ghost e_sp = exp_pos(body);
    let has_exp = j < n;
    proof {
        assert(body.len() == n - start);
        assert forall|k: int| 0 <= k < body.len() implies #[trigger] body[k]
            == tok@[k + start] by {}
    }
    // exponent digits, saturating beyond any scale the value could carry
    let ghost sat_cap: int = fcount as int + 20;
    let mut ev: u128 = 0;
    let mut eneg = false;
    let mut sat = false;
    if has_exp {
        let mut q = j + 1;
        if q < n && (tok.get_char(q) == '-' || tok.get_char(q) == '+') {
            eneg = tok.get_char(q) == '-';
            q += 1;
        }
        let estart = q;
        proof {
            assert(body.skip(e_sp + 1) =~= body.subrange((j - start + 1) as int,
                body.len() as int));
            assert(body.subrange((estart - start) as int, (estart - start) as int).len() == 0);
        }
        if estart == n {
            proof {
                if dec_of_token(tok@) is Some {
                    let etext = if e_sp < body.len() {
                body.skip(e_sp + 1)
            } else {
                Seq::<char>::empty()
            };
                    let esigned = etext.len() > 0 && (etext[0] == '-' || etext[0] == '+');
                    let edigits = if esigned {
                        etext.drop_first()
                    } else {
                        etext
                    };
                    assert(e_sp < body.len());
                    assert(edigits.len() == 0) by {
                        if estart == j + 1 {
                            assert(etext.len() == 0 || !(etext[0] == '-' || etext[0]
                                == '+')) by {
                                if etext.len() > 0 {
                                    assert(etext[0] == body[j - start + 1]);
                                    assert(body[j - start + 1] == tok@[j + 1]);
                                }
                            }
                        } else {
                            assert(etext[0] == body[j - start + 1]);
                            assert(etext.drop_first() =~= body.subrange((j - start + 2) as int,
                                body.len() as int));
                        }
                    }
                    assert(false);
                }
            }
            return None;
        }
        while q < n && digit_at(tok, q)
            invariant
                n == tok@.len(),
                start == if signed { 1int } else { 0int },
                signed ==> body == tok@.drop_first(),
                !signed ==> body == tok@,
                body.len() == n - start,
                forall|k: int| 0 <= k < body.len() ==> #[trigger] body[k] == tok@[k + start],
                start <= estart <= q <= n,
                estart >= 1,
                forall|k: int| estart - start <= k < q - start ==> is_digit(#[trigger] body[k]),
                sat_cap == fcount as int + 20,
                !sat ==> ev as int == digits_val(
                    body.subrange((estart - start) as int, (q - start) as int),
                ) && (ev as int) < sat_cap,
                sat ==> digits_val(body.subrange((estart - start) as int, (q - start) as int))
                    >= sat_cap,
                (ev as int) <= sat_cap,
            decreases n - q,
        {
            let c = tok.get_char(q);
            let dv: u128 = ((c as u32) - 48) as u128;
            proof {
                assert(body[q - start] == tok@[q as int]);
                assert(is_digit(c));
                assert(dv as int == digit_val(c));
                let pref = body.subrange((estart - start) as int, (q - start) as int);
                assert(pref.push(body[q - start]) =~= body.subrange((estart - start) as int, (q
                    - start + 1) as int));
                assert(pref.push(body[q - start]).drop_last() =~= pref);
                assert(pref.push(body[q - start]).last() == body[q - start]);
                assert(digits_val(pref.push(body[q - start])) == digits_val(pref) * 10
                    + digit_val(body[q - start]));
                assert(all_digits(pref)) by {
                    assert forall|k: int| 0 <= k < pref.len() implies is_digit(
                        #[trigger] pref[k],
                    ) by {
                        assert(pref[k] == body[k + estart - start]);
                    }
                }
                crate::text::lemma_digits_val_nonneg(pref);
            }
            if !sat {
                let newv = ev * 10 + dv;
                proof {
                    assert(newv as int == digits_val(body.subrange((estart - start) as int, (q
                        - start + 1) as int)));
                }
                if newv as u128 >= (fcount as u128) + 20 {
                    sat = true;
                    ev = (fcount as u128) + 20;
                } else {
                    ev = newv;
                }
            } else {
                proof {
                    let pref = body.subrange((estart - start) as int, (q - start) as int);
                    assert(digits_val(pref.push(body[q - start])) == digits_val(pref) * 10
                        + digit_val(body[q - start]));
                    assert(digits_val(pref) * 10 >= digits_val(pref)) by (nonlinear_arith)
                        requires
                            digits_val(pref) >= 0,
                    ;
                }
            }
            q += 1;
        }
        if q != n {
            proof {
                assert(body[q - start] == tok@[q as int]);
                assert(!is_digit(body[q - start]));
                if dec_of_token(tok@) is Some {
                    let etext = if e_sp < body.len() {
                body.skip(e_sp + 1)
            } else {
                Seq::<char>::empty()
            };
                    let esigned = etext.len() > 0 && (etext[0] == '-' || etext[0] == '+');
                    let edigits = if esigned {
                        etext.drop_first()
                    } else {
                        etext
                    };
                    assert(edigits =~= body.subrange((estart - start) as int,
                        body.len() as int)) by {
                        if estart == j + 1 {
                            assert(etext.len() > 0);
                            assert(etext[0] == body[j - start + 1]);
                        } else {
                            assert(etext[0] == body[j - start + 1]);
                            assert(etext.drop_first() =~= body.subrange((j - start + 2) as int,
                                body.len() as int));
                        }
                    }
                    assert(edigits[(q - estart) as int] == body[q - start]);
                    assert(is_digit(edigits[(q - estart) as int]));
                    assert(false);
                }
            }
            return None;
        }
        proof {
            let etext = if e_sp < body.len() {
                body.skip(e_sp + 1)
            } else {
                Seq::<char>::empty()
            };
            let esigned = etext.len() > 0 && (etext[0] == '-' || etext[0] == '+');
            let edigits = if esigned {
                etext.drop_first()
            } else {
                etext
            };
            assert(edigits =~= body.subrange((estart - start) as int, body.len() as int)) by {
                if estart == j + 1 {
                    assert(etext.len() > 0);
                    assert(etext[0] == body[j - start + 1]);
                } else {
                    assert(etext[0] == body[j - start + 1]);
                    assert(etext.drop_first() =~= body.subrange((j - start + 2) as int,
                        body.len() as int));
                }
            }
            assert(eneg == (etext.len() > 0 && etext[0] == '-')) by {
                assert(etext[0] == body[j - start + 1]);
                assert(body[j - start + 1] == tok@[j + 1]);
            }
            assert(edigits.len() >= 1);
            assert(all_digits(edigits)) by {
                assert forall|k: int| 0 <= k < edigits.len() implies is_digit(
                    #[trigger] edigits[k],
                ) by {
                    assert(edigits[k] == body[k + estart - start]);
                }
            }
            if !sat {
                assert(ev as int == digits_val(edigits));
            } else {
                assert(digits_val(edigits) >= sat_cap);
            }
        }
    } else {
        proof {
            assert(e_sp == body.len());
        }
    }
    // combine mantissa, scale and exponent
    let sv: i128 = if eneg {
        fcount as i128 + ev as i128
    } else {
        fcount as i128 - ev as i128
    };
    proof {
        let etext = if e_sp < body.len() {
            body.skip(e_sp + 1)
        } else {
            Seq::<char>::empty()
        };
        let esigned = etext.len() > 0 && (etext[0] == '-' || etext[0] == '+');
        let edigits = if esigned {
            etext.drop_first()
        } else {
            etext
        };
        if !has_exp {
            assert(edigits.len() == 0);
            assert(digits_val(edigits) == 0);
            assert(!eneg && !sat && ev == 0);
        }
        assert(dec_grammar_holds(body, ipg, fpg, eneg));
        if !sat {
            assert(ev as int == exp_value_mag(body));
        } else {
            assert(exp_value_mag(body) >= sat_cap);
        }
        crate::types::lemma_pow10_pos(0);
    }
    if sat {
        if !eneg && acc == 0 {
            proof {
                lemma_dec_combine_zero(tok@, body, signed, neg, ipg, fpg, sat_cap);
            }
            return Some(crate::types::Decimal { mantissa: 0, scale: 0 });
        }
        proof {
            lemma_dec_combine_sat(tok@, body, signed, neg, ipg, fpg, acc as int, eneg, sat_cap);
        }
        return None;
    }
    if sv >= 0 {
        if sv > 19 {
            proof {
                lemma_dec_combine(tok@, body, signed, neg, ipg, fpg, acc as int, eneg, ev as int);
            }
            return None;
        }
        proof {
            lemma_dec_combine(tok@, body, signed, neg, ipg, fpg, acc as int, eneg, ev as int);
        }
        let m: i64 = if neg {
            -(acc as i64)
        } else {
            acc as i64
        };
        return Some(crate::types::Decimal { mantissa: m, scale: sv as u32 });
    }
    let k: i128 = -sv;
    proof {
        assert(k == ev - fcount);
        assert(k < 20);
        lemma_dec_combine(tok@, body, signed, neg, ipg, fpg, acc as int, eneg, ev as int);
    }
    let p = crate::types::pow10_i128(k as u32);
    proof {
        crate::types::lemma_mul_in_range(acc as int, p as int);
    }
    let prod: i128 = (acc as i128) * p;
    if prod > 0x7fff_ffff_ffff_ffff {
        return None;
    }
    let m: i64 = if neg {
        -(prod as i64)
    } else {
        prod as i64
    };
    Some(crate::types::Decimal { mantissa: m, scale: 0 })
}

/// A mantissa without a single digit admits no decimal.
proof fn lemma_mant_no_digits(
    tokv: Seq<char>,
    body: Seq<char>,
    signed: bool,
    has_dot: bool,
    ii: int,
    jj: int,
)
    requires
        signed == (tokv.len() > 0 && (tokv[0] == '-' || tokv[0] == '+')),
        body == if signed { tokv.drop_first() } else { tokv },
        ii == 0,
        has_dot ==> body.len() >= 1 && body[0] == '.' && jj == 1 && (body.len() == 1
            || !is_digit(body[1])),
        !has_dot ==> jj == 0 && (body.len() == 0 || (!is_digit(body[0]) && body[0] != '.')),
    ensures
        dec_of_token(tokv) is None,
{
    let e_sp = exp_pos(body);
    let mant = body.take(e_sp);
    lemma_exp_pos(body);
    lemma_dot_pos(mant);
    if dec_of_token(tokv) is Some {
        let d = dot_pos(mant);
        let ip = mant.take(d);
        let fp = if d == mant.len() {
            Seq::<char>::empty()
        } else {
            mant.skip(d + 1)
        };
        assert(ip.len() + fp.len() >= 1);
        if !has_dot {
            assert(mant.len() >= 1) by {
                if mant.len() == 0 {
                    assert(ip.len() == 0 && fp.len() == 0);
                }
            }
            assert(body[0] != 'e' && body[0] != 'E') by {
                if e_sp == 0 {
                    assert(mant.len() == 0);
                }
            }
            assert(mant[0] == body[0]);
            if d == 0 {
                assert(mant[0] == '.');
                assert(false);
            } else {
                assert(ip[0] == mant[0]);
                assert(is_digit(body[0]));
                assert(false);
            }
        } else {
            assert(e_sp >= 1) by {
                if e_sp == 0 {
                    assert(ip.len() == 0 && fp.len() == 0);
                }
            }
            assert(mant[0] == '.');
            lemma_dot_pos_at(mant, 0);
            assert(ip.len() == 0);
            assert(fp.len() >= 1);
            assert(fp[0] == mant[1]);
            assert(e_sp >= 2);
            assert(mant[1] == body[1]);
            assert(body.len() >= 2);
            assert(is_digit(fp[0]));
            assert(false);
        }
    }
}

/// A character in the mantissa region that is neither digit, point nor
/// exponent marker admits no decimal.
proof fn lemma_mant_garbage(
    tokv: Seq<char>,
    body: Seq<char>,
    signed: bool,
    has_dot: bool,
    dp: int,
    pos: int,
)
    requires
        signed == (tokv.len() > 0 && (tokv[0] == '-' || tokv[0] == '+')),
        body == if signed { tokv.drop_first() } else { tokv },
        0 <= pos < body.len(),
        !is_digit(body[pos]),
        body[pos] != 'e' && body[pos] != 'E',
        !has_dot ==> dp == pos && (forall|k: int| 0 <= k < pos ==> is_digit(#[trigger] body[k]))
            && body[pos] != '.',
        has_dot ==> 0 <= dp < pos && (forall|k: int| 0 <= k < dp ==> is_digit(
            #[trigger] body[k],
        )) && body[dp] == '.' && (forall|k: int|
            dp + 1 <= k < pos ==> is_digit(#[trigger] body[k])),
    ensures
        dec_of_token(tokv) is None,
{
    let e_sp = exp_pos(body);
    let mant = body.take(e_sp);
    let c = body[pos];
    lemma_exp_pos(body);
    if dec_of_token(tokv) is Some {
        assert(e_sp > pos) by {
            if e_sp <= pos {
                assert(body[e_sp] == 'e' || body[e_sp] == 'E');
                if e_sp < pos {
                    if has_dot {
                        if e_sp < dp {
                            assert(is_digit(body[e_sp]));
                        } else if e_sp == dp {
                            assert(body[e_sp] == '.');
                        } else {
                            assert(is_digit(body[e_sp]));
                        }
                    } else {
                        assert(is_digit(body[e_sp]));
                    }
                }
            }
        }
        let d = dot_pos(mant);
        let ip = mant.take(d);
        let fp = if d == mant.len() {
            Seq::<char>::empty()
        } else {
            mant.skip(d + 1)
        };
        if !has_dot {
            lemma_dot_pos(mant);
            assert(forall|k: int| 0 <= k < pos ==> is_digit(#[trigger] mant[k]));
            assert(d >= pos) by {
                if d < pos {
                    assert(mant[d] == '.');
                    assert(is_digit(mant[d]));
                }
            }
            if d == pos {
                assert(mant[pos] == '.');
                assert(false);
            } else {
                assert(ip[pos] == mant[pos]);
                assert(is_digit(c));
                assert(false);
            }
        } else {
            lemma_dot_pos_at(mant, dp);
            assert(d == dp);
            assert(fp.len() == mant.len() - dp - 1);
            assert(fp[pos - dp - 1] == mant[pos]);
            assert(mant[pos] == c);
            if c == '.' {
                lemma_dot_pos(fp);
                assert(dot_pos(fp) <= pos - dp - 1) by {
                    if dot_pos(fp) > pos - dp - 1 {
                        assert(fp[pos - dp - 1] != '.');
                    }
                }
                assert(false);
            } else {
                assert(!is_digit(fp[pos - dp - 1]));
                assert(false);
            }
        }
    }
}

/// Unfolds [`dec_of_token`] for a fully scanned token: the grammar holds,
/// the mantissa digits denote `m0`, and the exponent digits denote `ev`.
proof fn lemma_dec_combine(
    tokv: Seq<char>,
    body: Seq<char>,
    signed: bool,
    neg: bool,
    ipg: Seq<char>,
    fpg: Seq<char>,
    m0: int,
    eneg: bool,
    ev: int,
)
    requires
        signed == (tokv.len() > 0 && (tokv[0] == '-' || tokv[0] == '+')),
        neg == (tokv.len() > 0 && tokv[0] == '-'),
        body == if signed { tokv.drop_first() } else { tokv },
        dec_grammar_holds(body, ipg, fpg, eneg),
        m0 == digits_val(ipg + fpg),
        0 <= m0 <= 0x7fff_ffff_ffff_ffff,
        ev == exp_value_mag(body),
    ensures
        ({
            let sv = fpg.len() - (if eneg { -ev } else { ev });
            dec_of_token(tokv) == (if sv >= 0 {
                if sv <= 19 {
                    Some::<(int, nat)>((if neg { -m0 } else { m0 }, sv as nat))
                } else {
                    None::<(int, nat)>
                }
            } else {
                if m0 * crate::types::pow10((-sv) as nat) <= 0x7fff_ffff_ffff_ffff {
                    Some::<(int, nat)>((
                        if neg {
                            -(m0 * crate::types::pow10((-sv) as nat))
                        } else {
                            m0 * crate::types::pow10((-sv) as nat)
                        },
                        0,
                    ))
                } else {
                    None::<(int, nat)>
                }
            })
        }),
{
}

/// The grammar facts [`lemma_dec_combine`] consumes: the scanned regions
/// are the token's own mantissa and exponent parts.
pub open spec fn dec_grammar_holds(
    body: Seq<char>,
    ipg: Seq<char>,
    fpg: Seq<char>,
    eneg: bool,
) -> bool {
    let e = exp_pos(body);
    let mant = body.take(e);
    let etext = if e < body.len() {
        body.skip(e + 1)
    } else {
        Seq::<char>::empty()
    };
    let esigned = etext.len() > 0 && (etext[0] == '-' || etext[0] == '+');
    let edigits = if esigned {
        etext.drop_first()
    } else {
        etext
    };
    let d = dot_pos(mant);
    ipg == mant.take(d) && fpg == (if d == mant.len() {
        Seq::<char>::empty()
    } else {
        mant.skip(d + 1)
    }) && all_digits(ipg) && all_digits(fpg) && dot_pos(fpg) == fpg.len() && ipg.len()
        + fpg.len() >= 1 && (e == body.len() || (edigits.len() >= 1 && all_digits(edigits)))
        && eneg == (etext.len() > 0 && etext[0] == '-')
}

/// The magnitude of the exponent the token carries, zero when it has none.
pub open spec fn exp_value_mag(body: Seq<char>) -> int {
    let e = exp_pos(body);
    let etext = if e < body.len() {
        body.skip(e + 1)
    } else {
        Seq::<char>::empty()
    };
    let esigned = etext.len() > 0 && (etext[0] == '-' || etext[0] == '+');
    let edigits = if esigned {
        etext.drop_first()
    } else {
        etext
    };
    digits_val(edigits)
}

/// With a zero mantissa, any in-grammar exponent gives the zero decimal.
proof fn lemma_dec_combine_zero(
    tokv: Seq<char>,
    body: Seq<char>,
    signed: bool,
    neg: bool,
    ipg: Seq<char>,
    fpg: Seq<char>,
    sat_cap: int,
)
    requires
        signed == (tokv.len() > 0 && (tokv[0] == '-' || tokv[0] == '+')),
        neg == (tokv.len() > 0 && tokv[0] == '-'),
        body == if signed { tokv.drop_first() } else { tokv },
        dec_grammar_holds(body, ipg, fpg, false),
        digits_val(ipg + fpg) == 0,
        sat_cap == fpg.len() + 20,
        exp_value_mag(body) >= sat_cap,
    ensures
        dec_of_token(tokv) == Some::<(int, nat)>((0, 0)),
{
    let ev = exp_value_mag(body);
    let sv = fpg.len() - ev;
    assert(sv < 0);
    assert(0 * crate::types::pow10((-sv) as nat) == 0) by (nonlinear_arith);
}

/// A saturated exponent admits no decimal: negative, it pushes the scale
/// past its bound; positive with a non-zero mantissa, it pushes the value
/// past the mantissa bound.
proof fn lemma_dec_combine_sat(
    tokv: Seq<char>,
    body: Seq<char>,
    signed: bool,
    neg: bool,
    ipg: Seq<char>,
    fpg: Seq<char>,
    m0: int,
    eneg: bool,
    sat_cap: int,
)
    requires
        signed == (tokv.len() > 0 && (tokv[0] == '-' || tokv[0] == '+')),
        neg == (tokv.len() > 0 && tokv[0] == '-'),
        body == if signed { tokv.drop_first() } else { tokv },
        dec_grammar_holds(body, ipg, fpg, eneg),
        m0 == digits_val(ipg + fpg),
        0 <= m0 <= 0x7fff_ffff_ffff_ffff,
        eneg || m0 >= 1,
        sat_cap == fpg.len() + 20,
        exp_value_mag(body) >= sat_cap,
    ensures
        dec_of_token(tokv) is None,
{
    let ev = exp_value_mag(body);
    if eneg {
        assert(fpg.len() + ev > 19);
    } else {
        let sv = fpg.len() - ev;
        assert(sv <= -20);
        let kk = (-sv) as nat;
        crate::types::lemma_pow10_large(kk);
        assert(m0 * crate::types::pow10(kk) >= crate::types::pow10(kk)) by (nonlinear_arith)
            requires
                m0 >= 1,
                crate::types::pow10(kk) >= 0,
        ;
    }
}

/// At an overflowing digit in the integer part, the token denotes no
/// decimal: its mantissa digits alone exceed the mantissa bound.
proof fn lemma_decimal_overflow(
    tokv: Seq<char>,
    body: Seq<char>,
    signed: bool,
    m: int,
    acc: int,
    dv: int,
)
    requires
        signed == (tokv.len() > 0 && (tokv[0] == '-' || tokv[0] == '+')),
        body == if signed { tokv.drop_first() } else { tokv },
        0 <= m < body.len(),
        forall|k: int| 0 <= k < m ==> is_digit(#[trigger] body[k]),
        is_digit(body[m]),
        acc == digits_val(body.take(m)),
        0 <= acc,
        dv == digit_val(body[m]),
        acc > (0x7fff_ffff_ffff_ffff - dv) / 10,
    ensures
        dec_of_token(tokv) is None,
{
    if dec_of_token(tokv) is Some {
        let e = exp_pos(body);
        let mant = body.take(e);
        lemma_exp_pos(body);
        assert(e > m) by {
            if e <= m {
                assert(body[e] == 'e' || body[e] == 'E');
                assert(is_digit(body[e]));
            }
        }
        let d = dot_pos(mant);
        let ip = mant.take(d);
        let fp = if d == mant.len() {
            Seq::<char>::empty()
        } else {
            mant.skip(d + 1)
        };
        lemma_dot_pos(mant);
        assert(d > m) by {
            if d <= m {
                assert(d < mant.len());
                assert(mant[d] == '.');
                assert(mant[d] == body[d]);
                assert(is_digit(body[d]));
            }
        }
        let whole = ip + fp;
        assert(all_digits(whole)) by {
            assert forall|k: int| 0 <= k < whole.len() implies is_digit(
                #[trigger] whole[k],
            ) by {
                if k < ip.len() {
                    assert(whole[k] == ip[k]);
                } else {
                    assert(whole[k] == fp[k - ip.len()]);
                }
            }
        }
        assert(whole.take(m) =~= body.take(m)) by {
            assert forall|k: int| 0 <= k < m implies whole.take(m)[k] == #[trigger] body.take(
                m,
            )[k] by {
                assert(whole[k] == ip[k]);
                assert(ip[k] == mant[k]);
                assert(mant[k] == body[k]);
            }
        }
        assert(whole.take(m + 1) =~= body.take(m + 1)) by {
            assert forall|k: int| 0 <= k < m + 1 implies whole.take(m + 1)[k]
                == #[trigger] body.take(m + 1)[k] by {
                assert(whole[k] == ip[k]);
                assert(ip[k] == mant[k]);
                assert(mant[k] == body[k]);
            }
        }
        lemma_mantissa_overflow_common(whole, body, m, acc, dv);
        lemma_overflow_closes(tokv, body, whole, ip, fp);
    }
}

/// At an overflowing digit in the fraction part, likewise.
proof fn lemma_decimal_overflow_frac(
    tokv: Seq<char>,
    body: Seq<char>,
    signed: bool,
    dp: int,
    m: int,
    acc: int,
    dv: int,
)
    requires
        signed == (tokv.len() > 0 && (tokv[0] == '-' || tokv[0] == '+')),
        body == if signed { tokv.drop_first() } else { tokv },
        0 <= dp < m < body.len(),
        forall|k: int| 0 <= k < dp ==> is_digit(#[trigger] body[k]),
        body[dp] == '.',
        forall|k: int| dp + 1 <= k < m ==> is_digit(#[trigger] body[k]),
        is_digit(body[m]),
        acc == digits_val(body.take(dp) + body.subrange(dp + 1, m)),
        0 <= acc,
        dv == digit_val(body[m]),
        acc > (0x7fff_ffff_ffff_ffff - dv) / 10,
    ensures
        dec_of_token(tokv) is None,
{
    if dec_of_token(tokv) is Some {
        let e = exp_pos(body);
        let mant = body.take(e);
        lemma_exp_pos(body);
        assert(e > m) by {
            if e <= m {
                assert(body[e] == 'e' || body[e] == 'E');
                if e < dp {
                    assert(is_digit(body[e]));
                } else if e == dp {
                    assert(body[e] == '.');
                } else {
                    assert(is_digit(body[e]));
                }
            }
        }
        lemma_dot_pos_at(mant, dp);
        let d = dot_pos(mant);
        let ip = mant.take(d);
        let fp = mant.skip(d + 1);
        assert(ip =~= body.take(dp));
        let whole = ip + fp;
        assert(all_digits(whole)) by {
            assert forall|k: int| 0 <= k < whole.len() implies is_digit(
                #[trigger] whole[k],
            ) by {
                if k < ip.len() {
                    assert(whole[k] == ip[k]);
                } else {
                    assert(whole[k] == fp[k - ip.len()]);
                }
            }
        }
        assert(whole.take(dp + (m - dp - 1)) =~= body.take(dp) + body.subrange(dp + 1, m));
        assert(whole.take(dp + (m - dp - 1) + 1) =~= body.take(dp) + body.subrange(dp + 1, m
            + 1));
        assert((body.take(dp) + body.subrange(dp + 1, m + 1)).drop_last() =~= body.take(dp)
            + body.subrange(dp + 1, m));
        assert((body.take(dp) + body.subrange(dp + 1, m + 1)).last() == body[m]);
        lemma_mantissa_overflow_common_at(whole, dp + (m - dp - 1), acc, dv, body[m]);
        lemma_overflow_closes(tokv, body, whole, ip, fp);
    }
}

/// A mantissa past the bound closes both branches of [`dec_of_token`].
proof fn lemma_overflow_closes(
    tokv: Seq<char>,
    body: Seq<char>,
    whole: Seq<char>,
    ip: Seq<char>,
    fp: Seq<char>,
)
    requires
        body == if tokv.len() > 0 && (tokv[0] == '-' || tokv[0] == '+') {
            tokv.drop_first()
        } else {
            tokv
        },
        ({
            let e = exp_pos(body);
            let mant = body.take(e);
            let d = dot_pos(mant);
            ip == mant.take(d) && fp == (if d == mant.len() {
                Seq::<char>::empty()
            } else {
                mant.skip(d + 1)
            })
        }),
        whole == ip + fp,
        all_digits(whole),
        digits_val(whole) > 0x7fff_ffff_ffff_ffff,
    ensures
        dec_of_token(tokv) is None,
{
    crate::text::lemma_digits_val_nonneg(whole);
    if dec_of_token(tokv) is Some {
        let e = exp_pos(body);
        let etext = if e < body.len() {
            body.skip(e + 1)
        } else {
            Seq::<char>::empty()
        };
        let eneg = etext.len() > 0 && etext[0] == '-';
        let esigned = etext.len() > 0 && (etext[0] == '-' || etext[0] == '+');
        let edigits = if esigned {
            etext.drop_first()
        } else {
            etext
        };
        let m0 = digits_val(whole);
        let ev = if eneg {
            -digits_val(edigits)
        } else {
            digits_val(edigits)
        };
        let sv = fp.len() - ev;
        if sv < 0 {
            crate::types::lemma_pow10_pos((-sv) as nat);
            assert(m0 * crate::types::pow10((-sv) as nat) >= m0) by (nonlinear_arith)
                requires
                    m0 >= 0,
                    crate::types::pow10((-sv) as nat) >= 1,
            ;
        }
        assert(false);
    }
}

/// The shared tail of the overflow arguments: a prefix of the mantissa
/// digits already past the bound keeps the whole past it.
proof fn lemma_mantissa_overflow_common(
    whole: Seq<char>,
    body: Seq<char>,
    m: int,
    acc: int,
    dv: int,
)
    requires
        all_digits(whole),
        0 <= m,
        m + 1 <= whole.len(),
        whole.take(m) == body.take(m),
        whole.take(m + 1) == body.take(m + 1),
        0 <= m < body.len(),
        acc == digits_val(body.take(m)),
        0 <= acc,
        is_digit(body[m]),
        dv == digit_val(body[m]),
        acc > (0x7fff_ffff_ffff_ffff - dv) / 10,
    ensures
        digits_val(whole) > 0x7fff_ffff_ffff_ffff,
{
    assert(body.take(m + 1).drop_last() =~= body.take(m));
    assert(body.take(m + 1).last() == body[m]);
    lemma_mantissa_overflow_common_at(whole, m, acc, dv, body[m]);
}

proof fn lemma_mantissa_overflow_common_at(
    whole: Seq<char>,
    m: int,
    acc: int,
    dv: int,
    c: char,
)
    requires
        all_digits(whole),
        0 <= m,
        m + 1 <= whole.len(),
        digits_val(whole.take(m + 1)) == acc * 10 + dv,
        0 <= acc,
        is_digit(c),
        dv == digit_val(c),
        acc > (0x7fff_ffff_ffff_ffff - dv) / 10,
    ensures
        digits_val(whole) > 0x7fff_ffff_ffff_ffff,
{
    assert(acc * 10 + dv > 0x7fff_ffff_ffff_ffff) by (nonlinear_arith)
        requires
            0 <= dv <= 9,
            acc > (0x7fff_ffff_ffff_ffff - dv) / 10,
    ;
    crate::text::lemma_digits_prefix_le(whole, m + 1);
}

/// Reads one atom token as a node.
fn parse_atom(tok: &String) -> (r: Node)
    ensures
        r@ == parse_atom_spec(tok@),
        wf_view(r@),
{
    if str_eq(tok.as_str(), "#t") {
        return Node::Bool(true);
    }
    if str_eq(tok.as_str(), "#f") {
        return Node::Bool(false);
    }
    match parse_decimal(tok.as_str()) {
        Some(d) => Node::Number(d),
        None => {
            let n = tok.as_str().unicode_len();
            if n >= 2 && tok.as_str().get_char(0) == '"' && tok.as_str().get_char(n - 1)
                == '"' {
                let ghost inner = tok@.subrange(1, tok@.len() - 1);
                let mut out = String::new();
                let mut j: usize = 1;
                proof {
                    assert(inner.skip(0) =~= inner);
                    assert(Seq::<char>::empty() + unescape(inner) =~= unescape(inner));
                }
                while j < n - 1
                    invariant
                        n == tok@.len(),
                        n >= 2,
                        inner == tok@.subrange(1, tok@.len() - 1),
                        1 <= j <= n - 1,
                        unescape(inner) == out@ + unescape(inner.skip(j - 1)),
                    decreases n - j,
                {
                    let c = tok.as_str().get_char(j);
                    proof {
                        reveal_with_fuel(unescape, 2);
                        assert(inner[j - 1] == tok@[j as int]);
                        assert(inner.skip(j - 1)[0] == inner[j - 1]);
                        if j < n - 2 {
                            assert(inner.skip(j - 1)[1] == inner[j as int]);
                        }
                    }
                    if c == '\\' && j + 1 < n - 1 && tok.as_str().get_char(j + 1) == '"' {
                        push_char(&mut out, '"');
                        proof {
                            assert(inner.skip(j - 1).skip(2) =~= inner.skip(j + 1));
                            assert(out@ + unescape(inner.skip(j + 1)) =~= unescape(inner));
                        }
                        j += 2;
                    } else {
                        proof {
                            if c == '\\' && j + 1 < n - 1 {
                            } else {
                                if inner.skip(j - 1).len() >= 2 {
                                    assert(inner.skip(j - 1)[1] == inner[j as int]);
                                }
                            }
                            assert(inner.skip(j - 1).drop_first() =~= inner.skip(j as int));
                        }
                        push_char(&mut out, c);
                        proof {
                            assert(out@ + unescape(inner.skip(j as int)) =~= unescape(inner));
                        }
                        j += 1;
                    }
                }
                proof {
                    assert(inner.skip(n - 2).len() == 0);
                    assert(out@ + Seq::<char>::empty() =~= out@);
                }
                Node::Str(out)
            } else {
                Node::Symbol(tok.clone())
            }
        }
    }
}

/// Reads one expression at `pos`; returns the node and the position after.
fn parse_expr(tokens: &Vec<String>, pos: usize) -> (r: Result<(Node, usize), SplError>)
    ensures
        ({
            let o = parse_expr_spec(views_of(tokens@), pos as int);
            match r {
                Ok((nd, p2)) => o is Ok && o->Ok_0.0 == nd@ && wf_view(nd@) && p2 as int
                    == o->Ok_0.1 && pos < p2 <= tokens@.len(),
                Err(e) => o is Err && e@ == parse_msg(o->Err_0),
            }
        }),
    decreases tokens@.len() - pos, 0int,
{
    let ghost tv = views_of(tokens@);
    proof {
        lemma_views_of(tokens@);
    }
    if pos >= tokens.len() {
        return Err(SplError(String::from_str("unexpected EOF")));
    }
    if str_eq(tokens[pos].as_str(), "(") {
        let mut acc: Vec<Node> = Vec::new();
        let mut p = pos + 1;
        proof {
            assert(crate::types::view_of_nodes(acc@) =~= Seq::<NodeView>::empty());
        }
        loop
            invariant
                tv == views_of(tokens@),
                tv.len() == tokens@.len(),
                forall|k: int| 0 <= k < tokens@.len() ==> tv[k] == #[trigger] tokens@[k]@,
                pos < p,
                p <= tokens@.len() + 1,
                forall|k: int| 0 <= k < acc@.len()
                    ==> wf_view(#[trigger] crate::types::view_of_nodes(acc@)[k]),
                crate::types::view_of_nodes(acc@).len() == acc@.len(),
                parse_expr_spec(tv, pos as int) == parse_items_spec(
                    tv,
                    p as int,
                    crate::types::view_of_nodes(acc@),
                ),
            decreases tokens@.len() - p, 1int,
        {
            proof {
                reveal_with_fuel(parse_items_spec, 2);
            }
            if p >= tokens.len() {
                return Err(SplError(String::from_str("unterminated (")));
            }
            if str_eq(tokens[p].as_str(), ")") {
                proof {
                    crate::types::lemma_view_of_nodes(acc@);
                    crate::types::lemma_wf_list(crate::types::view_of_nodes(acc@));
                }
                return Ok((Node::List(acc), p + 1));
            }
            match parse_expr(tokens, p) {
                Err(e) => {
                    return Err(e);
                }
                Ok((nd, p2)) => {
                    let ghost acc0 = crate::types::view_of_nodes(acc@);
                    let ghost accseq0 = acc@;
                    acc.push(nd);
                    proof {
                        assert(acc@.drop_last() =~= accseq0);
                        crate::types::lemma_view_of_nodes(acc@);
                        assert(crate::types::view_of_nodes(acc@) =~= acc0.push(
                            acc@.last()@,
                        ));
                    }
                    p = p2;
                }
            }
        }
    } else if str_eq(tokens[pos].as_str(), ")") {
        Err(SplError(String::from_str("unexpected )")))
    } else {
        let nd = parse_atom(&tokens[pos]);
        Ok((nd, pos + 1))
    }
}

/// Parses a policy source into its AST.
///
/// Returns `Ok` exactly on the sources that [`parse_spec`] accepts: at most
/// 65,536 bytes which, trimmed and tokenized, form exactly one expression.
/// On failure the error message names what went wrong, as [`parse_msg`]
/// states.
pub fn parse(src: &str) -> (r: Result<Node, SplError>)
    ensures
        ({
            let o = parse_spec(src@);
            match r {
                Ok(nd) => o is Ok && o->Ok_0 == nd@ && wf_view(nd@),
                Err(e) => o is Err && e@ == parse_msg(o->Err_0),
            }
        }),
{
    let nbytes = src.as_bytes().len();
    if nbytes > 65536 {
        return Err(SplError(String::from_str("policy exceeds maximum size of 65536 bytes")));
    }
    let trimmed = trim_ws(src);
    let tokens = tokenize(trimmed);
    proof {
        lemma_views_of(tokens@);
    }
    if tokens.len() == 0 {
        return Err(SplError(String::from_str("unexpected EOF")));
    }
    match parse_expr(&tokens, 0) {
        Err(e) => Err(e),
        Ok((nd, p)) => {
            if p != tokens.len() {
                Err(SplError(String::from_str("extra tokens")))
            } else {
                Ok(nd)
            }
        }
    }
}

pub proof fn lemma_items_progress(toks: Seq<Seq<char>>, pos: int, acc: Seq<NodeView>)
    ensures
        parse_items_spec(toks, pos, acc) matches Ok((n, p2)) ==> pos < p2 <= toks.len(),
    decreases toks.len() - pos, 1int,
{
    if 0 <= pos < toks.len() && toks[pos] != ")"@ {
        lemma_parse_progress(toks, pos);
        match parse_expr_spec(toks, pos) {
            Ok((n, p2)) => {
                let next = if pos < p2 <= toks.len() {
                    p2
                } else {
                    pos + 1
                };
                lemma_items_progress(toks, next, acc.push(n));
            }
            Err(_) => {}
        }
    }
}

} // verus!
