//! Laws that relate the parts of the interpreter.

use vstd::prelude::*;

use crate::ast::{
    block_rest, close_block, keyword_of, parse_from, parse_program, parse_token, render_join,
    render_spec, spec_binary, Keyword, SpecAst, SpecLiteral,
};
use crate::token::{
    ascii_text, is_space, next_token, run_end, skip_trivia, ByteClass, SpecToken, TokenError,
};
use crate::error::SpecError;
use crate::eval::{arith, eval_spec, initial_state, BinOp, SpecNum, SpecState, SpecValue};

verus! {

/// Referencing a name that the environment does not bind fails with
/// `VariableUndefined` of that name, and changes nothing.
pub proof fn lemma_unbound_name_fails(depth: nat, st: SpecState, name: Seq<char>)
    requires
        !st.env.contains_key(name),
    ensures
        eval_spec(depth, st, SpecAst::Ident(name)) == (
        Err::<SpecValue, SpecError>(SpecError::VariableUndefined(name)), st),
{
}

/// Arithmetic on operands that are not both numbers is no error: it yields `Nil`.
pub proof fn lemma_mismatch_yields_nil(depth: nat, st: SpecState, op: BinOp, x: SpecAst, y: SpecAst)
    requires
        eval_spec(depth, st, x).0 is Ok,
        eval_spec(depth, eval_spec(depth, st, x).1, y).0 is Ok,
        !(eval_spec(depth, st, x).0->Ok_0 is Number && eval_spec(
            depth,
            eval_spec(depth, st, x).1,
            y,
        ).0->Ok_0 is Number),
    ensures
        eval_spec(depth, st, spec_binary(op, x, y)) == (
        Ok::<SpecValue, SpecError>(SpecValue::Nil), eval_spec(depth, eval_spec(depth, st, x).1, y).1),
{
    let vx = eval_spec(depth, st, x).0->Ok_0;
    let vy = eval_spec(depth, eval_spec(depth, st, x).1, y).0->Ok_0;
    assert(arith(op, vx, vy) == SpecValue::Nil);
}

/// In a new interpreter `PI` is bound to the constant π, with no assignment made.
pub proof fn lemma_pi_prebound(depth: nat)
    ensures
        eval_spec(depth, initial_state(), SpecAst::Ident(seq!['P', 'I'])) == (
        Ok::<SpecValue, SpecError>(SpecValue::Number(SpecNum::Pi)), initial_state()),
{
    assert(initial_state().env.contains_key(seq!['P', 'I']));
}


pub open spec fn is_letter_char(c: char) -> bool {
    ('a' <= c <= 'z') || ('A' <= c <= 'Z')
}

pub open spec fn is_digit_char(c: char) -> bool {
    '0' <= c <= '9'
}

/// `w` can stand as a variable's name: a letter, then letters, digits and
/// underscores, and no reserved word.
pub open spec fn is_name(w: Seq<char>) -> bool {
    &&& w.len() > 0
    &&& is_letter_char(w[0])
    &&& forall|i: int|
        1 <= i < w.len() ==> is_letter_char(#[trigger] w[i]) || is_digit_char(w[i]) || w[i] == '_'
    &&& keyword_of(w) is None
}

/// `d` is a run of one or more decimal digits.
pub open spec fn is_digits(d: Seq<char>) -> bool {
    d.len() > 0 && forall|i: int| 0 <= i < d.len() ==> is_digit_char(#[trigger] d[i])
}

/// A tree whose text needs no parentheses: a literal, a name, or a block of such
/// trees, with names and numbers as the lexer reads them.
pub open spec fn bare(a: SpecAst) -> bool
    decreases a,
{
    match a {
        SpecAst::Literal(SpecLiteral::Number((_, d))) => is_digits(d),
        SpecAst::Literal(_) => true,
        SpecAst::Ident(w) => is_name(w),
        SpecAst::Block(body) => bare_all(body),
        _ => false,
    }
}

pub open spec fn bare_all(s: Seq<SpecAst>) -> bool
    decreases s,
{
    s.len() == 0 || (bare_all(s.drop_last()) && bare(s.last()))
}

/// The bytes of `s` from `p` on are the ASCII characters `t`.
pub open spec fn spells(s: Seq<u8>, p: int, t: Seq<char>) -> bool {
    &&& 0 <= p
    &&& p + t.len() <= s.len()
    &&& forall|i: int| 0 <= i < t.len() ==> #[trigger] s[p + i] == t[i] as u8
}

/// A token may end at `q`: the input ends there, or a space or `}` follows.
pub open spec fn ends_token(s: Seq<u8>, q: int) -> bool {
    q == s.len() || (0 <= q < s.len() && (s[q] == 0x20 || s[q] == 0x7d))
}

proof fn lemma_run_to(s: Seq<u8>, p: int, q: int, c: ByteClass)
    requires
        0 <= p <= q <= s.len(),
        forall|i: int| p <= i < q ==> crate::token::in_class(c, #[trigger] s[i]),
        q == s.len() || !crate::token::in_class(c, s[q]),
    ensures
        run_end(s, p, c) == q,
    decreases q - p,
{
    if p < q {
        lemma_run_to(s, p + 1, q, c);
    }
}

proof fn lemma_literal_texts()
    ensures
        "true"@ == seq!['t', 'r', 'u', 'e'],
        "false"@ == seq!['f', 'a', 'l', 's', 'e'],
        "Nil"@ == seq!['N', 'i', 'l'],
        "-"@ == seq!['-'],
        "{"@ == seq!['{'],
        "}"@ == seq!['}'],
        " "@ == seq![' '],
{
    reveal_strlit("true");
    reveal_strlit("false");
    reveal_strlit("Nil");
    reveal_strlit("-");
    reveal_strlit("{");
    reveal_strlit("}");
    reveal_strlit(" ");
}

/// The text of a bare tree is ASCII, and starts with a letter, a digit, `-` or `{`.
proof fn lemma_bare_text(a: SpecAst)
    requires
        bare(a),
    ensures
        render_spec(a).len() > 0,
        forall|i: int| 0 <= i < render_spec(a).len() ==> '\0' <= #[trigger] render_spec(a)[i] <= '\u{7f}',
        is_letter_char(render_spec(a)[0]) || is_digit_char(render_spec(a)[0])
            || render_spec(a)[0] == '-' || render_spec(a)[0] == '{',
    decreases a,
{
    lemma_literal_texts();
    match a {
        SpecAst::Block(body) => {
            lemma_bare_join_text(body);
            let j = render_join(body);
            let t = render_spec(a);
            assert(t == seq!['{'] + j + seq!['}']);
            assert forall|i: int| 0 <= i < t.len() implies '\0' <= #[trigger] t[i] <= '\u{7f}' by {
                if 1 <= i <= j.len() {
                    assert(t[i] == j[i - 1]);
                }
            }
        },
        _ => {},
    }
}

proof fn lemma_bare_join_text(c: Seq<SpecAst>)
    requires
        bare_all(c),
    ensures
        forall|i: int| 0 <= i < render_join(c).len() ==> '\0' <= #[trigger] render_join(c)[i] <= '\u{7f}',
    decreases c,
{
    lemma_literal_texts();
    if c.len() > 0 {
        lemma_bare_join_text(c.drop_last());
        lemma_bare_text(c.last());
        if c.len() == 1 {
            assert(c[0] == c.last());
        } else {
            let j = render_join(c.drop_last());
            let r = render_spec(c.last());
            let t = render_join(c);
            assert(t == j + seq![' '] + r);
            assert forall|i: int| 0 <= i < t.len() implies '\0' <= #[trigger] t[i] <= '\u{7f}' by {
                if i < j.len() {
                    assert(t[i] == j[i]);
                } else if i > j.len() {
                    assert(t[i] == r[i - j.len() - 1]);
                }
            }
        }
    }
}


/// Trivia skipped from `p0` ends at `p` when `p0` is `p` or a single space before it.
proof fn lemma_skip_to(s: Seq<u8>, p0: int, p: int)
    requires
        0 <= p0,
        p < s.len(),
        p == p0 || (p == p0 + 1 && s[p0] == 0x20),
        !is_space(s[p]),
        s[p] != 0x23,
    ensures
        skip_trivia(s, p0) == p,
{
    lemma_run_to(s, p0, p, ByteClass::Whitespace);
}

/// The word `w` spelled at `p` is read as one identifier token.
proof fn lemma_word_token(s: Seq<u8>, p0: int, p: int, w: Seq<char>)
    requires
        w.len() > 0,
        is_letter_char(w[0]),
        forall|i: int|
            1 <= i < w.len() ==> is_letter_char(#[trigger] w[i]) || is_digit_char(w[i]) || w[i] == '_',
        0 <= p0 <= p,
        p == p0 || (p == p0 + 1 && s[p0] == 0x20),
        spells(s, p, w),
        ends_token(s, p + w.len()),
    ensures
        next_token(s, p0) == Some((Ok::<SpecToken, TokenError>(SpecToken::Ident(w)), p + w.len())),
{
    let e = p + w.len();
    assert(s[p + 0] == w[0] as u8);
    lemma_skip_to(s, p0, p);
    assert forall|i: int| p + 1 <= i < e implies crate::token::in_class(ByteClass::IdentTail, #[trigger] s[i]) by {
        assert(s[p + (i - p)] == w[i - p] as u8);
    }
    lemma_run_to(s, p + 1, e, ByteClass::IdentTail);
    assert(ascii_text(s.subrange(p, e)) =~= w) by {
        assert forall|i: int| 0 <= i < w.len() implies #[trigger] ascii_text(s.subrange(p, e))[i] == w[i] by {
            assert(s[p + i] == w[i] as u8);
            assert(is_letter_char(w[i]) || is_digit_char(w[i]) || w[i] == '_');
        }
    }
}

/// The number `(negative, d)` spelled at `p` is read as one number token.
proof fn lemma_number_token(s: Seq<u8>, p0: int, p: int, negative: bool, d: Seq<char>)
    requires
        is_digits(d),
        0 <= p0 <= p,
        p == p0 || (p == p0 + 1 && s[p0] == 0x20),
        spells(s, p, if negative { seq!['-'] + d } else { d }),
        ends_token(s, p + (if negative { seq!['-'] + d } else { d }).len()),
    ensures
        next_token(s, p0) == Some((
            Ok::<SpecToken, TokenError>(SpecToken::Number((negative, d))),
            p + (if negative { seq!['-'] + d } else { d }).len(),
        )),
{
    let t = if negative { seq!['-'] + d } else { d };
    let start = if negative { p + 1 } else { p };
    let e = p + t.len();
    assert(forall|i: int| 0 <= i < d.len() ==> #[trigger] s[start + i] == d[i] as u8) by {
        assert forall|i: int| 0 <= i < d.len() implies #[trigger] s[start + i] == d[i] as u8 by {
            if negative {
                assert(t[i + 1] == d[i]);
                assert(s[p + (i + 1)] == t[i + 1] as u8);
            } else {
                assert(s[p + i] == t[i] as u8);
            }
        }
    }
    assert(s[p + 0] == t[0] as u8);
    assert(s[start + 0] == d[0] as u8);
    assert(is_digit_char(d[0]));
    lemma_skip_to(s, p0, p);
    assert forall|i: int| start <= i < e implies crate::token::in_class(ByteClass::Digit, #[trigger] s[i]) by {
        assert(s[start + (i - start)] == d[i - start] as u8);
        assert(is_digit_char(d[i - start]));
    }
    lemma_run_to(s, start, e, ByteClass::Digit);
    assert(ascii_text(s.subrange(start, e)) =~= d) by {
        assert forall|i: int| 0 <= i < d.len() implies #[trigger] ascii_text(s.subrange(start, e))[i] == d[i] by {
            assert(s[start + i] == d[i] as u8);
            assert(is_digit_char(d[i]));
        }
    }
}

/// One step of either parsing loop, when the token read is not `}`.
proof fn lemma_step(
    s: Seq<u8>,
    p0: int,
    t: Result<SpecToken, TokenError>,
    q: int,
    e: int,
    st: Seq<SpecAst>,
    st2: Seq<SpecAst>,
    start: int,
)
    requires
        0 <= p0 < q <= e <= s.len(),
        next_token(s, p0) == Some((t, q)),
        t != Ok::<SpecToken, TokenError>(SpecToken::CloseBrace),
        parse_token(s, t, q, st) == Ok::<(int, Seq<SpecAst>), SpecError>((e, st2)),
    ensures
        parse_from(s, p0, st) == parse_from(s, e, st2),
        block_rest(s, p0, start, st) == block_rest(s, e, start, st2),
{
}

/// Parsing the text of a bare tree, spelled at `p` after at most one space from
/// `p0`, pushes that tree.
proof fn lemma_form_parses(s: Seq<u8>, p0: int, p: int, a: SpecAst, st: Seq<SpecAst>, start: int)
    requires
        bare(a),
        0 <= p0 <= p,
        p == p0 || (p == p0 + 1 && s[p0] == 0x20),
        spells(s, p, render_spec(a)),
        ends_token(s, p + render_spec(a).len()),
    ensures
        parse_from(s, p0, st) == parse_from(s, p + render_spec(a).len(), st.push(a)),
        block_rest(s, p0, start, st) == block_rest(s, p + render_spec(a).len(), start, st.push(a)),
    decreases a, 2int,
{
    lemma_literal_texts();
    lemma_bare_text(a);
    let t = render_spec(a);
    let e = p + t.len();
    match a {
        SpecAst::Ident(w) => {
            lemma_word_token(s, p0, p, w);
            lemma_step(s, p0, Ok(SpecToken::Ident(w)), e, e, st, st.push(a), start);
        },
        SpecAst::Literal(SpecLiteral::Boolean(true)) => {
            lemma_word_token(s, p0, p, t);
            assert(keyword_of(t) == Some(Keyword::True));
            lemma_step(s, p0, Ok(SpecToken::Ident(t)), e, e, st, st.push(a), start);
        },
        SpecAst::Literal(SpecLiteral::Boolean(false)) => {
            lemma_word_token(s, p0, p, t);
            assert(keyword_of(t) == Some(Keyword::False));
            lemma_step(s, p0, Ok(SpecToken::Ident(t)), e, e, st, st.push(a), start);
        },
        SpecAst::Literal(SpecLiteral::Nil) => {
            lemma_word_token(s, p0, p, t);
            assert(keyword_of(t) == Some(Keyword::Nil));
            lemma_step(s, p0, Ok(SpecToken::Ident(t)), e, e, st, st.push(a), start);
        },
        SpecAst::Literal(SpecLiteral::Number((negative, d))) => {
            lemma_number_token(s, p0, p, negative, d);
            lemma_step(s, p0, Ok(SpecToken::Number((negative, d))), e, e, st, st.push(a), start);
        },
        SpecAst::Block(body) => {
            lemma_block_parses(s, p0, p, body, st, start);
        },
        _ => {},
    }
}

/// Parsing the text of a block of bare trees pushes that block.
proof fn lemma_block_parses(s: Seq<u8>, p0: int, p: int, body: Seq<SpecAst>, st: Seq<SpecAst>, start: int)
    requires
        bare_all(body),
        0 <= p0 <= p,
        p == p0 || (p == p0 + 1 && s[p0] == 0x20),
        spells(s, p, render_spec(SpecAst::Block(body))),
        ends_token(s, p + render_spec(SpecAst::Block(body)).len()),
    ensures
        parse_from(s, p0, st) == parse_from(
            s,
            p + render_spec(SpecAst::Block(body)).len(),
            st.push(SpecAst::Block(body)),
        ),
        block_rest(s, p0, start, st) == block_rest(
            s,
            p + render_spec(SpecAst::Block(body)).len(),
            start,
            st.push(SpecAst::Block(body)),
        ),
    decreases body, 1int,
{
    lemma_literal_texts();
    let a = SpecAst::Block(body);
    let t = render_spec(a);
    let e = p + t.len();
    let j = render_join(body);
    assert(t == seq!['{'] + j + seq!['}']);
    assert(s[p + 0] == t[0] as u8);
    lemma_skip_to(s, p0, p);
    assert(next_token(s, p0) == Some((Ok::<SpecToken, TokenError>(SpecToken::OpenBrace), p + 1)));
    assert forall|i: int| 0 <= i < j.len() implies #[trigger] s[(p + 1) + i] == j[i] as u8 by {
        assert(t[i + 1] == j[i]);
        assert(s[p + (i + 1)] == t[i + 1] as u8);
    }
    let q = p + 1 + j.len();
    assert(s[p + (1 + j.len())] == t[(1 + j.len()) as int] as u8);
    lemma_join_parses(s, p + 1, body, st, st.len() as int);
    lemma_skip_to(s, q, q);
    assert(next_token(s, q) == Some((Ok::<SpecToken, TokenError>(SpecToken::CloseBrace), q + 1)));
    let both = st + body;
    assert(both.subrange(0, st.len() as int) =~= st);
    assert(both.subrange(st.len() as int, both.len() as int) =~= body);
    assert(close_block(both, st.len() as int) =~= st.push(a));
    lemma_step(s, p0, Ok(SpecToken::OpenBrace), p + 1, e, st, st.push(a), start);
}

/// Parsing the text of a sequence of bare trees, spelled at `p`, pushes those
/// trees in order.
proof fn lemma_join_parses(s: Seq<u8>, p: int, c: Seq<SpecAst>, st: Seq<SpecAst>, start: int)
    requires
        bare_all(c),
        spells(s, p, render_join(c)),
        ends_token(s, p + render_join(c).len()),
    ensures
        parse_from(s, p, st) == parse_from(s, p + render_join(c).len(), st + c),
        block_rest(s, p, start, st) == block_rest(s, p + render_join(c).len(), start, st + c),
    decreases c, 0int,
{
    lemma_literal_texts();
    if c.len() == 0 {
        assert(st + c =~= st);
    } else if c.len() == 1 {
        assert(c[0] == c.last());
        lemma_form_parses(s, p, p, c[0], st, start);
        assert(st + c =~= st.push(c[0]));
    } else {
        let init = c.drop_last();
        let j = render_join(init);
        let r = render_spec(c.last());
        let t = render_join(c);
        assert(t == j + seq![' '] + r);
        assert forall|i: int| 0 <= i < j.len() implies #[trigger] s[p + i] == j[i] as u8 by {
            assert(t[i] == j[i]);
        }
        assert(s[p + j.len()] == t[j.len() as int] as u8);
        lemma_join_parses(s, p, init, st, start);
        assert forall|i: int| 0 <= i < r.len() implies #[trigger] s[(p + j.len() + 1) + i] == r[i] as u8 by {
            assert(t[j.len() + 1 + i] == r[i]);
            assert(s[p + (j.len() + 1 + i)] == t[j.len() + 1 + i] as u8);
        }
        lemma_form_parses(s, p + j.len(), p + j.len() + 1, c.last(), st + init, start);
        assert((st + init).push(c.last()) =~= st + c);
    }
}

/// Rendering is stable under re-parsing: the text of a forest of trees that need
/// no parentheses (literals, names, and blocks of them) parses back to that very
/// forest. Trees with operations, functions, calls or assignments render with
/// parentheses, which are no Frothy tokens, so their text does not parse.
pub proof fn lemma_render_reparses(forms: Seq<SpecAst>)
    requires
        bare_all(forms),
    ensures
        parse_program(vstd::utf8::encode_utf8(render_join(forms))) == Ok::<Seq<SpecAst>, SpecError>(forms),
{
    let t = render_join(forms);
    lemma_bare_join_text(forms);
    assert(vstd::utf8::is_ascii_chars(t));
    vstd::utf8::is_ascii_chars_encode_utf8(t);
    let s = vstd::utf8::encode_utf8(t);
    assert(spells(s, 0, t));
    lemma_join_parses(s, 0, forms, Seq::empty(), 0);
    assert(Seq::<SpecAst>::empty() + forms =~= forms);
    lemma_run_to(s, s.len() as int, s.len() as int, ByteClass::Whitespace);
}

} // verus!
