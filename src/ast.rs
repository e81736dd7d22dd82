//! Frothy syntax trees, and the parser that builds them from tokens.

use vstd::prelude::*;
use vstd::string::*;

use crate::error::{Error, SpecError};
use crate::eval::BinOp;
use crate::token::{next_token, token_result_view, Numeral, SpecToken, Token, TokenError, Tokens};
use crate::util::pop_n;

verus! {

/// Errors in building the syntax tree.
#[derive(Clone, Debug)]
pub enum AstError {
    /// A token that cannot stand where it was met.
    Unexpected(Token),
    /// The input ended inside a block.
    ExpectedCloseBrace,
    /// `fn` did not follow a block.
    ExpectedBlock,
    /// `=` did not follow an identifier and a value.
    ExpectedIdentAndValue,
}

/// The text of a parse error.
pub open spec fn ast_error_text(e: SpecError) -> Seq<char> {
    match e {
        SpecError::Unexpected(t) => "unexpected token '"@ + crate::token::token_text(t) + "'"@,
        SpecError::ExpectedCloseBrace => "expected }"@,
        SpecError::ExpectedBlock => "expected block"@,
        _ => "expected ident + ast"@,
    }
}

impl AstError {
    /// A description of this error.
    pub fn message(&self) -> (r: String)
        ensures
            r@ == ast_error_text(Error::Ast(*self)@),
    {
        match self {
            AstError::Unexpected(t) => {
                let mut r = String::from_str("unexpected token '");
                let text = t.text();
                r.append(text.as_str());
                r.append("'");
                r
            },
            AstError::ExpectedCloseBrace => String::from_str("expected }"),
            AstError::ExpectedBlock => String::from_str("expected block"),
            AstError::ExpectedIdentAndValue => String::from_str("expected ident + ast"),
        }
    }
}

/// A Frothy literal.
#[derive(Clone, Debug, PartialEq)]
pub enum Literal {
    Boolean(bool),
    Number(Numeral),
    Nil,
}

/// A Frothy syntax tree node.
#[derive(Debug)]
pub enum Ast {
    Literal(Literal),
    Add(Box<Ast>, Box<Ast>),
    Subtract(Box<Ast>, Box<Ast>),
    Multiply(Box<Ast>, Box<Ast>),
    Divide(Box<Ast>, Box<Ast>),
    /// A function: the body of the block it was made from.
    Func(Vec<Ast>),
    Call(Box<Ast>),
    Ident(String),
    Assign(String, Box<Ast>),
    Block(Vec<Ast>),
}

/// What a [`Literal`] stands for.
pub enum SpecLiteral {
    Boolean(bool),
    Number((bool, Seq<char>)),
    Nil,
}

/// What an [`Ast`] stands for, with names as characters and children as sequences.
pub enum SpecAst {
    Literal(SpecLiteral),
    Add(Box<SpecAst>, Box<SpecAst>),
    Subtract(Box<SpecAst>, Box<SpecAst>),
    Multiply(Box<SpecAst>, Box<SpecAst>),
    Divide(Box<SpecAst>, Box<SpecAst>),
    Func(Seq<SpecAst>),
    Call(Box<SpecAst>),
    Ident(Seq<char>),
    Assign(Seq<char>, Box<SpecAst>),
    Block(Seq<SpecAst>),
}

impl View for Literal {
    type V = SpecLiteral;

    open spec fn view(&self) -> SpecLiteral {
        match self {
            Literal::Boolean(b) => SpecLiteral::Boolean(*b),
            Literal::Number(n) => SpecLiteral::Number(n@),
            Literal::Nil => SpecLiteral::Nil,
        }
    }
}

pub open spec fn ast_view(a: Ast) -> SpecAst
    decreases a,
{
    match a {
        Ast::Literal(l) => SpecAst::Literal(l@),
        Ast::Add(x, y) => SpecAst::Add(Box::new(ast_view(*x)), Box::new(ast_view(*y))),
        Ast::Subtract(x, y) => SpecAst::Subtract(Box::new(ast_view(*x)), Box::new(ast_view(*y))),
        Ast::Multiply(x, y) => SpecAst::Multiply(Box::new(ast_view(*x)), Box::new(ast_view(*y))),
        Ast::Divide(x, y) => SpecAst::Divide(Box::new(ast_view(*x)), Box::new(ast_view(*y))),
        Ast::Func(v) => SpecAst::Func(asts_view(v@)),
        Ast::Call(x) => SpecAst::Call(Box::new(ast_view(*x))),
        Ast::Ident(s) => SpecAst::Ident(s@),
        Ast::Assign(s, x) => SpecAst::Assign(s@, Box::new(ast_view(*x))),
        Ast::Block(v) => SpecAst::Block(asts_view(v@)),
    }
}

pub open spec fn asts_view(s: Seq<Ast>) -> Seq<SpecAst>
    decreases s,
{
    if s.len() == 0 {
        Seq::empty()
    } else {
        asts_view(s.drop_last()).push(ast_view(s.last()))
    }
}

impl View for Ast {
    type V = SpecAst;

    open spec fn view(&self) -> SpecAst {
        ast_view(*self)
    }
}

pub proof fn lemma_asts_view(s: Seq<Ast>)
    ensures
        asts_view(s).len() == s.len(),
        forall|i: int| 0 <= i < s.len() ==> #[trigger] asts_view(s)[i] == ast_view(s[i]),
    decreases s.len(),
{
    if s.len() > 0 {
        lemma_asts_view(s.drop_last());
    }
}

pub proof fn lemma_asts_view_subrange(s: Seq<Ast>, i: int, j: int)
    requires
        0 <= i <= j <= s.len(),
    ensures
        asts_view(s.subrange(i, j)) == asts_view(s).subrange(i, j),
{
    lemma_asts_view(s);
    lemma_asts_view(s.subrange(i, j));
    assert(asts_view(s.subrange(i, j)) =~= asts_view(s).subrange(i, j));
}

pub proof fn lemma_asts_view_push(s: Seq<Ast>, a: Ast)
    ensures
        asts_view(s.push(a)) == asts_view(s).push(ast_view(a)),
{
    assert(s.push(a).drop_last() =~= s);
}

impl Numeral {
    /// A copy of this numeral.
    pub fn copy(&self) -> (r: Numeral)
        ensures
            r@ == self@,
    {
        Numeral { negative: self.negative, digits: self.digits.clone() }
    }
}

impl Literal {
    /// A copy of this literal.
    pub fn copy(&self) -> (r: Literal)
        ensures
            r@ == self@,
    {
        match self {
            Literal::Boolean(b) => Literal::Boolean(*b),
            Literal::Number(n) => Literal::Number(n.copy()),
            Literal::Nil => Literal::Nil,
        }
    }
}

impl Ast {
    /// A copy of this tree.
    pub fn copy(&self) -> (r: Ast)
        ensures
            r@ == self@,
        decreases self,
    {
        match self {
            Ast::Literal(l) => Ast::Literal(l.copy()),
            Ast::Add(x, y) => Ast::Add(Box::new((**x).copy()), Box::new((**y).copy())),
            Ast::Subtract(x, y) => Ast::Subtract(Box::new((**x).copy()), Box::new((**y).copy())),
            Ast::Multiply(x, y) => Ast::Multiply(Box::new((**x).copy()), Box::new((**y).copy())),
            Ast::Divide(x, y) => Ast::Divide(Box::new((**x).copy()), Box::new((**y).copy())),
            Ast::Func(v) => Ast::Func(copy_asts(v)),
            Ast::Call(x) => Ast::Call(Box::new((**x).copy())),
            Ast::Ident(s) => Ast::Ident(s.clone()),
            Ast::Assign(s, x) => Ast::Assign(s.clone(), Box::new((**x).copy())),
            Ast::Block(v) => Ast::Block(copy_asts(v)),
        }
    }
}

impl Ast {
    /// The canonical text of this tree (see [`render_spec`]).
    pub fn render(&self) -> (r: String)
        ensures
            r@ == render_spec(self@),
        decreases self,
    {
        match self {
            Ast::Literal(l) => render_lit(l),
            Ast::Add(x, y) => render_op((**x).render(), (**y).render(), " +)"),
            Ast::Subtract(x, y) => render_op((**x).render(), (**y).render(), " -)"),
            Ast::Multiply(x, y) => render_op((**x).render(), (**y).render(), " *)"),
            Ast::Divide(x, y) => render_op((**x).render(), (**y).render(), " /)"),
            Ast::Block(body) => {
                let mut r = String::from_str("{");
                let inner = render_all(body);
                r.append(inner.as_str());
                r.append("}");
                r
            },
            Ast::Func(body) => {
                let mut r = String::from_str("({");
                let inner = render_all(body);
                r.append(inner.as_str());
                r.append("} fn)");
                r
            },
            Ast::Call(x) => {
                let mut r = String::from_str("(");
                let inner = (**x).render();
                r.append(inner.as_str());
                r.append(" call)");
                r
            },
            Ast::Ident(name) => name.clone(),
            Ast::Assign(name, x) => {
                let mut r = String::from_str("(");
                r.append(name.as_str());
                r.append(" ");
                let inner = (**x).render();
                r.append(inner.as_str());
                r.append(" =)");
                r
            },
        }
    }
}

/// The text of a literal.
fn render_lit(l: &Literal) -> (r: String)
    ensures
        r@ == render_literal(l@),
{
    match l {
        Literal::Boolean(true) => String::from_str("true"),
        Literal::Boolean(false) => String::from_str("false"),
        Literal::Number(n) => {
            if n.negative {
                let mut r = String::from_str("-");
                r.append(n.digits.as_str());
                r
            } else {
                n.digits.clone()
            }
        },
        Literal::Nil => String::from_str("Nil"),
    }
}

/// `(a b` and then `tail`: the text of an operation whose operands read `a` and `b`.
fn render_op(a: String, b: String, tail: &str) -> (r: String)
    ensures
        r@ == "("@ + a@ + " "@ + b@ + tail@,
{
    let mut r = String::from_str("(");
    r.append(a.as_str());
    r.append(" ");
    r.append(b.as_str());
    r.append(tail);
    r
}

/// The texts of the trees of `v`, in order, separated by single spaces.
pub fn render_all(v: &Vec<Ast>) -> (r: String)
    ensures
        r@ == render_join(asts_view(v@)),
    decreases v,
{
    let ghost s = asts_view(v@);
    proof {
        lemma_asts_view(v@);
    }
    let mut r = String::new();
    let mut i: usize = 0;
    while i < v.len()
        invariant
            i <= v@.len(),
            s == asts_view(v@),
            s.len() == v@.len(),
            forall|j: int| 0 <= j < v@.len() ==> #[trigger] s[j] == v@[j]@,
            r@ == render_join(s.subrange(0, i as int)),
        decreases v@.len() - i,
    {
        proof {
            assert(decreases_to!(v => v@[i as int]));
            let t = s.subrange(0, i + 1);
            assert(t.drop_last() =~= s.subrange(0, i as int));
            assert(t.last() == s[i as int]);
        }
        if i > 0 {
            r.append(" ");
        }
        let a = v[i].render();
        r.append(a.as_str());
        i = i + 1;
    }
    proof {
        assert(s.subrange(0, i as int) =~= s);
    }
    r
}

/// A copy of each tree of `v`, in order.
pub fn copy_asts(v: &Vec<Ast>) -> (r: Vec<Ast>)
    ensures
        asts_view(r@) == asts_view(v@),
    decreases v,
{
    let mut r: Vec<Ast> = Vec::new();
    let mut i: usize = 0;
    while i < v.len()
        invariant
            i <= v@.len(),
            asts_view(r@) == asts_view(v@.subrange(0, i as int)),
        decreases v@.len() - i,
    {
        proof {
            assert(decreases_to!(v => v@[i as int]));
        }
        let a = v[i].copy();
        proof {
            lemma_asts_view_push(r@, a);
            lemma_asts_view_push(v@.subrange(0, i as int), v@[i as int]);
            assert(v@.subrange(0, i as int).push(v@[i as int]) =~= v@.subrange(0, i + 1));
        }
        r.push(a);
        i = i + 1;
    }
    assert(v@.subrange(0, i as int) =~= v@);
    r
}


/// The text of a literal.
pub open spec fn render_literal(l: SpecLiteral) -> Seq<char> {
    match l {
        SpecLiteral::Boolean(true) => "true"@,
        SpecLiteral::Boolean(false) => "false"@,
        SpecLiteral::Number((negative, digits)) => if negative {
            "-"@ + digits
        } else {
            digits
        },
        SpecLiteral::Nil => "Nil"@,
    }
}

/// The canonical text of a tree: fully parenthesised postfix, `Add(a, b)` as
/// `(a b +)`, a block as `{a b}`, a function as `({a b} fn)`, a call as
/// `(a call)`, an assignment as `(x a =)`.
pub open spec fn render_spec(a: SpecAst) -> Seq<char>
    decreases a,
{
    match a {
        SpecAst::Literal(l) => render_literal(l),
        SpecAst::Add(x, y) => "("@ + render_spec(*x) + " "@ + render_spec(*y) + " +)"@,
        SpecAst::Subtract(x, y) => "("@ + render_spec(*x) + " "@ + render_spec(*y) + " -)"@,
        SpecAst::Multiply(x, y) => "("@ + render_spec(*x) + " "@ + render_spec(*y) + " *)"@,
        SpecAst::Divide(x, y) => "("@ + render_spec(*x) + " "@ + render_spec(*y) + " /)"@,
        SpecAst::Block(body) => "{"@ + render_join(body) + "}"@,
        SpecAst::Func(body) => "({"@ + render_join(body) + "} fn)"@,
        SpecAst::Call(x) => "("@ + render_spec(*x) + " call)"@,
        SpecAst::Ident(name) => name,
        SpecAst::Assign(name, x) => "("@ + name + " "@ + render_spec(*x) + " =)"@,
    }
}

/// The texts of the trees of `s`, in order, separated by single spaces.
pub open spec fn render_join(s: Seq<SpecAst>) -> Seq<char>
    decreases s,
{
    if s.len() == 0 {
        Seq::empty()
    } else if s.len() == 1 {
        render_spec(s[0])
    } else {
        render_join(s.drop_last()) + " "@ + render_spec(s.last())
    }
}

/// The reserved words.
#[derive(Clone, Copy, Debug, PartialEq, Eq, Structural)]
pub enum Keyword {
    Fn,
    Call,
    Nil,
    True,
    False,
}

/// The reserved word that `w` spells, if any.
pub open spec fn keyword_of(w: Seq<char>) -> Option<Keyword> {
    if w == seq!['f', 'n'] {
        Some(Keyword::Fn)
    } else if w == seq!['c', 'a', 'l', 'l'] {
        Some(Keyword::Call)
    } else if w == seq!['N', 'i', 'l'] {
        Some(Keyword::Nil)
    } else if w == seq!['t', 'r', 'u', 'e'] {
        Some(Keyword::True)
    } else if w == seq!['f', 'a', 'l', 's', 'e'] {
        Some(Keyword::False)
    } else {
        None
    }
}

/// Decides which reserved word, if any, `w` spells.
pub fn keyword(w: &String) -> (r: Option<Keyword>)
    ensures
        r == keyword_of(w@),
{
    let s = w.as_str();
    let n = s.unicode_len();
    if n == 2 && s.get_char(0) == 'f' && s.get_char(1) == 'n' {
        assert(w@ =~= seq!['f', 'n']);
        Some(Keyword::Fn)
    } else if n == 4 && s.get_char(0) == 'c' && s.get_char(1) == 'a' && s.get_char(2) == 'l'
        && s.get_char(3) == 'l' {
        assert(w@ =~= seq!['c', 'a', 'l', 'l']);
        Some(Keyword::Call)
    } else if n == 3 && s.get_char(0) == 'N' && s.get_char(1) == 'i' && s.get_char(2) == 'l' {
        assert(w@ =~= seq!['N', 'i', 'l']);
        Some(Keyword::Nil)
    } else if n == 4 && s.get_char(0) == 't' && s.get_char(1) == 'r' && s.get_char(2) == 'u'
        && s.get_char(3) == 'e' {
        assert(w@ =~= seq!['t', 'r', 'u', 'e']);
        Some(Keyword::True)
    } else if n == 5 && s.get_char(0) == 'f' && s.get_char(1) == 'a' && s.get_char(2) == 'l'
        && s.get_char(3) == 's' && s.get_char(4) == 'e' {
        assert(w@ =~= seq!['f', 'a', 'l', 's', 'e']);
        Some(Keyword::False)
    } else {
        proof {
            if w@ == seq!['f', 'n'] || w@ == seq!['c', 'a', 'l', 'l'] || w@ == seq!['N', 'i', 'l']
                || w@ == seq!['t', 'r', 'u', 'e'] || w@ == seq!['f', 'a', 'l', 's', 'e'] {
                assert(w@.len() == n);
            }
        }
        None
    }
}

/// The node that applies `op` to `a` and `b`.
pub open spec fn spec_binary(op: BinOp, a: SpecAst, b: SpecAst) -> SpecAst {
    match op {
        BinOp::Add => SpecAst::Add(Box::new(a), Box::new(b)),
        BinOp::Subtract => SpecAst::Subtract(Box::new(a), Box::new(b)),
        BinOp::Multiply => SpecAst::Multiply(Box::new(a), Box::new(b)),
        BinOp::Divide => SpecAst::Divide(Box::new(a), Box::new(b)),
    }
}

/// An arithmetic operator on the stack `st`: the two top nodes, the deeper one on
/// the left, become one node.
pub open spec fn reduce_binary(op: BinOp, st: Seq<SpecAst>) -> Result<Seq<SpecAst>, SpecError> {
    let n = st.len();
    if n < 2 {
        Err(SpecError::NotEnoughArguments(2, n as usize))
    } else {
        Ok(st.subrange(0, n - 2).push(spec_binary(op, st[n - 2], st[n - 1])))
    }
}

/// `fn` on the stack `st`: the block on top becomes a function with its children.
pub open spec fn reduce_fn(st: Seq<SpecAst>) -> Result<Seq<SpecAst>, SpecError> {
    if st.len() > 0 {
        match st.last() {
            SpecAst::Block(body) => Ok(st.drop_last().push(SpecAst::Func(body))),
            _ => Err(SpecError::ExpectedBlock),
        }
    } else {
        Err(SpecError::ExpectedBlock)
    }
}

/// `call` on the stack `st`: the node on top becomes a call of it.
pub open spec fn reduce_call(st: Seq<SpecAst>) -> Result<Seq<SpecAst>, SpecError> {
    if st.len() > 0 {
        Ok(st.drop_last().push(SpecAst::Call(Box::new(st.last()))))
    } else {
        Err(SpecError::NotEnoughArguments(1, 0))
    }
}

/// `=` on the stack `st`: the value on top and the identifier under it become an
/// assignment.
pub open spec fn reduce_assign(st: Seq<SpecAst>) -> Result<Seq<SpecAst>, SpecError> {
    let n = st.len();
    if n >= 2 {
        match st[n - 2] {
            SpecAst::Ident(name) => Ok(
                st.subrange(0, n - 2).push(SpecAst::Assign(name, Box::new(st[n - 1]))),
            ),
            _ => Err(SpecError::ExpectedIdentAndValue),
        }
    } else {
        Err(SpecError::ExpectedIdentAndValue)
    }
}

/// What one token other than `{` does to the parser's stack `st`.
pub open spec fn reduce(t: SpecToken, st: Seq<SpecAst>) -> Result<Seq<SpecAst>, SpecError> {
    let n = st.len();
    match t {
        SpecToken::Number(x) => Ok(st.push(SpecAst::Literal(SpecLiteral::Number(x)))),
        SpecToken::Ident(w) => match keyword_of(w) {
            Some(Keyword::Fn) => reduce_fn(st),
            Some(Keyword::Call) => reduce_call(st),
            Some(Keyword::Nil) => Ok(st.push(SpecAst::Literal(SpecLiteral::Nil))),
            Some(Keyword::True) => Ok(st.push(SpecAst::Literal(SpecLiteral::Boolean(true)))),
            Some(Keyword::False) => Ok(st.push(SpecAst::Literal(SpecLiteral::Boolean(false)))),
            None => Ok(st.push(SpecAst::Ident(w))),
        },
        SpecToken::Plus => reduce_binary(BinOp::Add, st),
        SpecToken::Minus => reduce_binary(BinOp::Subtract, st),
        SpecToken::Multiply => reduce_binary(BinOp::Multiply, st),
        SpecToken::Divide => reduce_binary(BinOp::Divide, st),
        SpecToken::Assign => reduce_assign(st),
        SpecToken::OpenBrace => Err(SpecError::Unexpected(SpecToken::OpenBrace)),
        SpecToken::CloseBrace => Err(SpecError::Unexpected(SpecToken::CloseBrace)),
    }
}

/// The stack once the block opened when it was `start` long closes: the nodes
/// above the mark become one block node. Where operators inside the block took
/// nodes from below the mark, the stack is shorter than the mark, and the block is
/// empty.
pub open spec fn close_block(st: Seq<SpecAst>, start: int) -> Seq<SpecAst> {
    let from = if start <= st.len() {
        start
    } else {
        st.len() as int
    };
    st.subrange(0, from).push(SpecAst::Block(st.subrange(from, st.len() as int)))
}

/// Parsing the token `t`, read from `s` up to position `q`, on the stack `st`:
/// the position reached and the new stack.
pub open spec fn parse_token(s: Seq<u8>, t: Result<SpecToken, TokenError>, q: int, st: Seq<SpecAst>) -> Result<(int, Seq<SpecAst>), SpecError>
    decreases s.len() - q, 1int,
{
    match t {
        Err(e) => Err(SpecError::Token(e)),
        Ok(SpecToken::OpenBrace) => block_rest(s, q, st.len() as int, st),
        Ok(t) => match reduce(t, st) {
            Ok(st2) => Ok((q, st2)),
            Err(e) => Err(e),
        },
    }
}

/// Parsing the rest of a block from position `pos`, the block having been opened
/// when the stack was `start` long.
pub open spec fn block_rest(s: Seq<u8>, pos: int, start: int, st: Seq<SpecAst>) -> Result<(int, Seq<SpecAst>), SpecError>
    decreases s.len() - pos, 0int,
{
    match next_token(s, pos) {
        None => Err(SpecError::ExpectedCloseBrace),
        Some((Ok(SpecToken::CloseBrace), q)) => Ok((q, close_block(st, start))),
        Some((t, q)) => if pos < q <= s.len() {
            match parse_token(s, t, q, st) {
                Err(e) => Err(e),
                Ok((p, st2)) => if pos < p <= s.len() {
                    block_rest(s, p, start, st2)
                } else {
                    Err(SpecError::ExpectedCloseBrace)
                },
            }
        } else {
            Err(SpecError::ExpectedCloseBrace)
        },
    }
}

/// Parsing the rest of a program from position `pos` with the stack `st`: the
/// top-level forms, in order.
pub open spec fn parse_from(s: Seq<u8>, pos: int, st: Seq<SpecAst>) -> Result<Seq<SpecAst>, SpecError>
    decreases s.len() - pos,
{
    match next_token(s, pos) {
        None => Ok(st),
        Some((t, q)) => if pos < q <= s.len() {
            match parse_token(s, t, q, st) {
                Err(e) => Err(e),
                Ok((p, st2)) => if pos < p <= s.len() {
                    parse_from(s, p, st2)
                } else {
                    Ok(st2)
                },
            }
        } else {
            Ok(st)
        },
    }
}

/// The top-level forms of the program whose UTF-8 bytes are `s`.
pub open spec fn parse_program(s: Seq<u8>) -> Result<Seq<SpecAst>, SpecError> {
    parse_from(s, 0, Seq::empty())
}

/// Builds the node that applies `op` to `a` and `b`.
fn binary_node(op: BinOp, a: Ast, b: Ast) -> (r: Ast)
    ensures
        r@ == spec_binary(op, a@, b@),
{
    match op {
        BinOp::Add => Ast::Add(Box::new(a), Box::new(b)),
        BinOp::Subtract => Ast::Subtract(Box::new(a), Box::new(b)),
        BinOp::Multiply => Ast::Multiply(Box::new(a), Box::new(b)),
        BinOp::Divide => Ast::Divide(Box::new(a), Box::new(b)),
    }
}

/// Reduces a Frothy program to its top-level syntax trees.
pub struct Parser<'a> {
    tokens: Tokens<'a>,
    stack: Vec<Ast>,
}

impl<'a> Parser<'a> {
    /// The program's bytes.
    pub closed spec fn source(&self) -> Seq<u8> {
        self.tokens.bytes()
    }

    /// How many bytes have been read.
    pub closed spec fn position(&self) -> int {
        self.tokens.position()
    }

    /// The operand stack, bottom first.
    pub closed spec fn stack(&self) -> Seq<SpecAst> {
        asts_view(self.stack@)
    }

    pub closed spec fn wf(&self) -> bool {
        self.tokens.wf()
    }

    /// A parser at the start of `program`, with an empty stack.
    pub fn new(program: &'a str) -> (r: Parser<'a>)
        ensures
            r.wf(),
            r.source() == vstd::utf8::encode_utf8(program@),
            r.position() == 0,
            r.stack() == Seq::<SpecAst>::empty(),
    {
        Parser { tokens: Tokens::new(program), stack: Vec::new() }
    }

    /// Parses until the input ends or an error, and returns the stack: the
    /// program's top-level forms in order.
    pub fn parse(self) -> (r: Result<Vec<Ast>, Error>)
        requires
            self.wf(),
        ensures
            match parse_from(self.source(), self.position(), self.stack()) {
                Ok(forms) => r matches Ok(v) && asts_view(v@) == forms,
                Err(e) => r matches Err(x) && x@ == e,
            },
    {
        let mut me = self;
        let ghost s = me.source();
        let ghost target = parse_from(s, me.position(), me.stack());
        loop
            invariant
                me.wf(),
                me.source() == s,
                target == parse_from(self.source(), self.position(), self.stack()),
                parse_from(s, me.position(), me.stack()) == target,
            decreases s.len() - me.position(),
        {
            let ghost pos = me.position();
            let ghost st = me.stack();
            proof {
                crate::token::lemma_next_token_advances(s, pos);
            }
            match me.tokens.next() {
                None => {
                    return Ok(me.stack);
                },
                Some(t) => {
                    match me.parse_token(t) {
                        Ok(()) => {},
                        Err(e) => {
                            return Err(e);
                        },
                    }
                },
            }
        }
    }

    /// Parses the token `t`, which has just been read.
    fn parse_token(&mut self, t: Result<Token, TokenError>) -> (r: Result<(), Error>)
        requires
            old(self).wf(),
        ensures
            final(self).wf(),
            final(self).source() == old(self).source(),
            old(self).position() <= final(self).position(),
            match parse_token(old(self).source(), token_result_view(t), old(self).position(), old(self).stack()) {
                Ok((p, st)) => r is Ok && final(self).position() == p && final(self).stack() == st,
                Err(e) => r matches Err(x) && x@ == e,
            },
        decreases old(self).source().len() - old(self).position(), 1int,
    {
        let tok = match t {
            Ok(tok) => tok,
            Err(e) => {
                return Err(Error::Token(e));
            },
        };
        match tok {
            Token::OpenBrace => self.parse_block(),
            Token::Number(x) => {
                proof {
                    lemma_asts_view_push(self.stack@, Ast::Literal(Literal::Number(x)));
                }
                self.stack.push(Ast::Literal(Literal::Number(x)));
                Ok(())
            },
            Token::Ident(w) => self.parse_word(w),
            Token::Plus => self.parse_binary(BinOp::Add),
            Token::Minus => self.parse_binary(BinOp::Subtract),
            Token::Multiply => self.parse_binary(BinOp::Multiply),
            Token::Divide => self.parse_binary(BinOp::Divide),
            Token::Assign => self.parse_assign(),
            Token::CloseBrace => Err(Error::Ast(AstError::Unexpected(Token::CloseBrace))),
        }
    }

    /// An arithmetic operator.
    fn parse_binary(&mut self, op: BinOp) -> (r: Result<(), Error>)
        requires
            old(self).wf(),
        ensures
            final(self).wf(),
            final(self).source() == old(self).source(),
            final(self).position() == old(self).position(),
            match reduce_binary(op, old(self).stack()) {
                Ok(st) => r is Ok && final(self).stack() == st,
                Err(e) => r matches Err(x) && x@ == e,
            },
    {
        let ghost old_stack = self.stack@;
        proof {
            lemma_asts_view(old_stack);
        }
        let f = |args: Vec<Ast>| -> (node: Ast)
            requires
                args.len() == 2,
            ensures
                node@ == spec_binary(op, args[0]@, args[1]@),
            {
                let mut args = args;
                let b = args.pop().unwrap();
                let a = args.pop().unwrap();
                binary_node(op, a, b)
            };
        let r = pop_n(&mut self.stack, 2, f);
        proof {
            let n = old_stack.len();
            if n >= 2 {
                let (args, out) = choose|args: Vec<Ast>, out: Ast|
                    args@ == old_stack.subrange(n - 2, n as int) && #[trigger] f.ensures((args,), out)
                        && self.stack@ == old_stack.subrange(0, n - 2).push(out);
                assert(args[0] == old_stack[n - 2]);
                assert(args[1] == old_stack[n - 1]);
                lemma_asts_view_push(old_stack.subrange(0, n - 2), out);
                lemma_asts_view_subrange(old_stack, 0, n - 2);
            }
        }
        r
    }

    /// An identifier: a reserved word, or a variable's name.
    fn parse_word(&mut self, w: String) -> (r: Result<(), Error>)
        requires
            old(self).wf(),
        ensures
            final(self).wf(),
            final(self).source() == old(self).source(),
            final(self).position() == old(self).position(),
            match reduce(SpecToken::Ident(w@), old(self).stack()) {
                Ok(st) => r is Ok && final(self).stack() == st,
                Err(e) => r matches Err(x) && x@ == e,
            },
    {
        let lit = match keyword(&w) {
            Some(Keyword::Fn) => {
                return self.parse_fn();
            },
            Some(Keyword::Call) => {
                return self.parse_call();
            },
            Some(Keyword::Nil) => Ast::Literal(Literal::Nil),
            Some(Keyword::True) => Ast::Literal(Literal::Boolean(true)),
            Some(Keyword::False) => Ast::Literal(Literal::Boolean(false)),
            None => Ast::Ident(w),
        };
        proof {
            lemma_asts_view_push(self.stack@, lit);
        }
        self.stack.push(lit);
        Ok(())
    }

    /// `fn`: the block on top of the stack becomes a function.
    fn parse_fn(&mut self) -> (r: Result<(), Error>)
        requires
            old(self).wf(),
        ensures
            final(self).wf(),
            final(self).source() == old(self).source(),
            final(self).position() == old(self).position(),
            match reduce_fn(old(self).stack()) {
                Ok(st) => r is Ok && final(self).stack() == st,
                Err(e) => r matches Err(x) && x@ == e,
            },
    {
        let ghost old_stack = self.stack@;
        proof {
            lemma_asts_view(old_stack);
        }
        match self.stack.pop() {
            Some(Ast::Block(body)) => {
                proof {
                    lemma_asts_view_subrange(old_stack, 0, old_stack.len() - 1);
                    lemma_asts_view_push(self.stack@, Ast::Func(body));
                    assert(old_stack.drop_last() == old_stack.subrange(0, old_stack.len() - 1));
                }
                self.stack.push(Ast::Func(body));
                Ok(())
            },
            _ => Err(Error::Ast(AstError::ExpectedBlock)),
        }
    }

    /// `call`: the node on top of the stack becomes a call of it.
    fn parse_call(&mut self) -> (r: Result<(), Error>)
        requires
            old(self).wf(),
        ensures
            final(self).wf(),
            final(self).source() == old(self).source(),
            final(self).position() == old(self).position(),
            match reduce_call(old(self).stack()) {
                Ok(st) => r is Ok && final(self).stack() == st,
                Err(e) => r matches Err(x) && x@ == e,
            },
    {
        let ghost old_stack = self.stack@;
        proof {
            lemma_asts_view(old_stack);
        }
        match self.stack.pop() {
            Some(target) => {
                proof {
                    lemma_asts_view_subrange(old_stack, 0, old_stack.len() - 1);
                    lemma_asts_view_push(self.stack@, Ast::Call(Box::new(target)));
                    assert(old_stack.drop_last() == old_stack.subrange(0, old_stack.len() - 1));
                }
                self.stack.push(Ast::Call(Box::new(target)));
                Ok(())
            },
            None => Err(Error::NotEnoughArguments(1, 0)),
        }
    }

    /// `=`: a name and a value become an assignment.
    fn parse_assign(&mut self) -> (r: Result<(), Error>)
        requires
            old(self).wf(),
        ensures
            final(self).wf(),
            final(self).source() == old(self).source(),
            final(self).position() == old(self).position(),
            match reduce_assign(old(self).stack()) {
                Ok(st) => r is Ok && final(self).stack() == st,
                Err(e) => r matches Err(x) && x@ == e,
            },
    {
        let ghost old_stack = self.stack@;
        proof {
            lemma_asts_view(old_stack);
        }
        let value = self.stack.pop();
        let target = self.stack.pop();
        match value {
            Some(v) => match target {
                Some(Ast::Ident(name)) => {
                    proof {
                        let n = old_stack.len();
                        lemma_asts_view_subrange(old_stack, 0, n - 2);
                        assert(self.stack@ == old_stack.subrange(0, n - 2));
                        lemma_asts_view_push(self.stack@, Ast::Assign(name, Box::new(v)));
                    }
                    self.stack.push(Ast::Assign(name, Box::new(v)));
                    Ok(())
                },
                _ => Err(Error::Ast(AstError::ExpectedIdentAndValue)),
            },
            None => Err(Error::Ast(AstError::ExpectedIdentAndValue)),
        }
    }

    /// The rest of a block, whose `{` has just been read.
    fn parse_block(&mut self) -> (r: Result<(), Error>)
        requires
            old(self).wf(),
        ensures
            final(self).wf(),
            final(self).source() == old(self).source(),
            old(self).position() <= final(self).position(),
            match block_rest(old(self).source(), old(self).position(), old(self).stack().len() as int, old(self).stack()) {
                Ok((p, st)) => r is Ok && final(self).position() == p && final(self).stack() == st,
                Err(e) => r matches Err(x) && x@ == e,
            },
        decreases old(self).source().len() - old(self).position(), 0int,
    {
        proof {
            lemma_asts_view(self.stack@);
        }
        let start = self.stack.len();
        let ghost s = self.source();
        let ghost pos0 = self.position();
        let ghost target = block_rest(s, pos0, start as int, self.stack());
        loop
            invariant
                self.wf(),
                self.source() == s,
                s == old(self).source(),
                pos0 == old(self).position(),
                pos0 <= self.position(),
                start == old(self).stack().len(),
                target == block_rest(old(self).source(), old(self).position(), old(self).stack().len() as int, old(self).stack()),
                block_rest(s, self.position(), start as int, self.stack()) == target,
            decreases s.len() - self.position(),
        {
            let ghost pos = self.position();
            proof {
                crate::token::lemma_next_token_advances(s, pos);
            }
            match self.tokens.next() {
                None => {
                    return Err(Error::Ast(AstError::ExpectedCloseBrace));
                },
                Some(Ok(Token::CloseBrace)) => {
                    let ghost old_stack = self.stack@;
                    proof {
                        lemma_asts_view(old_stack);
                    }
                    let len = self.stack.len();
                    let from = if start <= len {
                        start
                    } else {
                        len
                    };
                    let children = self.stack.split_off(from);
                    proof {
                        lemma_asts_view_subrange(old_stack, 0, from as int);
                        lemma_asts_view_subrange(old_stack, from as int, len as int);
                        lemma_asts_view_push(self.stack@, Ast::Block(children));
                    }
                    self.stack.push(Ast::Block(children));
                    return Ok(());
                },
                Some(t) => {
                    match self.parse_token(t) {
                        Ok(()) => {},
                        Err(e) => {
                            return Err(e);
                        },
                    }
                },
            }
        }
    }
}

} // verus!
