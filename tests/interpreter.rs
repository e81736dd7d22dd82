use frothy::ast::{render_all, Ast, AstError, Literal, Parser};
use frothy::error::Error;
use frothy::eval::{BinOp, Context, Interpreter, InterpreterError, Native, Num, Value};
use frothy::evaluate;
use frothy::token::{Numeral, Token, TokenError, Tokens};
use frothy::util::{pop_n, Cursor};

fn numeral(negative: bool, digits: &str) -> Numeral {
    Numeral { negative, digits: digits.to_string() }
}

fn fold(n: &Num) -> f64 {
    match n {
        Num::Literal(l) => {
            let v: f64 = l.digits.parse().unwrap();
            if l.negative {
                -v
            } else {
                v
            }
        }
        Num::Pi => std::f64::consts::PI,
        Num::Binary(op, a, b) => {
            let x = fold(a);
            let y = fold(b);
            match op {
                BinOp::Add => x + y,
                BinOp::Subtract => x - y,
                BinOp::Multiply => x * y,
                BinOp::Divide => x / y,
            }
        }
    }
}

fn number(v: &Value) -> f64 {
    match v {
        Value::Number(n) => fold(n),
        other => panic!("expected a number, got {:?}", other),
    }
}

fn render(source: &str) -> String {
    render_all(&Parser::new(source).parse().unwrap())
}

fn lex_all(source: &str) -> Vec<Result<Token, TokenError>> {
    let mut tokens = Tokens::new(source);
    let mut out = Vec::new();
    while let Some(t) = tokens.next() {
        out.push(t);
    }
    out
}

#[test]
fn lexes_one_two_plus() {
    let tokens = lex_all("1 2 +");
    assert_eq!(
        tokens,
        vec![
            Ok(Token::Number(numeral(false, "1"))),
            Ok(Token::Number(numeral(false, "2"))),
            Ok(Token::Plus),
        ]
    );
}

#[test]
fn lexes_every_simple_token() {
    let tokens = lex_all("+ - * / { } =");
    assert_eq!(
        tokens,
        vec![
            Ok(Token::Plus),
            Ok(Token::Minus),
            Ok(Token::Multiply),
            Ok(Token::Divide),
            Ok(Token::OpenBrace),
            Ok(Token::CloseBrace),
            Ok(Token::Assign),
        ]
    );
}

#[test]
fn lexes_negative_numbers_and_minus() {
    let tokens = lex_all("-12 3 -x -");
    assert_eq!(
        tokens,
        vec![
            Ok(Token::Number(numeral(true, "12"))),
            Ok(Token::Number(numeral(false, "3"))),
            Ok(Token::Minus),
            Ok(Token::Ident("x".to_string())),
            Ok(Token::Minus),
        ]
    );
}

#[test]
fn lexes_identifiers_and_skips_comments() {
    let tokens = lex_all("# a comment\n  print_arg PI\tx2 # trailing");
    assert_eq!(
        tokens,
        vec![
            Ok(Token::Ident("print_arg".to_string())),
            Ok(Token::Ident("PI".to_string())),
            Ok(Token::Ident("x2".to_string())),
        ]
    );
}

#[test]
fn lexes_unexpected_byte() {
    let tokens = lex_all("1 $");
    assert_eq!(
        tokens,
        vec![Ok(Token::Number(numeral(false, "1"))), Err(TokenError::Unexpected(b'$'))]
    );
}

#[test]
fn peeking_does_not_consume() {
    let mut tokens = Tokens::new("  abc }");
    assert_eq!(tokens.peek_token(), Some(Ok(Token::Ident("abc".to_string()))));
    assert_eq!(tokens.peek_token(), Some(Ok(Token::Ident("abc".to_string()))));
    assert_eq!(tokens.next(), Some(Ok(Token::Ident("abc".to_string()))));
    assert_eq!(tokens.peek_token(), Some(Ok(Token::CloseBrace)));
    assert_eq!(tokens.next(), Some(Ok(Token::CloseBrace)));
    assert_eq!(tokens.peek_token(), None);
    assert_eq!(tokens.next(), None);
}

#[test]
fn parses_one_two_plus() {
    let forms = Parser::new("1 2 +").parse().unwrap();
    assert_eq!(forms.len(), 1);
    match &forms[0] {
        Ast::Add(a, b) => {
            assert!(matches!(&**a, Ast::Literal(Literal::Number(n)) if *n == numeral(false, "1")));
            assert!(matches!(&**b, Ast::Literal(Literal::Number(n)) if *n == numeral(false, "2")));
        }
        other => panic!("expected Add, got {:?}", other),
    }
}

#[test]
fn evaluates_one_two_plus() {
    let values = evaluate("1 2 +").unwrap();
    assert_eq!(values.len(), 1);
    assert_eq!(number(&values[0]), 3.0);
}

#[test]
fn operand_order_is_kept() {
    let values = evaluate("10 4 - 8 2 / 3 5 *").unwrap();
    assert_eq!(values.len(), 3);
    assert_eq!(number(&values[0]), 6.0);
    assert_eq!(number(&values[1]), 4.0);
    assert_eq!(number(&values[2]), 15.0);
}

#[test]
fn division_by_zero_follows_ieee() {
    let values = evaluate("1 0 / 0 0 /").unwrap();
    assert_eq!(number(&values[0]), f64::INFINITY);
    assert!(number(&values[1]).is_nan());
}

#[test]
fn function_then_call() {
    let values = evaluate("{1 2 +} fn call").unwrap();
    assert_eq!(values.len(), 1);
    assert_eq!(number(&values[0]), 3.0);
}

#[test]
fn assignment_then_lookup() {
    let values = evaluate("x 5 = x").unwrap();
    assert_eq!(values.len(), 2);
    assert!(matches!(values[0], Value::Nil));
    assert_eq!(number(&values[1]), 5.0);
}

#[test]
fn assignment_overwrites() {
    let values = evaluate("x 5 = x 6 = x").unwrap();
    assert_eq!(number(&values[2]), 6.0);
}

#[test]
fn unbound_name_fails() {
    let r = evaluate("y");
    assert!(matches!(
        r,
        Err(Error::Interpreter(InterpreterError::VariableUndefined(ref n))) if n == "y"
    ));
}

#[test]
fn mismatch_yields_nil() {
    let values = evaluate("true 1 +").unwrap();
    assert_eq!(values.len(), 1);
    assert!(matches!(values[0], Value::Nil));
}

#[test]
fn lone_plus_fails() {
    assert!(matches!(evaluate("+"), Err(Error::NotEnoughArguments(2, 0))));
    assert!(matches!(evaluate("1 +"), Err(Error::NotEnoughArguments(2, 1))));
}

#[test]
fn render_is_canonical() {
    assert_eq!(render("1 2 +"), "(1 2 +)");
    assert_eq!(render("x 1 2 + 3 * ="), "(x ((1 2 +) 3 *) =)");
    assert_eq!(render("{ 1 -2 } fn call"), "(({1 -2} fn) call)");
    assert_eq!(render("true false Nil { }"), "true false Nil {}");
}

#[test]
fn render_is_stable_under_reparsing() {
    let once = render("{ a 007 { true } } -3 Nil");
    assert_eq!(once, "{a 007 {true}} -3 Nil");
    assert_eq!(render(&once), once);
}

#[test]
fn nested_blocks_parse() {
    let forms = Parser::new("{ { 1 } }").parse().unwrap();
    assert_eq!(forms.len(), 1);
    match &forms[0] {
        Ast::Block(outer) => {
            assert_eq!(outer.len(), 1);
            match &outer[0] {
                Ast::Block(inner) => {
                    assert_eq!(inner.len(), 1);
                    assert!(matches!(&inner[0], Ast::Literal(Literal::Number(n)) if *n == numeral(false, "1")));
                }
                other => panic!("expected a block, got {:?}", other),
            }
        }
        other => panic!("expected a block, got {:?}", other),
    }
}

#[test]
fn sibling_blocks_do_not_leak() {
    let forms = Parser::new("{ 1 } { 2 3 } 4").parse().unwrap();
    assert_eq!(render_all(&forms), "{1} {2 3} 4");
}

#[test]
fn pi_is_prebound() {
    let values = evaluate("PI").unwrap();
    assert_eq!(number(&values[0]), std::f64::consts::PI);
}

#[test]
fn empty_program_and_empty_block() {
    assert_eq!(evaluate("").unwrap().len(), 0);
    assert_eq!(evaluate("  # only a comment").unwrap().len(), 0);
    let values = evaluate("{ }").unwrap();
    assert!(matches!(values[0], Value::Nil));
}

#[test]
fn block_yields_its_last_value() {
    let values = evaluate("{ 1 2 }").unwrap();
    assert_eq!(number(&values[0]), 2.0);
}

#[test]
fn unterminated_block_fails() {
    assert!(matches!(evaluate("{ 1"), Err(Error::Ast(AstError::ExpectedCloseBrace))));
}

#[test]
fn stray_close_brace_fails() {
    assert!(matches!(
        evaluate("1 }"),
        Err(Error::Ast(AstError::Unexpected(Token::CloseBrace)))
    ));
}

#[test]
fn fn_needs_a_block() {
    assert!(matches!(evaluate("1 fn"), Err(Error::Ast(AstError::ExpectedBlock))));
    assert!(matches!(evaluate("fn"), Err(Error::Ast(AstError::ExpectedBlock))));
}

#[test]
fn assign_needs_a_name() {
    assert!(matches!(evaluate("1 2 ="), Err(Error::Ast(AstError::ExpectedIdentAndValue))));
    assert!(matches!(evaluate("="), Err(Error::Ast(AstError::ExpectedIdentAndValue))));
}

#[test]
fn call_needs_an_operand() {
    assert!(matches!(evaluate("call"), Err(Error::NotEnoughArguments(1, 0))));
}

#[test]
fn calling_a_number_fails() {
    match evaluate("5 call") {
        Err(Error::Interpreter(InterpreterError::NotCallable(v))) => assert_eq!(number(&v), 5.0),
        other => panic!("expected NotCallable, got {:?}", other),
    }
}

#[test]
fn lex_error_is_reported() {
    assert!(matches!(evaluate("1 2 @"), Err(Error::Token(TokenError::Unexpected(b'@')))));
}

#[test]
fn error_discards_earlier_values() {
    assert!(evaluate("1 2 + y").is_err());
}

#[test]
fn scoping_is_dynamic() {
    let values = evaluate("f { y } fn = y 3 = f call").unwrap();
    assert_eq!(number(&values[2]), 3.0);
}

#[test]
fn runaway_recursion_is_an_error() {
    assert!(matches!(
        evaluate("f { f call } fn = f call"),
        Err(Error::Interpreter(InterpreterError::CallDepthExceeded))
    ));
}

#[test]
fn print_writes_print_arg() {
    let mut interpreter = Interpreter::new();
    let values = interpreter.interpret("print_arg 7 = print call").unwrap();
    assert!(matches!(values[1], Value::Nil));
    let printed = interpreter.printed();
    assert_eq!(printed.len(), 1);
    assert_eq!(number(&printed[0]), 7.0);
}

#[test]
fn print_without_argument_fails() {
    assert!(matches!(
        evaluate("print call"),
        Err(Error::Interpreter(InterpreterError::VariableUndefined(ref n))) if n == "print_arg"
    ));
}

#[test]
fn context_binds_and_replaces() {
    let mut ctx = Context::new();
    assert!(ctx.lookup(&"a".to_string()).is_err());
    ctx.set("a".to_string(), Value::Boolean(true));
    assert!(matches!(ctx.lookup(&"a".to_string()), Ok(Value::Boolean(true))));
    ctx.set("a".to_string(), Value::Nil);
    assert!(matches!(ctx.lookup(&"a".to_string()), Ok(Value::Nil)));
    ctx.builtin_func("show".to_string(), Native::Print);
    assert!(matches!(
        ctx.lookup(&"show".to_string()),
        Ok(Value::BuiltinFunc(ref n, Native::Print)) if n == "show"
    ));
}

#[test]
fn pop_n_combines_the_top() {
    let mut s = vec![1, 2, 3, 4];
    assert!(pop_n(&mut s, 3, |args: Vec<i32>| args[0] * 100 + args[1] * 10 + args[2]).is_ok());
    assert_eq!(s, vec![1, 234]);
    assert!(matches!(pop_n(&mut s, 3, |_args: Vec<i32>| 0), Err(Error::NotEnoughArguments(3, 2))));
    assert_eq!(s, vec![1, 234]);
}

#[test]
fn cursor_steps_both_ways() {
    let items = [10, 20];
    let mut c = Cursor::new(&items);
    assert_eq!(c.peek(), Some(&10));
    assert_eq!(c.back(), None);
    assert_eq!(c.peek(), Some(&10));
}

#[test]
fn token_text_is_as_written() {
    assert_eq!(Token::Number(numeral(true, "42")).text(), "-42");
    assert_eq!(Token::Ident("abc".to_string()).text(), "abc");
    assert_eq!(Token::CloseBrace.text(), "}");
    assert_eq!(Token::Assign.text(), "=");
}

#[test]
fn token_error_messages() {
    assert_eq!(TokenError::Unexpected(b'$').message(), "unexpected '$'");
    assert_eq!(TokenError::Unexpected(0xc3).message(), "unexpected 0xc3");
    assert_eq!(TokenError::Unexpected(0x8a).message(), "unexpected 0x8a");
    assert_eq!(TokenError::InvalidUtf8.message(), "invalid utf-8");
}

#[test]
fn parse_error_messages() {
    assert_eq!(AstError::Unexpected(Token::CloseBrace).message(), "unexpected token '}'");
    assert_eq!(AstError::ExpectedCloseBrace.message(), "expected }");
    assert_eq!(AstError::ExpectedBlock.message(), "expected block");
    assert_eq!(AstError::ExpectedIdentAndValue.message(), "expected ident + ast");
}

#[test]
fn non_ascii_input_is_an_unexpected_byte() {
    assert!(matches!(evaluate("1 \u{e9}"), Err(Error::Token(TokenError::Unexpected(0xc3)))));
}

#[test]
fn interpreter_keeps_its_environment() {
    let mut interpreter = Interpreter::new();
    assert!(interpreter.interpret("n 4 =").is_ok());
    let values = interpreter.interpret("n n *").unwrap();
    assert_eq!(number(&values[0]), 16.0);
    assert!(interpreter.printed().is_empty());
}

#[test]
fn deep_but_bounded_recursion_is_fine() {
    let values = evaluate("g { 1 } fn = f { g call } fn = f call").unwrap();
    assert_eq!(number(&values[2]), 1.0);
}

#[test]
fn operators_may_reach_below_a_block() {
    assert_eq!(render("1 { 2 + }"), "(1 2 +) {}");
    assert_eq!(render("1 2 { + }"), "(1 2 +) {}");
}
