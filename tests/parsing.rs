use rptc::codegen::render_program;
use rptc::exprs::{
    AssignmentStatement, BlockStatement, Expr, FnStatement, IfStatement, Op, Operator,
    ParenExpr, ParenIdent, Statement,
};
use rptc::lexer::{Cursor, KeywordKind, Token, TokenKind};
use rptc::parser::{filter_tokens, parse_source, ParseError, Parser};

fn ident(s: &str) -> Expr {
    Expr::Ident(s.to_string())
}

fn bin(l: Expr, operator: Operator, r: Expr) -> Expr {
    Expr::BinOp(Op { op1: Box::new(l), op2: Box::new(r), operator })
}

fn only_statement(source: &str) -> Statement {
    let mut ast = parse_source(source).expect("parses");
    assert_eq!(ast.program.len(), 1);
    ast.program.pop().unwrap()
}

#[test]
fn multiplication_binds_tighter_than_addition() {
    let s = only_statement("1 + 2 * 3");
    let expected = bin(
        Expr::Literal(1),
        Operator::Add,
        bin(Expr::Literal(2), Operator::Multiply, Expr::Literal(3)),
    );
    assert_eq!(s, Statement::Expr(expected));
}

#[test]
fn equal_precedence_groups_to_the_left() {
    let s = only_statement("a - b - c");
    let expected = bin(
        bin(ident("a"), Operator::Subtract, ident("b")),
        Operator::Subtract,
        ident("c"),
    );
    assert_eq!(s, Statement::Expr(expected));
}

#[test]
fn comparison_binds_loosest() {
    let s = only_statement("a < b + c * d - e / f");
    let sum = bin(
        bin(ident("b"), Operator::Add, bin(ident("c"), Operator::Multiply, ident("d"))),
        Operator::Subtract,
        bin(ident("e"), Operator::Divide, ident("f")),
    );
    assert_eq!(s, Statement::Expr(bin(ident("a"), Operator::LessThan, sum)));
}

#[test]
fn tighter_then_looser() {
    let s = only_statement("a * b + c");
    let expected = bin(
        bin(ident("a"), Operator::Multiply, ident("b")),
        Operator::Add,
        ident("c"),
    );
    assert_eq!(s, Statement::Expr(expected));
}

#[test]
fn if_with_condition_and_block() {
    let s = only_statement("if (x < 1 ) { y }");
    let expected = Statement::If(IfStatement {
        paren: ParenExpr(vec![bin(ident("x"), Operator::LessThan, Expr::Literal(1))]),
        statement: Box::new(Statement::Block(BlockStatement(vec![Statement::Expr(ident(
            "y",
        ))]))),
    });
    assert_eq!(s, expected);
}

#[test]
fn assignment_is_outside_the_grammar() {
    assert_eq!(parse_source("if (x < 1 ) { y = 2 }"), Err(ParseError::UnexpectedToken));
}

#[test]
fn literal_runs_into_a_closing_paren() {
    // A literal runs up to whitespace, so `1)` is one literal and no number.
    assert_eq!(parse_source("if (x < 1) { y = 2 }"), Err(ParseError::FalseInner));
    assert_eq!(parse_source("if (x < 1) { y }"), Err(ParseError::FalseInner));
}

#[test]
fn missing_close_paren_is_unexpected_token() {
    assert_eq!(parse_source("if (x < 1 { }"), Err(ParseError::UnexpectedToken));
}

#[test]
fn fn_statement() {
    let s = only_statement("fn foo(a, b) { a }");
    let expected = Statement::Fn(FnStatement {
        ident: "foo".to_string(),
        paren_ident: ParenIdent(vec!["a".to_string(), "b".to_string()]),
        statement: Box::new(Statement::Block(BlockStatement(vec![Statement::Expr(ident(
            "a",
        ))]))),
    });
    assert_eq!(s, expected);
}

#[test]
fn parameter_list_may_end_with_a_comma() {
    let s = only_statement("fn f(a,) x");
    let expected = Statement::Fn(FnStatement {
        ident: "f".to_string(),
        paren_ident: ParenIdent(vec!["a".to_string()]),
        statement: Box::new(Statement::Expr(ident("x"))),
    });
    assert_eq!(s, expected);
}

#[test]
fn empty_parameter_list() {
    let s = only_statement("fn f() {}");
    let expected = Statement::Fn(FnStatement {
        ident: "f".to_string(),
        paren_ident: ParenIdent(vec![]),
        statement: Box::new(Statement::Block(BlockStatement(vec![]))),
    });
    assert_eq!(s, expected);
}

#[test]
fn several_expressions_in_parentheses() {
    let s = only_statement("if (a b + 1 ) c");
    let expected = Statement::If(IfStatement {
        paren: ParenExpr(vec![ident("a"), bin(ident("b"), Operator::Add, Expr::Literal(1))]),
        statement: Box::new(Statement::Expr(ident("c"))),
    });
    assert_eq!(s, expected);
}

#[test]
fn statements_follow_each_other() {
    let ast = parse_source("a b\n# comment\nfn g(x) { x 2 }").unwrap();
    assert_eq!(ast.program.len(), 3);
    assert_eq!(ast.program[0], Statement::Expr(ident("a")));
    assert_eq!(ast.program[1], Statement::Expr(ident("b")));
}

#[test]
fn empty_program() {
    assert_eq!(parse_source("  # nothing\n").unwrap().program.len(), 0);
}

#[test]
fn unknown_characters_are_dropped() {
    assert_eq!(only_statement("a $+ b"), Statement::Expr(bin(ident("a"), Operator::Add, ident("b"))));
}

#[test]
fn running_out_of_tokens() {
    assert_eq!(parse_source("if (x"), Err(ParseError::UnexpectedEOF));
    assert_eq!(parse_source("fn"), Err(ParseError::UnexpectedEOF));
    assert_eq!(parse_source("1 +"), Err(ParseError::UnexpectedEOF));
    assert_eq!(parse_source("{ a"), Err(ParseError::UnexpectedEOF));
    assert_eq!(parse_source("fn f(a"), Err(ParseError::UnexpectedEOF));
    assert_eq!(parse_source("fn f(a)"), Err(ParseError::UnexpectedEOF));
}

#[test]
fn wrong_token_kind() {
    assert_eq!(parse_source("= 1"), Err(ParseError::UnexpectedToken));
    assert_eq!(parse_source("fn f(a b) x"), Err(ParseError::UnexpectedToken));
    assert_eq!(parse_source("fn f x"), Err(ParseError::UnexpectedToken));
    assert_eq!(parse_source("if x"), Err(ParseError::UnexpectedToken));
    assert_eq!(parse_source("1 + )"), Err(ParseError::UnexpectedToken));
}

#[test]
fn payload_of_the_wrong_shape() {
    assert_eq!(parse_source("99999999999999999999999"), Err(ParseError::FalseInner));
    assert_eq!(parse_source("12ab"), Err(ParseError::FalseInner));
    assert_eq!(parse_source("fn 1() {}"), Err(ParseError::FalseInner));
    assert_eq!(parse_source("fn f(1) {}"), Err(ParseError::FalseInner));
    assert_eq!(parse_source("\"text"), Err(ParseError::FalseInner));
}

#[test]
fn first_error_ends_the_parse() {
    assert_eq!(parse_source("a = b 99999999999999999999999"), Err(ParseError::UnexpectedToken));
}

#[test]
fn parse_takes_filtered_tokens() {
    let tokens = vec![
        Token { kind: TokenKind::Keyword(KeywordKind::If), len: 2 },
        Token { kind: TokenKind::OpenParen, len: 1 },
        Token { kind: TokenKind::Ident("x".to_string()), len: 1 },
        Token { kind: TokenKind::CloseParen, len: 1 },
        Token { kind: TokenKind::Literal("5".to_string()), len: 1 },
    ];
    let ast = Parser::parse(tokens).unwrap();
    let expected = Statement::If(IfStatement {
        paren: ParenExpr(vec![ident("x")]),
        statement: Box::new(Statement::Expr(Expr::Literal(5))),
    });
    assert_eq!(ast.program, vec![expected]);
}

#[test]
fn parse_rejects_whitespace_tokens() {
    let tokens = vec![Token { kind: TokenKind::Whitespace, len: 1 }];
    assert_eq!(Parser::parse(tokens), Err(ParseError::UnexpectedToken));
}

#[test]
fn filter_drops_tokens_without_meaning() {
    let tokens = Cursor::tokenize("a # c\n $ 1");
    let kept = filter_tokens(tokens);
    let kinds: Vec<&TokenKind> = kept.iter().map(|t| &t.kind).collect();
    assert_eq!(
        kinds,
        vec![&TokenKind::Ident("a".to_string()), &TokenKind::Literal("1".to_string())]
    );
}

#[test]
fn render_function() {
    let s = only_statement("fn foo(a, b) { a }");
    let text = s.to_string();
    assert!(text.starts_with("void foo(ab) {"));
    assert!(text.ends_with("}"));
    assert_eq!(text, "void foo(ab) {a;\n}");
}

#[test]
fn render_if_and_operators() {
    let s = only_statement("if (x < 10 ) { y * 2 }");
    assert_eq!(s.to_string(), "if (x < 10) {y * 2;\n}");
}

#[test]
fn render_literal_in_decimal() {
    assert_eq!(only_statement("007").to_string(), "7;\n");
    assert_eq!(only_statement("1234567").to_string(), "1234567;\n");
    assert_eq!(Expr::Literal(0).to_string(), "0");
}

#[test]
fn render_assignment() {
    let s = Statement::Assignment(AssignmentStatement {
        ident: "x".to_string(),
        val: Box::new(bin(Expr::Literal(3), Operator::Add, ident("y"))),
    });
    assert_eq!(s.to_string(), "x = 3 + y");
}

#[test]
fn render_paren_expr_list() {
    let e = Expr::ParenExpr(ParenExpr(vec![ident("a"), Expr::Literal(2)]));
    assert_eq!(e.to_string(), "(a2)");
}

#[test]
fn render_program_lines() {
    let ast = parse_source("a + 1 fn f() {} if (b) c").unwrap();
    let lines = render_program(&ast);
    assert_eq!(
        lines,
        vec!["a + 1;\n".to_string(), "void f() {}".to_string(), "if (b) c;\n".to_string()]
    );
}

#[test]
fn operator_table() {
    let all = [
        ('+', Operator::Add, 1),
        ('-', Operator::Subtract, 1),
        ('*', Operator::Multiply, 2),
        ('/', Operator::Divide, 2),
        ('<', Operator::LessThan, 0),
    ];
    for (c, op, p) in all {
        assert_eq!(Operator::from_char(c), Some(op));
        assert_eq!(op.op_to_char(), c);
        assert_eq!(op.precedence(), p);
    }
    assert_eq!(Operator::from_char('%'), None);
}
