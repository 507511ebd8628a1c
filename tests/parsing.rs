use helix::ast::{Expression, Parser, Statement};
use helix::error::CompileError;
use helix::pipeline::parse_source;
use helix::token::{Token, TokenType, BLOCK_TAG};
use helix::tokenizer::Tokenizer;

fn ast(src: &str) -> String {
    format!("{:?}", parse_source(src).unwrap())
}

#[test]
fn multiplication_binds_tighter_than_addition() {
    assert_eq!(ast("1 + 2 * 3"), "[Expression(Operation(Integer(1), Plus, Operation(Integer(2), Mul, Integer(3))))]");
    assert_eq!(ast("1 * 2 + 3"), "[Expression(Operation(Operation(Integer(1), Mul, Integer(2)), Plus, Integer(3)))]");
}

#[test]
fn equal_tiers_associate_left() {
    assert_eq!(
        ast("10 - 3 - 2"),
        "[Expression(Operation(Operation(Integer(10), Minus, Integer(3)), Minus, Integer(2)))]"
    );
    assert_eq!(
        ast("8 / 4 % 3"),
        "[Expression(Operation(Operation(Integer(8), Div, Integer(4)), Mod, Integer(3)))]"
    );
}

#[test]
fn relational_binds_tighter_than_equality() {
    assert_eq!(
        ast("1 < 2 == true"),
        "[Expression(Operation(Operation(Integer(1), Lt, Integer(2)), Equal, Boolean(true)))]"
    );
    assert_eq!(
        ast("1 == 2 < 3"),
        "[Expression(Operation(Integer(1), Equal, Operation(Integer(2), Lt, Integer(3))))]"
    );
    assert_eq!(
        ast("a == b >= c + 1"),
        "[Expression(Operation(Ident(\"a\"), Equal, Operation(Ident(\"b\"), GtEqual, Operation(Ident(\"c\"), Plus, Integer(1)))))]"
    );
}

#[test]
fn mixed_tiers_group_by_tier() {
    assert_eq!(
        ast("1 + 2 * 3 - 4"),
        "[Expression(Operation(Operation(Integer(1), Plus, Operation(Integer(2), Mul, Integer(3))), Minus, Integer(4)))]"
    );
}

#[test]
fn identifier_operands_keep_tiers_and_order() {
    assert_eq!(
        ast("2 * x + 1"),
        "[Expression(Operation(Operation(Integer(2), Mul, Ident(\"x\")), Plus, Integer(1)))]"
    );
    assert_eq!(
        ast("1 - a - 2"),
        "[Expression(Operation(Operation(Integer(1), Minus, Ident(\"a\")), Minus, Integer(2)))]"
    );
    assert_eq!(
        ast("a - b * c"),
        "[Expression(Operation(Ident(\"a\"), Minus, Operation(Ident(\"b\"), Mul, Ident(\"c\"))))]"
    );
}

#[test]
fn index_dot_and_call_chain() {
    assert_eq!(
        ast("a[0].b(1)"),
        "[Expression(Call(IndexDot(IndexArray(Ident(\"a\"), Integer(0)), Ident(\"b\")), [Integer(1)]))]"
    );
}

#[test]
fn if_else_with_blocks() {
    assert_eq!(
        ast("if a == 1\n    b = 2\nelse\n    b = 3"),
        "[IfElse(Operation(Ident(\"a\"), Equal, Integer(1)), Block([Assignment(\"b\", Integer(2))]), Block([Assignment(\"b\", Integer(3))]))]"
    );
}

#[test]
fn if_without_else() {
    assert_eq!(ast("if x\n  y\nz"), "[If(Ident(\"x\"), Block([Expression(Ident(\"y\"))])), Expression(Ident(\"z\"))]");
}

#[test]
fn declarations_and_assignments() {
    assert_eq!(
        ast("var x = 'hi'\nx = 4.5"),
        "[Declaration(\"x\", Text(\"hi\")), Assignment(\"x\", Float(\"4.5\"))]"
    );
}

#[test]
fn calls_take_optional_commas() {
    assert_eq!(ast("f(1, 2 3)"), "[Expression(Call(Ident(\"f\"), [Integer(1), Integer(2), Integer(3)]))]");
    assert_eq!(ast("f()"), "[Expression(Call(Ident(\"f\"), []))]");
}

#[test]
fn colons_type_or_index() {
    assert_eq!(ast("x : int"), "[Expression(Typed(Ident(\"x\"), Ident(\"int\")))]");
    assert_eq!(ast("a::b"), "[Expression(IndexColon(Ident(\"a\"), Ident(\"b\")))]");
}

#[test]
fn parentheses_group_and_call() {
    assert_eq!(ast("(1)"), "[Expression(Integer(1))]");
    assert_eq!(ast("(f)(2)"), "[Expression(Call(Ident(\"f\"), [Integer(2)]))]");
}

#[test]
fn modules_and_friends_take_a_block() {
    assert_eq!(ast("module m\n  x = 1"), "[Expression(Module(\"m\", [Assignment(\"x\", Integer(1))]))]");
    assert_eq!(ast("class c\n  y"), "[Expression(Class(\"c\", [Expression(Ident(\"y\"))]))]");
    assert_eq!(ast("implement c\n  y"), "[Expression(Implement(\"c\", [Expression(Ident(\"y\"))]))]");
    assert_eq!(ast("structure s\n  y"), "[Expression(Struct(\"s\", [Expression(Ident(\"y\"))]))]");
}

#[test]
fn imports_and_uses() {
    assert_eq!(ast("import 'io' library"), "[Expression(Import(\"io\", true))]");
    assert_eq!(ast("import \"local\""), "[Expression(Import(\"local\", false))]");
    assert_eq!(ast("use m"), "[Expression(Use(Ident(\"m\")))]");
}

#[test]
fn functions_with_parameters_and_return_type() {
    assert_eq!(
        ast("function add a: int, b: int -> int\n  return a + b"),
        "[Expression(Function(\"add\", [(\"a\", \"int\"), (\"b\", \"int\")], [Expression(Return(Operation(Ident(\"a\"), Plus, Ident(\"b\"))))], Some(\"int\")))]"
    );
    assert_eq!(ast("function f\n  x"), "[Expression(Function(\"f\", [], [Expression(Ident(\"x\"))], None))]");
}

#[test]
fn negative_and_extreme_integers() {
    assert_eq!(ast("-9223372036854775808"), "[Expression(Integer(-9223372036854775808))]");
    assert_eq!(ast("9223372036854775807"), "[Expression(Integer(9223372036854775807))]");
    assert_eq!(parse_source("9223372036854775808").err(), Some(CompileError::SyntaxError { row: 1, col: 0, expected: None, found: TokenType::Integer.tag() }));
}

#[test]
fn empty_source_has_no_statements() {
    assert_eq!(ast(""), "[]");
}

#[test]
fn missing_block_is_a_syntax_error() {
    assert_eq!(parse_source("if x\ny").err(), Some(CompileError::SyntaxError { row: 1, col: 0, expected: Some(BLOCK_TAG), found: TokenType::Ident.tag() }));
}

#[test]
fn declaration_needs_assign() {
    assert_eq!(parse_source("var x 1").err(), Some(CompileError::SyntaxError { row: 1, col: 6, expected: Some(TokenType::Assign.tag()), found: TokenType::Integer.tag() }));
}

#[test]
fn unclosed_call_ends_early() {
    assert_eq!(parse_source("f(1").err(), Some(CompileError::SyntaxError { row: 1, col: 2, expected: Some(TokenType::RParen.tag()), found: TokenType::Integer.tag() }));
    assert!(matches!(parse_source("f(1, 2)"), Ok(_)));
    assert_eq!(parse_source("a[").err(), Some(CompileError::SyntaxError { row: 1, col: 1, expected: None, found: TokenType::LBracket.tag() }));
    assert_eq!(parse_source("if x").err(), Some(CompileError::SyntaxError { row: 1, col: 3, expected: Some(BLOCK_TAG), found: TokenType::Ident.tag() }));
    assert_eq!(parse_source("import foo").err(), Some(CompileError::SyntaxError { row: 1, col: 7, expected: Some(TokenType::Text.tag()), found: TokenType::Ident.tag() }));
}

#[test]
fn stray_token_is_not_a_term() {
    assert_eq!(parse_source(")").err(), Some(CompileError::SyntaxError { row: 1, col: 0, expected: None, found: TokenType::RParen.tag() }));
}

#[test]
fn pipeline_reports_segmentation_errors() {
    assert!(matches!(parse_source("a\n  b\n\tc"), Err(CompileError::IndentationError { line: 2 })));
    assert!(matches!(parse_source("a\n    b\n  c"), Err(CompileError::DedentError { line: 2 })));
    assert!(matches!(parse_source("'abc"), Err(CompileError::LexError { row: 1, col: 0 })));
}

#[test]
fn parser_over_a_tokenizer() {
    let mut t = Tokenizer::new();
    t.tokenize("x = 1 y".to_string()).unwrap();
    let mut p = Parser::from(t);
    let stmts = p.parse().unwrap();
    assert_eq!(stmts.len(), 2);
    assert!(matches!(&stmts[0], Statement::Assignment(n, e) if n == "x" && matches!(**e, Expression::Integer(1))));
    assert_eq!(p.tokenizer.remaining(), 0);
    let mut q = Parser::new();
    assert_eq!(q.parse().unwrap().len(), 0);
}

#[test]
fn parser_over_hand_made_tokens() {
    let toks = vec![
        Token::new(TokenType::Integer, "7".to_string(), 1, 0),
        Token::new(TokenType::Operator, "^".to_string(), 1, 2),
        Token::new(TokenType::Integer, "8".to_string(), 1, 4),
    ];
    let mut p = Parser::from(Tokenizer::from(toks));
    assert_eq!(p.parse().err(), Some(CompileError::SyntaxError { row: 1, col: 2, expected: None, found: TokenType::Operator.tag() }));
    let inner = vec![Token::new(TokenType::Ident, "y".to_string(), 2, 2)];
    let toks = vec![
        Token::new(TokenType::Module, "module".to_string(), 1, 0),
        Token::new(TokenType::Ident, "m".to_string(), 1, 7),
        Token::new(TokenType::Block(inner), String::new(), 0, 0),
    ];
    let mut p = Parser::from(Tokenizer::from(toks));
    assert_eq!(format!("{:?}", p.parse().unwrap()), "[Expression(Module(\"m\", [Expression(Ident(\"y\"))]))]");
}

#[test]
fn unicode_white_space_is_trimmed() {
    assert_eq!(ast("x\u{a0}\t"), "[Expression(Ident(\"x\"))]");
}
