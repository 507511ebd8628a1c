use helix::error::CompileError;
use helix::token::{TokenType, BLOCK_TAG};
use helix::text::{trim_bounds, trim_bounds_with};
use helix::tokenizer::{operator, scan_line_with, Tokenizer};
use helix::token::Operator;

fn scan(src: &str) -> Result<Vec<(String, String)>, CompileError> {
    let mut t = Tokenizer::new();
    t.tokenize(src.to_string())?;
    Ok(t
        .get_tokens()
        .iter()
        .map(|tok| (format!("{:?}", tok.get_type()), tok.get_content().clone()))
        .collect())
}

fn kinds(src: &str) -> Vec<String> {
    scan(src).unwrap().into_iter().map(|(k, _)| k).collect()
}

#[test]
fn quoted_literals_scan_to_text() {
    assert_eq!(scan("\"abc\"").unwrap(), vec![("Text".to_string(), "abc".to_string())]);
    assert_eq!(scan("'abc'").unwrap(), vec![("Text".to_string(), "abc".to_string())]);
}

#[test]
fn numbers_scan_by_shape() {
    assert_eq!(scan("42").unwrap(), vec![("Integer".to_string(), "42".to_string())]);
    assert_eq!(scan("4.2").unwrap(), vec![("Float".to_string(), "4.2".to_string())]);
    assert_eq!(scan("-5").unwrap(), vec![("Integer".to_string(), "-5".to_string())]);
    assert_eq!(scan(".5").unwrap(), vec![("Float".to_string(), ".5".to_string())]);
}

#[test]
fn identifiers_take_marks_and_digits() {
    for w in ["a?", "b!", "_x1"] {
        assert_eq!(scan(w).unwrap(), vec![("Ident".to_string(), w.to_string())]);
    }
}

#[test]
fn non_ascii_letters_start_identifiers() {
    assert_eq!(scan("été").unwrap(), vec![("Ident".to_string(), "été".to_string())]);
}

#[test]
fn keywords_are_recognised() {
    assert_eq!(
        kinds("if else var function return true false use class implement structure module import library"),
        vec![
            "If", "Else", "Let", "Def", "Return", "Boolean", "Boolean", "Use", "Class", "Implement", "Struct",
            "Module", "Import", "Library"
        ]
    );
}

#[test]
fn operators_take_the_longest_match() {
    assert_eq!(
        scan("a <= b").unwrap(),
        vec![
            ("Ident".to_string(), "a".to_string()),
            ("Operator".to_string(), "<=".to_string()),
            ("Ident".to_string(), "b".to_string())
        ]
    );
    assert_eq!(kinds("1 == 2"), vec!["Integer", "Operator", "Integer"]);
    assert_eq!(kinds("x = 1"), vec!["Ident", "Assign", "Integer"]);
    assert_eq!(kinds("f -> g"), vec!["Ident", "Arrow", "Ident"]);
}

#[test]
fn symbols_scan_alone() {
    assert_eq!(
        kinds("( ) [ ] { } : , . ;"),
        vec!["LParen", "RParen", "LBracket", "RBracket", "LBrace", "RBrace", "Colon", "Comma", "Period", "Semicolon"]
    );
}

#[test]
fn unterminated_quote_is_a_lex_error() {
    assert_eq!(scan("'abc"), Err(CompileError::LexError { row: 1, col: 0 }));
    assert_eq!(scan("x = \"abc"), Err(CompileError::LexError { row: 1, col: 4 }));
}

#[test]
fn unknown_character_is_a_lex_error() {
    assert_eq!(scan("a $ b"), Err(CompileError::LexError { row: 1, col: 2 }));
}

#[test]
fn rescanning_text_content_gives_the_same_text() {
    let first = scan("x = 'say \"hi\"'").unwrap();
    let (kind, content) = first[2].clone();
    assert_eq!(kind, "Text");
    let again = scan(&format!("'{}'", content)).unwrap();
    assert_eq!(again, vec![("Text".to_string(), content)]);
}

#[test]
fn rows_and_columns_are_recorded() {
    let mut t = Tokenizer::new();
    t.tokenize("a = 1\n  b\r\n".to_string()).unwrap();
    let pos: Vec<(u32, u32)> = t.get_tokens().iter().map(|k| (*k.get_position().0, *k.get_position().1)).collect();
    assert_eq!(pos, vec![(1, 0), (1, 2), (1, 4), (2, 2)]);
    t.tokenize("c".to_string()).unwrap();
    assert_eq!(*t.get_tokens()[4].get_position().0, 3);
}

#[test]
fn nul_ends_a_line() {
    assert_eq!(kinds("a\0b"), vec!["Ident"]);
}

#[test]
fn operator_table() {
    assert!(matches!(operator("*"), Some((Operator::Mul, 1))));
    assert!(matches!(operator("%"), Some((Operator::Mod, 1))));
    assert!(matches!(operator("-"), Some((Operator::Minus, 2))));
    assert!(matches!(operator("!="), Some((Operator::NEqual, 3))));
    assert!(matches!(operator(">="), Some((Operator::GtEqual, 4))));
    assert!(operator("=").is_none());
    assert!(operator("+=").is_none());
    assert!(operator("").is_none());
}

#[test]
fn cursor_moves_and_clamps() {
    let mut t = Tokenizer::new();
    t.tokenize("a b".to_string()).unwrap();
    assert_eq!(t.remaining(), 2);
    assert_eq!(t.current_content(), "a");
    assert!(!t.prev_token());
    assert!(t.next_token());
    assert!(t.next_token());
    assert!(!t.next_token());
    assert_eq!(t.remaining(), 0);
    assert_eq!(t.current_content(), "b");
    assert!(t.prev_token());
    assert_eq!(t.current_content(), "b");
    assert!(t.match_current(TokenType::Ident).is_ok());
    assert_eq!(t.match_current(TokenType::Colon).err(), Some(CompileError::SyntaxError { row: 1, col: 2, expected: Some(TokenType::Colon.tag()), found: TokenType::Ident.tag() }));
    t.clear();
    assert_eq!(t.get_tokens().len(), 0);
    assert_eq!(t.remaining(), 0);
}

#[test]
fn cursor_over_given_tokens() {
    let mut t = Tokenizer::new();
    t.tokenize("x".to_string()).unwrap();
    let toks = std::mem::take(&mut t.tokens);
    let c = Tokenizer::from(toks);
    assert_eq!(c.remaining(), 1);
    assert_eq!(c.current().get_content(), "x");
}

#[test]
fn scanning_with_given_alphabetic_flags() {
    let line: Vec<char> = "ab 42".chars().collect();
    // `b` flagged as not alphabetic: the identifier is `a` alone, and `b`
    // starts no token.
    let r = scan_line_with(&line, &vec![true, false, false, false, false], 3);
    assert_eq!(r.err(), Some(CompileError::LexError { row: 3, col: 1 }));
    let toks = scan_line_with(&line, &vec![true, true, false, false, false], 3).unwrap();
    let got: Vec<(String, String, u32, u32)> = toks
        .iter()
        .map(|t| (format!("{:?}", t.get_type()), t.get_content().clone(), t.row, t.col))
        .collect();
    assert_eq!(
        got,
        vec![
            ("Ident".to_string(), "ab".to_string(), 3, 0),
            ("Integer".to_string(), "42".to_string(), 3, 3)
        ]
    );
}

#[test]
fn trimming_with_given_white_space_flags() {
    let x: Vec<char> = "-ab-".chars().collect();
    assert_eq!(trim_bounds_with(&x, &vec![true, false, false, true]), Some((1, 3)));
    assert_eq!(trim_bounds_with(&x, &vec![true, true, true, true]), None);
    let y: Vec<char> = " \tab\u{a0}".chars().collect();
    assert_eq!(trim_bounds(&y), Some((2, 4)));
}

#[test]
fn unterminated_quote_after_other_tokens() {
    assert_eq!(scan("x = 1 + 'abc"), Err(CompileError::LexError { row: 1, col: 8 }));
    assert_eq!(scan("f(\"open"), Err(CompileError::LexError { row: 1, col: 2 }));
}

#[test]
fn rescanning_uses_the_original_delimiter() {
    let first = scan("\"it's\"").unwrap();
    assert_eq!(first, vec![("Text".to_string(), "it's".to_string())]);
    assert_eq!(scan("\"it's\"").unwrap(), first);
}

#[test]
fn match_current_compares_block_contents() {
    let mut inner = Tokenizer::new();
    inner.tokenize("x".to_string()).unwrap();
    let x = std::mem::take(&mut inner.tokens);
    let mut other = Tokenizer::new();
    other.tokenize("x".to_string()).unwrap();
    let same = std::mem::take(&mut other.tokens);
    let c = Tokenizer::from(vec![helix::token::Token::new(TokenType::Block(Vec::new()), String::new(), 0, 0)]);
    assert!(c.match_current(TokenType::Block(Vec::new())).is_ok());
    assert_eq!(
        c.match_current(TokenType::Block(x)).err(),
        Some(CompileError::SyntaxError { row: 0, col: 0, expected: Some(BLOCK_TAG), found: BLOCK_TAG })
    );
    let mut full = Tokenizer::new();
    full.tokenize("x".to_string()).unwrap();
    let d = Tokenizer::from(vec![helix::token::Token::new(TokenType::Block(std::mem::take(&mut full.tokens)), String::new(), 0, 0)]);
    assert!(d.match_current(TokenType::Block(same)).is_ok());
}
