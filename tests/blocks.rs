use helix::block_tree::{Branch, BlockTree, Chunk, ChunkValue};
use helix::error::CompileError;
use helix::tokenizer::{flatten_tree, Tokenizer};
use helix::token::TokenType;

fn tree(src: &str) -> Result<Branch, CompileError> {
    let mut t = BlockTree::new(src, 0);
    let ind = t.collect_indents()?;
    t.make_tree(&ind)
}

fn shape(b: &Branch) -> String {
    let mut out = String::new();
    for c in &b.content {
        match c.get_value() {
            ChunkValue::Text(t) => out.push_str(&format!("T({})", t)),
            ChunkValue::Tokens(v) => out.push_str(&format!("K{}", v.len())),
            ChunkValue::Block(inner) => out.push_str(&format!("B[{}]", shape(inner))),
        }
    }
    out
}

#[test]
fn indents_drop_comments_and_blank_lines() {
    let mut t = BlockTree::new("a # note\n\n   # only a comment\n  b  \n", 0);
    let ind = t.collect_indents().unwrap();
    assert_eq!(ind, vec![(0, "a".to_string()), (2, "b".to_string())]);
}

#[test]
fn get_indent_fixes_the_method() {
    let mut t = BlockTree::new("", 0);
    assert_eq!(t.get_indent("    x"), Some(4));
    assert_eq!(t.get_indent("  y"), Some(2));
    assert_eq!(t.get_indent("\tz"), None);
    assert_eq!(t.get_indent("w"), Some(0));
}

#[test]
fn mixed_indentation_across_lines_fails() {
    let mut t = BlockTree::new("a\n  b\n\tc", 0);
    assert_eq!(t.collect_indents(), Err(CompileError::IndentationError { line: 2 }));
}

#[test]
fn mixed_indentation_in_one_line_fails() {
    let mut t = BlockTree::new("a\n \tb", 0);
    assert_eq!(t.collect_indents(), Err(CompileError::IndentationError { line: 1 }));
}

#[test]
fn tabs_alone_are_fine() {
    assert_eq!(shape(&tree("a\n\tb\n\tc").unwrap()), "T(a)B[T(b)T(c)]");
}

#[test]
fn top_level_texts_are_the_least_indented_lines() {
    let b = tree("a\n  b\n  c\nd\n    e\n      f\n    g\nh").unwrap();
    assert_eq!(shape(&b), "T(a)B[T(b)T(c)]T(d)B[T(e)B[T(f)]T(g)]T(h)");
    let texts = b.content.iter().filter(|c| matches!(c.get_value(), ChunkValue::Text(_))).count();
    assert_eq!(texts, 3);
}

#[test]
fn empty_source_gives_an_empty_tree() {
    assert_eq!(shape(&tree("").unwrap()), "");
    assert_eq!(shape(&tree("  # nothing\n\n").unwrap()), "");
}

#[test]
fn dedent_to_an_unknown_width_fails() {
    assert_eq!(tree("a\n    b\n  c").err(), Some(CompileError::DedentError { line: 2 }));
}

#[test]
fn dedent_below_the_first_line_fails() {
    assert_eq!(tree("  a\nb").err(), Some(CompileError::DedentError { line: 1 }));
}

#[test]
fn make_tree_moves_the_line_cursor() {
    let mut t = BlockTree::new("a\n b\nc", 0);
    let ind = t.collect_indents().unwrap();
    let b = t.make_tree(&ind).unwrap();
    assert_eq!(shape(&b), "T(a)B[T(b)]T(c)");
    assert_eq!(t.line, 3);
    let mut u = BlockTree::new("a\n b\nc", 2);
    let ind = u.collect_indents().unwrap();
    assert_eq!(shape(&u.make_tree(&ind).unwrap()), "T(c)");
}

#[test]
fn tokenize_branch_keeps_the_shape() {
    let b = tree("x = 1\nif x\n  y = 'a'").unwrap();
    let t = Tokenizer::tokenize_branch(b).unwrap();
    assert_eq!(shape(&t), "K3K2B[K3]");
}

#[test]
fn tokenize_branch_keeps_token_chunks() {
    let mut k = Tokenizer::new();
    k.tokenize("a b".to_string()).unwrap();
    let toks = std::mem::take(&mut k.tokens);
    let b = Branch::new(vec![Chunk::new(ChunkValue::Tokens(toks)), Chunk::new(ChunkValue::Text("c".to_string()))]);
    assert_eq!(shape(&Tokenizer::tokenize_branch(b).unwrap()), "K2K1");
}

#[test]
fn tokenize_branch_reports_lex_errors() {
    let b = tree("a\n  'open").unwrap();
    assert_eq!(Tokenizer::tokenize_branch(b).err(), Some(CompileError::LexError { row: 1, col: 0 }));
}

#[test]
fn flatten_makes_one_token_per_block() {
    let b = tree("if x\n  y = 1\n  z\nw").unwrap();
    let flat = flatten_tree(Tokenizer::tokenize_branch(b).unwrap());
    assert_eq!(flat.len(), 4);
    match flat[2].get_type() {
        TokenType::Block(inner) => {
            assert_eq!(inner.len(), 4);
            assert_eq!(inner[0].get_content(), "y");
            assert_eq!(inner[3].get_content(), "z");
        }
        other => panic!("expected a block, found {:?}", other),
    }
    assert_eq!(flat[2].get_content(), "");
    assert_eq!(flat[2].get_position(), (&0, &0));
    assert_eq!(flat[3].get_content(), "w");
}

#[test]
fn flatten_nests_blocks() {
    let b = tree("a\n b\n  c").unwrap();
    let flat = flatten_tree(Tokenizer::tokenize_branch(b).unwrap());
    assert_eq!(flat.len(), 2);
    match flat[1].get_type() {
        TokenType::Block(inner) => {
            assert_eq!(inner.len(), 2);
            assert!(matches!(inner[1].get_type(), TokenType::Block(deeper) if deeper.len() == 1));
        }
        other => panic!("expected a block, found {:?}", other),
    }
}
