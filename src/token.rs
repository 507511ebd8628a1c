use vstd::prelude::*;

verus! {

/// Binary operators of the language.
#[derive(Debug, Clone, Copy, PartialEq, Eq, Structural)]
pub enum Operator {
    Mul,
    Div,
    Mod,
    Plus,
    Minus,
    Equal,
    NEqual,
    Lt,
    LtEqual,
    Gt,
    GtEqual,
}

/// The kind of a token. `Block` carries the flattened tokens of a nested
/// indentation block.
#[derive(Debug, PartialEq, Eq)]
pub enum TokenType {
    Block(Vec<Token>),
    Integer,
    Float,
    Text,
    Ident,
    Assign,
    LParen,
    RParen,
    LBrace,
    RBrace,
    LBracket,
    RBracket,
    Arrow,
    Colon,
    Comma,
    Period,
    Bang,
    Semicolon,
    If,
    Else,
    Module,
    Import,
    Library,
    Def,
    Return,
    Let,
    Class,
    Implement,
    Struct,
    Use,
    Boolean,
    Operator,
}

/// A classified lexical unit with its literal text and source position.
#[derive(Debug, PartialEq, Eq)]
pub struct Token {
    pub token_type: TokenType,
    pub row: u32,
    pub col: u32,
    pub content: String,
}

/// The tag of the `Block` kind, whatever the block holds.
pub const BLOCK_TAG: u8 = 0;

impl TokenType {
    /// The variant of a token kind as a number, ignoring a block's contents.
    pub open spec fn spec_tag(&self) -> u8 {
        match self {
            TokenType::Block(_) => 0,
            TokenType::Integer => 1,
            TokenType::Float => 2,
            TokenType::Text => 3,
            TokenType::Ident => 4,
            TokenType::Assign => 5,
            TokenType::LParen => 6,
            TokenType::RParen => 7,
            TokenType::LBrace => 8,
            TokenType::RBrace => 9,
            TokenType::LBracket => 10,
            TokenType::RBracket => 11,
            TokenType::Arrow => 12,
            TokenType::Colon => 13,
            TokenType::Comma => 14,
            TokenType::Period => 15,
            TokenType::Bang => 16,
            TokenType::Semicolon => 17,
            TokenType::If => 18,
            TokenType::Else => 19,
            TokenType::Module => 20,
            TokenType::Import => 21,
            TokenType::Library => 22,
            TokenType::Def => 23,
            TokenType::Return => 24,
            TokenType::Let => 25,
            TokenType::Class => 26,
            TokenType::Implement => 27,
            TokenType::Struct => 28,
            TokenType::Use => 29,
            TokenType::Boolean => 30,
            TokenType::Operator => 31,
        }
    }

    pub fn tag(&self) -> (r: u8)
        ensures
            r == self.spec_tag(),
    {
        match self {
            TokenType::Block(_) => 0,
            TokenType::Integer => 1,
            TokenType::Float => 2,
            TokenType::Text => 3,
            TokenType::Ident => 4,
            TokenType::Assign => 5,
            TokenType::LParen => 6,
            TokenType::RParen => 7,
            TokenType::LBrace => 8,
            TokenType::RBrace => 9,
            TokenType::LBracket => 10,
            TokenType::RBracket => 11,
            TokenType::Arrow => 12,
            TokenType::Colon => 13,
            TokenType::Comma => 14,
            TokenType::Period => 15,
            TokenType::Bang => 16,
            TokenType::Semicolon => 17,
            TokenType::If => 18,
            TokenType::Else => 19,
            TokenType::Module => 20,
            TokenType::Import => 21,
            TokenType::Library => 22,
            TokenType::Def => 23,
            TokenType::Return => 24,
            TokenType::Let => 25,
            TokenType::Class => 26,
            TokenType::Implement => 27,
            TokenType::Struct => 28,
            TokenType::Use => 29,
            TokenType::Boolean => 30,
            TokenType::Operator => 31,
        }
    }

}

/// Whether two kinds are equal: the same variant, and for two blocks the
/// same tokens one by one, with texts compared by their characters.
pub open spec fn kind_eq(a: TokenType, b: TokenType) -> bool
    decreases a,
{
    match a {
        TokenType::Block(v) => match b {
            TokenType::Block(w) => tokens_eq(v@, w@),
            _ => false,
        },
        _ => a.spec_tag() == b.spec_tag(),
    }
}

/// Whether two token lists are equal token by token: kinds by `kind_eq`,
/// positions, and texts by their characters.
pub open spec fn tokens_eq(s: Seq<Token>, w: Seq<Token>) -> bool
    decreases s,
{
    if s.len() == 0 {
        w.len() == 0
    } else {
        &&& w.len() == s.len()
        &&& tokens_eq(s.drop_last(), w.drop_last())
        &&& kind_eq(s.last().token_type, w.last().token_type)
        &&& s.last().row == w.last().row
        &&& s.last().col == w.last().col
        &&& s.last().content@ == w.last().content@
    }
}

/// Whether `a` and `b` are equal kinds; see `kind_eq`.
pub fn kind_equal(a: &TokenType, b: &TokenType) -> (r: bool)
    ensures
        r == kind_eq(*a, *b),
    decreases *a,
{
    match a {
        TokenType::Block(v) => match b {
            TokenType::Block(w) => {
                if v.len() != w.len() {
                    proof {
                        lemma_tokens_eq_len(v@, w@);
                    }
                    return false;
                }
                let mut i: usize = 0;
                assert(v@.take(0) =~= Seq::<Token>::empty());
                assert(w@.take(0) =~= Seq::<Token>::empty());
                while i < v.len()
                    invariant
                        i <= v.len() == w.len(),
                        *a == TokenType::Block(*v),
                        *b == TokenType::Block(*w),
                        tokens_eq(v@.take(i as int), w@.take(i as int)),
                    decreases v.len() - i,
                {
                    assert(v@.take(i + 1).drop_last() =~= v@.take(i as int));
                    assert(w@.take(i + 1).drop_last() =~= w@.take(i as int));
                    assert(decreases_to!(*a => v@[i as int].token_type)) by {
                        assert(*a == TokenType::Block(*v));
                        assert(decreases_to!(*a => (*a)->Block_0));
                        assert(decreases_to!(*v => v@));
                        assert(decreases_to!(v@ => v@[i as int]));
                    }
                    let same = kind_equal(&v[i].token_type, &w[i].token_type) && v[i].row == w[i].row
                        && v[i].col == w[i].col && v[i].content == w[i].content;
                    if !same {
                        proof {
                            if tokens_eq(v@, w@) {
                                lemma_tokens_eq_prefix(v@, w@, i + 1);
                                assert(v@.take(i + 1).last() == v@[i as int]);
                                assert(w@.take(i + 1).last() == w@[i as int]);
                            }
                        }
                        return false;
                    }
                    i = i + 1;
                }
                assert(v@.take(i as int) =~= v@);
                assert(w@.take(i as int) =~= w@);
                true
            },
            _ => false,
        },
        _ => a.tag() == b.tag(),
    }
}

proof fn lemma_tokens_eq_len(s: Seq<Token>, w: Seq<Token>)
    ensures
        tokens_eq(s, w) ==> s.len() == w.len(),
{
}

/// Equal lists have equal prefixes.
proof fn lemma_tokens_eq_prefix(s: Seq<Token>, w: Seq<Token>, k: int)
    requires
        0 <= k <= s.len(),
        tokens_eq(s, w),
    ensures
        tokens_eq(s.take(k), w.take(k)),
    decreases s.len() - k,
{
    if k < s.len() {
        lemma_tokens_eq_prefix(s, w, k + 1);
        assert(s.take(k + 1).drop_last() =~= s.take(k));
        assert(w.take(k + 1).drop_last() =~= w.take(k));
    } else {
        assert(s.take(k) =~= s);
        assert(w.take(k) =~= w);
    }
}

impl Token {
    pub fn new(token_type: TokenType, content: String, row: u32, col: u32) -> (r: Token)
        ensures
            r.token_type == token_type,
            r.content == content,
            r.row == row,
            r.col == col,
    {
        Token { token_type, row, col, content }
    }

    pub fn get_content(&self) -> (r: &String)
        ensures
            r == &self.content,
    {
        &self.content
    }

    pub fn get_type(&self) -> (r: &TokenType)
        ensures
            r == &self.token_type,
    {
        &self.token_type
    }

    /// The row and the column of the token.
    pub fn get_position(&self) -> (r: (&u32, &u32))
        ensures
            *r.0 == self.row,
            *r.1 == self.col,
    {
        (&self.row, &self.col)
    }
}

} // verus!
