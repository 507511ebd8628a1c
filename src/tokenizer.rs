use vstd::prelude::*;
use crate::block_tree::{
    level, tree_spec, chunk_model, chunks_model, lemma_chunks_model_len, lemma_chunks_model_push, Branch, Chunk, ChunkModel,
    ChunkValue,
};
use crate::error::CompileError;
use crate::text::{
    strip_cr, lines_from, alphabetic, chars_of, is_alphabetic, is_decimal_digit, is_digit, lemma_lines_from_bounds, lines_of,
    split_lines, string_of,
};
use crate::token::{kind_eq, kind_equal, Operator, Token, TokenType};

verus! {

/// A token as the scanner's specification sees it: its kind, its text, its
/// row and its column.
pub type Lexeme = (TokenType, Seq<char>, int, int);

/// Whether an identifier starts with `c`, where `alpha` says whether `c`
/// is alphabetic.
pub open spec fn ident_start(c: char, alpha: bool) -> bool {
    alpha || c == '_' || c == '?' || c == '!'
}

pub open spec fn ident_char(c: char, alpha: bool) -> bool {
    ident_start(c, alpha) || is_digit(c)
}

/// For each character of `l`, whether it is alphabetic.
pub open spec fn alpha_flags(l: Seq<char>) -> Seq<bool> {
    Seq::new(l.len(), |i: int| alphabetic(l[i]))
}

/// The character at `i`, or a space past either end of the line.
pub open spec fn char_at(l: Seq<char>, i: int) -> char {
    if 0 <= i < l.len() {
        l[i]
    } else {
        ' '
    }
}

/// One past the run of identifier characters that starts at `p`.
pub open spec fn ident_end(l: Seq<char>, a: Seq<bool>, p: int) -> int
    decreases l.len() - p,
{
    if 0 <= p < l.len() && ident_char(l[p], a[p]) {
        ident_end(l, a, p + 1)
    } else {
        p
    }
}

/// One past the run of decimal digits that starts at `p`.
pub open spec fn digits_end(l: Seq<char>, p: int) -> int
    decreases l.len() - p,
{
    if 0 <= p < l.len() && is_digit(l[p]) {
        digits_end(l, p + 1)
    } else {
        p
    }
}

/// The first index at or after `p` that holds `d`, or the line's length.
pub open spec fn find_char(l: Seq<char>, p: int, d: char) -> int
    decreases l.len() - p,
{
    if 0 <= p < l.len() && l[p] != d {
        find_char(l, p + 1, d)
    } else {
        p
    }
}

pub proof fn lemma_ident_end(l: Seq<char>, a: Seq<bool>, p: int)
    requires
        0 <= p <= l.len(),
    ensures
        p <= ident_end(l, a, p) <= l.len(),
        p < l.len() && ident_char(l[p], a[p]) ==> p < ident_end(l, a, p),
        forall|i: int| p <= i < ident_end(l, a, p) ==> ident_char(#[trigger] l[i], a[i]),
    decreases l.len() - p,
{
    if p < l.len() && ident_char(l[p], a[p]) {
        lemma_ident_end(l, a, p + 1);
    }
}

pub proof fn lemma_digits_end(l: Seq<char>, p: int)
    requires
        0 <= p <= l.len(),
    ensures
        p <= digits_end(l, p) <= l.len(),
        p < l.len() && is_digit(l[p]) ==> p < digits_end(l, p),
    decreases l.len() - p,
{
    if p < l.len() && is_digit(l[p]) {
        lemma_digits_end(l, p + 1);
    }
}

pub proof fn lemma_find_char(l: Seq<char>, p: int, d: char)
    requires
        0 <= p <= l.len(),
    ensures
        p <= find_char(l, p, d) <= l.len(),
        find_char(l, p, d) < l.len() ==> l[find_char(l, p, d)] == d,
        forall|i: int| p <= i < find_char(l, p, d) ==> #[trigger] l[i] != d,
    decreases l.len() - p,
{
    if p < l.len() && l[p] != d {
        lemma_find_char(l, p + 1, d);
    }
}

/// Whether a number literal starts at `p`: a digit, or a `.` or `-` followed
/// by a digit.
pub open spec fn starts_number(l: Seq<char>, p: int) -> bool {
    let c = char_at(l, p);
    is_digit(c) || ((c == '.' || c == '-') && is_digit(char_at(l, p + 1)))
}

/// One past the number literal that starts at `p`, and whether it is a
/// float: an optional `-`, digits, then a `.` and digits for a float.
pub open spec fn number_end(l: Seq<char>, p: int) -> (int, bool) {
    let a = if char_at(l, p) == '-' { p + 1 } else { p };
    let j = digits_end(l, a);
    if char_at(l, j) == '.' && is_digit(char_at(l, j + 1)) {
        (digits_end(l, j + 1), true)
    } else {
        (j, false)
    }
}

pub proof fn lemma_number_end(l: Seq<char>, p: int)
    requires
        0 <= p < l.len(),
        starts_number(l, p),
    ensures
        p < number_end(l, p).0 <= l.len(),
{
    let a = if char_at(l, p) == '-' { p + 1 } else { p };
    lemma_digits_end(l, a);
    let j = digits_end(l, a);
    if char_at(l, j) == '.' && is_digit(char_at(l, j + 1)) {
        lemma_digits_end(l, j + 1);
    }
}

/// Operators of one character, with their tier.
pub open spec fn op_one(c: char) -> Option<(Operator, u8)> {
    if c == '*' {
        Some((Operator::Mul, 1))
    } else if c == '%' {
        Some((Operator::Mod, 1))
    } else if c == '/' {
        Some((Operator::Div, 1))
    } else if c == '+' {
        Some((Operator::Plus, 2))
    } else if c == '-' {
        Some((Operator::Minus, 2))
    } else if c == '<' {
        Some((Operator::Lt, 4))
    } else if c == '>' {
        Some((Operator::Gt, 4))
    } else {
        None
    }
}

/// Operators of two characters, with their tier.
pub open spec fn op_two(a: char, b: char) -> Option<(Operator, u8)> {
    if b != '=' {
        None
    } else if a == '=' {
        Some((Operator::Equal, 3))
    } else if a == '!' {
        Some((Operator::NEqual, 3))
    } else if a == '<' {
        Some((Operator::LtEqual, 4))
    } else if a == '>' {
        Some((Operator::GtEqual, 4))
    } else {
        None
    }
}

/// The operator table: each operator's text, kind and tier (a lower tier
/// binds tighter). `*`, `/`, `%` have tier 1, `+`, `-` tier 2, the
/// equality operators `==`, `!=` tier 3 and the comparisons `<`, `>`, `<=`,
/// `>=` tier 4. The parser does not group by these tiers but by
/// `grammar::binding_rank`, under which comparison binds tighter than
/// equality.
pub open spec fn op_table(s: Seq<char>) -> Option<(Operator, u8)> {
    if s.len() == 1 {
        op_one(s[0])
    } else if s.len() == 2 {
        op_two(s[0], s[1])
    } else {
        None
    }
}

/// The keyword table.
pub open spec fn keyword_of(w: Seq<char>) -> Option<TokenType> {
    if w == "true"@ || w == "false"@ {
        Some(TokenType::Boolean)
    } else if w == "else"@ {
        Some(TokenType::Else)
    } else if w == "if"@ {
        Some(TokenType::If)
    } else if w == "module"@ {
        Some(TokenType::Module)
    } else if w == "library"@ {
        Some(TokenType::Library)
    } else if w == "import"@ {
        Some(TokenType::Import)
    } else if w == "function"@ {
        Some(TokenType::Def)
    } else if w == "return"@ {
        Some(TokenType::Return)
    } else if w == "var"@ {
        Some(TokenType::Let)
    } else if w == "class"@ {
        Some(TokenType::Class)
    } else if w == "implement"@ {
        Some(TokenType::Implement)
    } else if w == "structure"@ {
        Some(TokenType::Struct)
    } else if w == "use"@ {
        Some(TokenType::Use)
    } else {
        None
    }
}

/// The kind of a scanned word: its keyword, or `Ident`.
pub open spec fn word_kind(w: Seq<char>) -> TokenType {
    match keyword_of(w) {
        Some(k) => k,
        None => TokenType::Ident,
    }
}

/// The single-character symbols.
pub open spec fn symbol_of(c: char) -> Option<TokenType> {
    if c == '(' {
        Some(TokenType::LParen)
    } else if c == ')' {
        Some(TokenType::RParen)
    } else if c == '[' {
        Some(TokenType::LBracket)
    } else if c == ']' {
        Some(TokenType::RBracket)
    } else if c == '{' {
        Some(TokenType::LBrace)
    } else if c == '}' {
        Some(TokenType::RBrace)
    } else if c == ':' {
        Some(TokenType::Colon)
    } else if c == ',' {
        Some(TokenType::Comma)
    } else if c == '.' {
        Some(TokenType::Period)
    } else if c == ';' {
        Some(TokenType::Semicolon)
    } else if c == '!' {
        Some(TokenType::Bang)
    } else if c == '=' {
        Some(TokenType::Assign)
    } else {
        None
    }
}

/// `prefix` in front of a successful scan; an error stays as it is.
pub open spec fn glue(prefix: Seq<Lexeme>, r: Result<Seq<Lexeme>, CompileError>) -> Result<
    Seq<Lexeme>,
    CompileError,
> {
    match r {
        Ok(s) => Ok(prefix + s),
        Err(e) => Err(e),
    }
}

/// The tokens of line `l` from index `p` on, scanned on row `row`; `a`
/// says for each character whether it is alphabetic.
pub open spec fn scan_from(l: Seq<char>, a: Seq<bool>, p: int, row: u32) -> Result<Seq<Lexeme>, CompileError>
    decreases l.len() - p,
{
    if p < 0 || p >= l.len() {
        Ok(Seq::empty())
    } else {
        let c = l[p];
        if c == ' ' {
            scan_from(l, a, p + 1, row)
        } else if c == '"' || c == '\'' {
            let j = find_char(l, p + 1, c);
            proof {
                lemma_find_char(l, p + 1, c);
            }
            if j >= l.len() {
                Err(CompileError::LexError { row, col: p as u32 })
            } else {
                glue(seq![(TokenType::Text, l.subrange(p + 1, j), row as int, p)], scan_from(l, a, j + 1, row))
            }
        } else if ident_start(c, a[p]) {
            let j = ident_end(l, a, p);
            proof {
                lemma_ident_end(l, a, p);
            }
            let w = l.subrange(p, j);
            glue(seq![(word_kind(w), w, row as int, p)], scan_from(l, a, j, row))
        } else if starts_number(l, p) {
            let (j, float) = number_end(l, p);
            proof {
                lemma_number_end(l, p);
            }
            let kind = if float {
                TokenType::Float
            } else {
                TokenType::Integer
            };
            glue(seq![(kind, l.subrange(p, j), row as int, p)], scan_from(l, a, j, row))
        } else if c == '-' && char_at(l, p + 1) == '>' {
            glue(seq![(TokenType::Arrow, l.subrange(p, p + 2), row as int, p)], scan_from(l, a, p + 2, row))
        } else if p + 1 < l.len() && op_two(c, l[p + 1]) is Some {
            glue(seq![(TokenType::Operator, l.subrange(p, p + 2), row as int, p)], scan_from(l, a, p + 2, row))
        } else if op_one(c) is Some {
            glue(seq![(TokenType::Operator, l.subrange(p, p + 1), row as int, p)], scan_from(l, a, p + 1, row))
        } else if c == '\n' || c == '\0' {
            Ok(Seq::empty())
        } else if symbol_of(c) is Some {
            glue(seq![(symbol_of(c)->0, l.subrange(p, p + 1), row as int, p)], scan_from(l, a, p + 1, row))
        } else {
            Err(CompileError::LexError { row, col: p as u32 })
        }
    }
}

/// The tokens of one line, scanned on row `row`.
pub open spec fn scan_line_spec(l: Seq<char>, row: u32) -> Result<Seq<Lexeme>, CompileError> {
    scan_from(l, alpha_flags(l), 0, row)
}

/// How the scanner's specification sees a token.
pub open spec fn lexeme_of(t: Token) -> Lexeme {
    (t.token_type, t.content@, t.row as int, t.col as int)
}

pub open spec fn lexemes(ts: Seq<Token>) -> Seq<Lexeme> {
    ts.map_values(|t: Token| lexeme_of(t))
}

/// Whether an identifier starts with `c`, where `alpha` says whether `c`
/// is alphabetic.
fn identifier(c: char, alpha: bool) -> (r: bool)
    ensures
        r == ident_start(c, alpha),
{
    alpha || c == '_' || c == '?' || c == '!'
}

fn ident_run(l: &Vec<char>, a: &Vec<bool>, p: usize) -> (r: usize)
    requires
        p <= l.len(),
        a.len() == l.len(),
    ensures
        r == ident_end(l@, a@, p as int),
        p <= r <= l.len(),
{
    proof {
        lemma_ident_end(l@, a@, p as int);
    }
    let mut i = p;
    while i < l.len()
        invariant
            p <= i <= l.len(),
            a.len() == l.len(),
            ident_end(l@, a@, i as int) == ident_end(l@, a@, p as int),
        decreases l.len() - i,
    {
        if !(identifier(l[i], a[i]) || is_decimal_digit(l[i])) {
            return i;
        }
        i = i + 1;
    }
    i
}

fn digit_run(l: &Vec<char>, p: usize) -> (r: usize)
    requires
        p <= l.len(),
    ensures
        r == digits_end(l@, p as int),
        p <= r <= l.len(),
{
    proof {
        lemma_digits_end(l@, p as int);
    }
    let mut i = p;
    while i < l.len()
        invariant
            p <= i <= l.len(),
            digits_end(l@, i as int) == digits_end(l@, p as int),
        decreases l.len() - i,
    {
        if !is_decimal_digit(l[i]) {
            return i;
        }
        i = i + 1;
    }
    i
}

pub(crate) fn find_delimiter(l: &Vec<char>, p: usize, d: char) -> (r: usize)
    requires
        p <= l.len(),
    ensures
        r == find_char(l@, p as int, d),
        p <= r <= l.len(),
{
    proof {
        lemma_find_char(l@, p as int, d);
    }
    let mut i = p;
    while i < l.len()
        invariant
            p <= i <= l.len(),
            find_char(l@, i as int, d) == find_char(l@, p as int, d),
        decreases l.len() - i,
    {
        if l[i] == d {
            return i;
        }
        i = i + 1;
    }
    i
}

fn peek(l: &Vec<char>, i: usize) -> (r: char)
    ensures
        r == char_at(l@, i as int),
{
    if i < l.len() {
        l[i]
    } else {
        ' '
    }
}

fn number_run(l: &Vec<char>, p: usize) -> (r: (usize, bool))
    requires
        p < l.len(),
        starts_number(l@, p as int),
    ensures
        (r.0 as int, r.1) == number_end(l@, p as int),
        p < r.0 <= l.len(),
{
    proof {
        lemma_number_end(l@, p as int);
    }
    let a = if l[p] == '-' { p + 1 } else { p };
    let j = digit_run(l, a);
    if peek(l, j) == '.' && is_decimal_digit(peek(l, j + 1)) {
        (digit_run(l, j + 1), true)
    } else {
        (j, false)
    }
}

fn operator_one(c: char) -> (r: Option<(Operator, u8)>)
    ensures
        r == op_one(c),
{
    if c == '*' {
        Some((Operator::Mul, 1))
    } else if c == '%' {
        Some((Operator::Mod, 1))
    } else if c == '/' {
        Some((Operator::Div, 1))
    } else if c == '+' {
        Some((Operator::Plus, 2))
    } else if c == '-' {
        Some((Operator::Minus, 2))
    } else if c == '<' {
        Some((Operator::Lt, 4))
    } else if c == '>' {
        Some((Operator::Gt, 4))
    } else {
        None
    }
}

fn operator_two(a: char, b: char) -> (r: Option<(Operator, u8)>)
    ensures
        r == op_two(a, b),
{
    if b != '=' {
        None
    } else if a == '=' {
        Some((Operator::Equal, 3))
    } else if a == '!' {
        Some((Operator::NEqual, 3))
    } else if a == '<' {
        Some((Operator::LtEqual, 4))
    } else if a == '>' {
        Some((Operator::GtEqual, 4))
    } else {
        None
    }
}

/// Looks `v` up in the operator table: its kind and tier.
pub fn operator(v: &str) -> (r: Option<(Operator, u8)>)
    ensures
        r == op_table(v@),
{
    let n = v.unicode_len();
    if n == 1 {
        operator_one(v.get_char(0))
    } else if n == 2 {
        operator_two(v.get_char(0), v.get_char(1))
    } else {
        None
    }
}

/// Whether `v[from..to]` spells `lit`.
fn word_is(v: &Vec<char>, from: usize, to: usize, lit: &str) -> (r: bool)
    requires
        from <= to <= v.len(),
    ensures
        r == (v@.subrange(from as int, to as int) == lit@),
{
    let n = lit.unicode_len();
    if to - from != n {
        return false;
    }
    let mut i: usize = 0;
    while i < n
        invariant
            n == lit@.len(),
            from <= to <= v.len(),
            to - from == n,
            0 <= i <= n,
            forall|k: int| 0 <= k < i ==> v@[from + k] == lit@[k],
        decreases n - i,
    {
        if v[from + i] != lit.get_char(i) {
            assert(v@.subrange(from as int, to as int)[i as int] != lit@[i as int]);
            return false;
        }
        i = i + 1;
    }
    assert(v@.subrange(from as int, to as int) =~= lit@);
    true
}

/// The keyword spelled by `v[from..to]`, if any.
fn keyword(v: &Vec<char>, from: usize, to: usize) -> (r: Option<TokenType>)
    requires
        from <= to <= v.len(),
    ensures
        r == keyword_of(v@.subrange(from as int, to as int)),
{
    if word_is(v, from, to, "true") || word_is(v, from, to, "false") {
        Some(TokenType::Boolean)
    } else if word_is(v, from, to, "else") {
        Some(TokenType::Else)
    } else if word_is(v, from, to, "if") {
        Some(TokenType::If)
    } else if word_is(v, from, to, "module") {
        Some(TokenType::Module)
    } else if word_is(v, from, to, "library") {
        Some(TokenType::Library)
    } else if word_is(v, from, to, "import") {
        Some(TokenType::Import)
    } else if word_is(v, from, to, "function") {
        Some(TokenType::Def)
    } else if word_is(v, from, to, "return") {
        Some(TokenType::Return)
    } else if word_is(v, from, to, "var") {
        Some(TokenType::Let)
    } else if word_is(v, from, to, "class") {
        Some(TokenType::Class)
    } else if word_is(v, from, to, "implement") {
        Some(TokenType::Implement)
    } else if word_is(v, from, to, "structure") {
        Some(TokenType::Struct)
    } else if word_is(v, from, to, "use") {
        Some(TokenType::Use)
    } else {
        None
    }
}

/// The symbol token kind of `c`, if any.
fn symbol(c: char) -> (r: Option<TokenType>)
    ensures
        r == symbol_of(c),
{
    if c == '(' {
        Some(TokenType::LParen)
    } else if c == ')' {
        Some(TokenType::RParen)
    } else if c == '[' {
        Some(TokenType::LBracket)
    } else if c == ']' {
        Some(TokenType::RBracket)
    } else if c == '{' {
        Some(TokenType::LBrace)
    } else if c == '}' {
        Some(TokenType::RBrace)
    } else if c == ':' {
        Some(TokenType::Colon)
    } else if c == ',' {
        Some(TokenType::Comma)
    } else if c == '.' {
        Some(TokenType::Period)
    } else if c == ';' {
        Some(TokenType::Semicolon)
    } else if c == '!' {
        Some(TokenType::Bang)
    } else if c == '=' {
        Some(TokenType::Assign)
    } else {
        None
    }
}

proof fn lemma_glue_push(ts: Seq<Token>, t: Token, rest: Result<Seq<Lexeme>, CompileError>)
    ensures
        glue(lexemes(ts), glue(seq![lexeme_of(t)], rest)) == glue(lexemes(ts.push(t)), rest),
{
    assert(lexemes(ts.push(t)) =~= lexemes(ts) + seq![lexeme_of(t)]);
    match rest {
        Ok(s) => {
            assert(lexemes(ts) + (seq![lexeme_of(t)] + s) =~= lexemes(ts.push(t)) + s);
        },
        Err(_) => {},
    }
}

/// Scans one line into tokens on row `row`; each token's column is the index
/// of its first character (of its opening delimiter for a quoted literal).
pub fn scan_line(l: &Vec<char>, row: u32) -> (r: Result<Vec<Token>, CompileError>)
    requires
        l.len() <= u32::MAX,
    ensures
        match scan_line_spec(l@, row) {
            Ok(s) => r is Ok && lexemes(r->Ok_0@) == s,
            Err(e) => r == Err::<Vec<Token>, CompileError>(e),
        },
{
    let mut a: Vec<bool> = Vec::new();
    let mut i: usize = 0;
    while i < l.len()
        invariant
            i <= l.len(),
            a@ == alpha_flags(l@).take(i as int),
        decreases l.len() - i,
    {
        a.push(is_alphabetic(l[i]));
        assert(alpha_flags(l@).take(i + 1) =~= alpha_flags(l@).take(i as int).push(alphabetic(l@[i as int])));
        i = i + 1;
    }
    assert(a@ =~= alpha_flags(l@));
    scan_line_with(l, &a, row)
}

/// Scans one line into tokens on row `row`, where `a` says for each
/// character whether it is alphabetic; see `scan_line`.
pub fn scan_line_with(l: &Vec<char>, a: &Vec<bool>, row: u32) -> (r: Result<Vec<Token>, CompileError>)
    requires
        l.len() <= u32::MAX,
        a.len() == l.len(),
    ensures
        match scan_from(l@, a@, 0, row) {
            Ok(s) => r is Ok && lexemes(r->Ok_0@) == s,
            Err(e) => r == Err::<Vec<Token>, CompileError>(e),
        },
{
    let mut toks: Vec<Token> = Vec::new();
    let mut p: usize = 0;
    assert(lexemes(toks@) =~= Seq::<Lexeme>::empty());
    assert(glue(Seq::empty(), scan_from(l@, a@, 0, row)) == scan_from(l@, a@, 0, row)) by {
        match scan_from(l@, a@, 0, row) {
            Ok(s) => {
                assert(Seq::<Lexeme>::empty() + s =~= s);
            },
            Err(_) => {},
        }
    }
    while p < l.len()
        invariant
            p <= l.len() <= u32::MAX,
            a.len() == l.len(),
            scan_from(l@, a@, 0, row) == glue(lexemes(toks@), scan_from(l@, a@, p as int, row)),
        decreases l.len() - p,
    {
        let c = l[p];
        let ghost old_toks = toks@;
        if c == ' ' {
            p = p + 1;
        } else if c == '"' || c == '\'' {
            let j = find_delimiter(l, p + 1, c);
            if j >= l.len() {
                return Err(CompileError::LexError { row, col: p as u32 });
            }
            let t = Token::new(TokenType::Text, string_of(l, p + 1, j), row, p as u32);
            proof {
                lemma_glue_push(old_toks, t, scan_from(l@, a@, j + 1, row));
            }
            toks.push(t);
            p = j + 1;
        } else if identifier(c, a[p]) {
            let j = ident_run(l, a, p);
            proof {
                lemma_ident_end(l@, a@, p as int);
            }
            let kind = match keyword(l, p, j) {
                Some(k) => k,
                None => TokenType::Ident,
            };
            let t = Token::new(kind, string_of(l, p, j), row, p as u32);
            proof {
                lemma_glue_push(old_toks, t, scan_from(l@, a@, j as int, row));
            }
            toks.push(t);
            p = j;
        } else if is_decimal_digit(c) || ((c == '.' || c == '-') && is_decimal_digit(peek(l, p + 1))) {
            let (j, float) = number_run(l, p);
            let kind = if float {
                TokenType::Float
            } else {
                TokenType::Integer
            };
            let t = Token::new(kind, string_of(l, p, j), row, p as u32);
            proof {
                lemma_glue_push(old_toks, t, scan_from(l@, a@, j as int, row));
            }
            toks.push(t);
            p = j;
        } else if c == '-' && peek(l, p + 1) == '>' {
            let t = Token::new(TokenType::Arrow, string_of(l, p, p + 2), row, p as u32);
            proof {
                lemma_glue_push(old_toks, t, scan_from(l@, a@, p + 2, row));
            }
            toks.push(t);
            p = p + 2;
        } else if p + 1 < l.len() && operator_two(c, l[p + 1]).is_some() {
            let t = Token::new(TokenType::Operator, string_of(l, p, p + 2), row, p as u32);
            proof {
                lemma_glue_push(old_toks, t, scan_from(l@, a@, p + 2, row));
            }
            toks.push(t);
            p = p + 2;
        } else if operator_one(c).is_some() {
            let t = Token::new(TokenType::Operator, string_of(l, p, p + 1), row, p as u32);
            proof {
                lemma_glue_push(old_toks, t, scan_from(l@, a@, p + 1, row));
            }
            toks.push(t);
            p = p + 1;
        } else if c == '\n' || c == '\0' {
            proof {
                assert(lexemes(toks@) + Seq::<Lexeme>::empty() =~= lexemes(toks@));
            }
            return Ok(toks);
        } else {
            match symbol(c) {
                Some(kind) => {
                    let t = Token::new(kind, string_of(l, p, p + 1), row, p as u32);
                    proof {
                        lemma_glue_push(old_toks, t, scan_from(l@, a@, p + 1, row));
                    }
                    toks.push(t);
                    p = p + 1;
                },
                None => {
                    return Err(CompileError::LexError { row, col: p as u32 });
                },
            }
        }
    }
    proof {
        assert(lexemes(toks@) + Seq::<Lexeme>::empty() =~= lexemes(toks@));
    }
    Ok(toks)
}

/// The tokens of the lines `ls`, the first of them on row `row + 1`.
pub open spec fn scan_lines(ls: Seq<Seq<char>>, row: int) -> Result<Seq<Lexeme>, CompileError>
    decreases ls.len(),
{
    if ls.len() == 0 {
        Ok(Seq::empty())
    } else {
        match scan_line_spec(ls[0], (row + 1) as u32) {
            Err(e) => Err(e),
            Ok(s) => glue(s, scan_lines(ls.drop_first(), row + 1)),
        }
    }
}

/// Scans source text into a token list, and walks a token list with a
/// cursor: `top` is the index of the current token.
#[derive(Debug)]
pub struct Tokenizer {
    pub tokens: Vec<Token>,
    /// Number of lines scanned so far.
    pub lines: u32,
    pub top: usize,
}

impl Tokenizer {
    /// The cursor stands on a token, or just past the last one.
    pub open spec fn wf(&self) -> bool {
        self.top <= self.tokens.len()
    }

    /// The index of the token that `current` returns.
    pub open spec fn current_index(&self) -> int {
        if self.top < self.tokens.len() {
            self.top as int
        } else {
            self.tokens.len() - 1
        }
    }

    pub open spec fn current_spec(&self) -> Token {
        self.tokens@[self.current_index()]
    }

    pub fn new() -> (r: Tokenizer)
        ensures
            r.tokens@.len() == 0,
            r.lines == 0,
            r.top == 0,
    {
        Tokenizer { tokens: Vec::new(), lines: 0, top: 0 }
    }

    /// A cursor at the first of `tokens`.
    pub fn from(tokens: Vec<Token>) -> (r: Tokenizer)
        ensures
            r.tokens == tokens,
            r.lines == 0,
            r.top == 0,
    {
        Tokenizer { tokens, lines: 0, top: 0 }
    }

    pub fn get_tokens(&self) -> (r: &Vec<Token>)
        ensures
            r == &self.tokens,
    {
        &self.tokens
    }

    /// Forgets every token and line, and puts the cursor back at the start.
    pub fn clear(&mut self)
        ensures
            final(self).tokens@.len() == 0,
            final(self).lines == 0,
            final(self).top == 0,
    {
        self.tokens = Vec::new();
        self.lines = 0;
        self.top = 0;
    }

    /// Moves the cursor one token on, unless it is already past the end.
    pub fn next_token(&mut self) -> (r: bool)
        ensures
            r == (old(self).top < old(self).tokens.len()),
            final(self).top == if r { old(self).top + 1 } else { old(self).top as int },
            final(self).tokens == old(self).tokens,
            final(self).lines == old(self).lines,
    {
        if self.top < self.tokens.len() {
            self.top = self.top + 1;
            return true;
        }
        false
    }

    /// Moves the cursor one token back, unless it is at the start.
    pub fn prev_token(&mut self) -> (r: bool)
        ensures
            r == (old(self).top > 0),
            final(self).top == if r { old(self).top - 1 } else { old(self).top as int },
            final(self).tokens == old(self).tokens,
            final(self).lines == old(self).lines,
    {
        if self.top > 0 {
            self.top = self.top - 1;
            return true;
        }
        false
    }

    /// Number of tokens from the cursor on.
    pub fn remaining(&self) -> (r: usize)
        requires
            self.wf(),
        ensures
            r == self.tokens.len() - self.top,
    {
        self.tokens.len() - self.top
    }

    /// The token under the cursor; past the end, the last token.
    pub fn current(&self) -> (r: &Token)
        requires
            self.tokens.len() > 0,
        ensures
            *r == self.current_spec(),
    {
        if self.top >= self.tokens.len() {
            return &self.tokens[self.tokens.len() - 1];
        }
        &self.tokens[self.top]
    }

    pub fn current_content(&self) -> (r: String)
        requires
            self.tokens.len() > 0,
        ensures
            r@ == self.current_spec().content@,
    {
        self.current().content.clone()
    }

    /// The current token if its kind equals `token` (for a block, holding the
    /// same tokens), else a syntax error at the current token that names the
    /// tags of `token` and of the kind found.
    pub fn match_current(&self, token: TokenType) -> (r: Result<&Token, CompileError>)
        requires
            self.tokens.len() > 0,
        ensures
            kind_eq(self.current_spec().token_type, token) ==> (r matches Ok(t) && *t == self.current_spec()),
            !kind_eq(self.current_spec().token_type, token) ==> r == Err::<&Token, CompileError>(
                CompileError::SyntaxError {
                    row: self.current_spec().row,
                    col: self.current_spec().col,
                    expected: Some(token.spec_tag()),
                    found: self.current_spec().token_type.spec_tag(),
                },
            ),
    {
        let t = self.current();
        if kind_equal(&t.token_type, &token) {
            Ok(t)
        } else {
            Err(
                CompileError::SyntaxError {
                    row: t.row,
                    col: t.col,
                    expected: Some(token.tag()),
                    found: t.token_type.tag(),
                },
            )
        }
    }

    /// Scans `source` line by line and appends its tokens; the first line is
    /// numbered one past the lines scanned before.
    pub fn tokenize(&mut self, source: String) -> (r: Result<(), CompileError>)
        requires
            old(self).lines as int + source@.len() < u32::MAX,
        ensures
            final(self).top == old(self).top,
            match scan_lines(lines_of(source@), old(self).lines as int) {
                Ok(s) => r is Ok && lexemes(final(self).tokens@) == lexemes(old(self).tokens@) + s
                    && final(self).lines == old(self).lines + lines_of(source@).len(),
                Err(e) => r == Err::<(), CompileError>(e),
            },
    {
        let chars = chars_of(source.as_str());
        let ls = split_lines(&chars);
        proof {
            lemma_lines_from_bounds(chars@, 0);
        }
        let ghost all = lines_of(source@);
        let ghost start = lexemes(self.tokens@);
        let ghost first = self.lines as int;
        let mut k: usize = 0;
        assert(all.skip(0) =~= all);
        assert(glue(start, scan_lines(all, first)) == glue(start, scan_lines(all.skip(0), first)));
        proof {
            match scan_lines(all, first) {
                Ok(s) => {
                    assert(start + s =~= lexemes(self.tokens@) + s);
                },
                Err(_) => {},
            }
        }
        while k < ls.len()
            invariant
                ls@.len() == all.len(),
                all.len() <= source@.len(),
                forall|i: int| 0 <= i < ls@.len() ==> (#[trigger] ls@[i])@ == all[i],
                forall|i: int| 0 <= i < all.len() ==> (#[trigger] all[i]).len() <= source@.len(),
                first == old(self).lines as int,
                start == lexemes(old(self).tokens@),
                all == lines_of(source@),
                first + source@.len() < u32::MAX,
                k <= ls.len(),
                self.lines == first + k,
                self.top == old(self).top,
                match scan_lines(all, first) {
                    Ok(s) => match scan_lines(all.skip(k as int), first + k) {
                        Ok(t) => start + s == lexemes(self.tokens@) + t,
                        Err(_) => false,
                    },
                    Err(e) => scan_lines(all.skip(k as int), first + k) == Err::<Seq<Lexeme>, CompileError>(e),
                },
            decreases ls.len() - k,
        {
            let row = self.lines + 1;
            assert(ls@[k as int]@ == all[k as int]);
            assert(all[k as int].len() <= source@.len());
            let line_toks = scan_line(&ls[k], row);
            let ghost rest = all.skip(k as int);
            assert(rest.drop_first() =~= all.skip(k + 1));
            assert(rest[0] == all[k as int]);
            assert(scan_lines(rest, first + k) == match scan_line_spec(all[k as int], row) {
                Err(e) => Err(e),
                Ok(s) => glue(s, scan_lines(all.skip(k + 1), first + k + 1)),
            });
            match line_toks {
                Err(e) => {
                    return Err(e);
                },
                Ok(mut v) => {
                    let ghost before = self.tokens@;
                    let ghost added = v@;
                    self.tokens.append(&mut v);
                    assert(lexemes(self.tokens@) =~= lexemes(before) + lexemes(added));
                    proof {
                        match scan_lines(all, first) {
                            Ok(s) => {
                                let t2 = scan_lines(all.skip(k + 1), first + k + 1)->Ok_0;
                                assert(lexemes(before) + (lexemes(added) + t2) =~= lexemes(self.tokens@) + t2);
                            },
                            Err(_) => {},
                        }
                    }
                    self.lines = row;
                },
            }
            k = k + 1;
        }
        assert(all.skip(k as int) =~= Seq::<Seq<char>>::empty());
        proof {
            match scan_lines(all, first) {
                Ok(s) => {
                    assert(lexemes(self.tokens@) + Seq::<Lexeme>::empty() =~= lexemes(self.tokens@));
                },
                Err(_) => {},
            }
        }
        Ok(())
    }
}

/// Every text chunk of `cs`, nested ones too, is short enough for token
/// columns to fit in a `u32`.
pub open spec fn texts_fit(cs: Seq<ChunkModel>) -> bool
    decreases cs,
{
    if cs.len() == 0 {
        true
    } else {
        texts_fit(cs.drop_last()) && match cs.last() {
            ChunkModel::Text(t) => t.len() < u32::MAX,
            ChunkModel::Block(inner) => texts_fit(inner),
            ChunkModel::Tokens(_) => true,
        }
    }
}

/// `cs` with each text chunk replaced by its tokens (each scanned as a
/// source of its own) and each block tokenized in turn; the first error in
/// source order, if any.
pub open spec fn tokenize_chunks(cs: Seq<ChunkModel>) -> Result<Seq<ChunkModel>, CompileError>
    decreases cs,
{
    if cs.len() == 0 {
        Ok(Seq::empty())
    } else {
        match tokenize_chunks(cs.drop_last()) {
            Err(e) => Err(e),
            Ok(front) => match cs.last() {
                ChunkModel::Text(t) => match scan_lines(lines_of(t), 0) {
                    Err(e) => Err(e),
                    Ok(s) => Ok(front.push(ChunkModel::Tokens(s))),
                },
                ChunkModel::Block(inner) => match tokenize_chunks(inner) {
                    Err(e) => Err(e),
                    Ok(b) => Ok(front.push(ChunkModel::Block(b))),
                },
                ChunkModel::Tokens(v) => Ok(front.push(ChunkModel::Tokens(v))),
            },
        }
    }
}

/// `ts` is the flattening of `cs`: the tokens of each `Tokens` chunk in
/// order, and for each `Block` chunk one token, with empty text at row and
/// column 0, of kind `Block` holding the flattening of the nested chunks.
/// Text chunks leave nothing.
pub open spec fn flat_ok(cs: Seq<ChunkModel>, ts: Seq<Token>) -> bool
    decreases cs,
{
    if cs.len() == 0 {
        ts.len() == 0
    } else {
        let front = cs.drop_last();
        match cs.last() {
            ChunkModel::Text(_) => flat_ok(front, ts),
            ChunkModel::Tokens(v) => {
                let cut = ts.len() - v.len();
                &&& v.len() <= ts.len()
                &&& lexemes(ts.subrange(cut, ts.len() as int)) == v
                &&& flat_ok(front, ts.subrange(0, cut))
            },
            ChunkModel::Block(inner) => {
                &&& ts.len() > 0
                &&& ts.last().content@.len() == 0
                &&& ts.last().row == 0
                &&& ts.last().col == 0
                &&& match ts.last().token_type {
                    TokenType::Block(w) => flat_ok(inner, w@),
                    _ => false,
                }
                &&& flat_ok(front, ts.drop_last())
            },
        }
    }
}

proof fn lemma_texts_fit(cs: Seq<ChunkModel>, i: int)
    requires
        texts_fit(cs),
        0 <= i < cs.len(),
    ensures
        match cs[i] {
            ChunkModel::Text(t) => t.len() < u32::MAX,
            ChunkModel::Block(inner) => texts_fit(inner),
            ChunkModel::Tokens(_) => true,
        },
    decreases cs.len(),
{
    if i < cs.len() - 1 {
        lemma_texts_fit(cs.drop_last(), i);
        assert(cs.drop_last()[i] == cs[i]);
    }
}

proof fn lemma_tokenize_prefix_error(cs: Seq<ChunkModel>, k: int)
    requires
        0 <= k <= cs.len(),
        tokenize_chunks(cs.take(k)) is Err,
    ensures
        tokenize_chunks(cs) == tokenize_chunks(cs.take(k)),
    decreases cs.len() - k,
{
    if k < cs.len() {
        assert(cs.take(k + 1).drop_last() =~= cs.take(k));
        lemma_tokenize_prefix_error(cs, k + 1);
    } else {
        assert(cs.take(k) =~= cs);
    }
}

impl Tokenizer {
    /// The branch with each text chunk replaced by a chunk of its tokens
    /// (each text scanned as a source of its own) and each nested branch
    /// tokenized in turn; token chunks stay as they are.
    pub fn tokenize_branch(branch: Branch) -> (r: Result<Branch, CompileError>)
        requires
            texts_fit(branch@),
        ensures
            match tokenize_chunks(branch@) {
                Ok(c) => r matches Ok(b) && b@ == c,
                Err(e) => r == Err::<Branch, CompileError>(e),
            },
        decreases branch,
    {
        let ghost whole = branch;
        let ghost orig = branch.content@;
        let ghost m = chunks_model(orig);
        proof {
            lemma_chunks_model_len(orig);
            assert(m.take(0) =~= Seq::<ChunkModel>::empty());
            assert(chunks_model(Seq::<Chunk>::empty()) =~= Seq::<ChunkModel>::empty());
        }
        let mut rest = branch.content;
        let mut out: Vec<Chunk> = Vec::new();
        let ghost mut i: int = 0;
        while rest.len() > 0
            invariant
                0 <= i <= orig.len(),
                rest@ == orig.skip(i),
                m == chunks_model(orig),
                m.len() == orig.len(),
                forall|k: int| 0 <= k < orig.len() ==> m[k] == chunk_model(#[trigger] orig[k]),
                texts_fit(m),
                whole.content@ == orig,
                whole == branch,
                tokenize_chunks(m.take(i)) == Ok::<Seq<ChunkModel>, CompileError>(chunks_model(out@)),
            decreases rest.len(),
        {
            let chunk = rest.remove(0);
            assert(chunk == orig[i]);
            proof {
                lemma_texts_fit(m, i);
                assert(m.take(i + 1).drop_last() =~= m.take(i));
                assert(m.take(i + 1).last() == m[i]);
            }
            let ghost old_out = out@;
            match chunk.value {
                ChunkValue::Text(t) => {
                    let mut tk = Tokenizer::new();
                    match tk.tokenize(t) {
                        Err(e) => {
                            proof {
                                assert(m[i] == ChunkModel::Text(t@));
                                assert(tokenize_chunks(m.take(i + 1)) == Err::<Seq<ChunkModel>, CompileError>(e));
                                lemma_tokenize_prefix_error(m, i + 1);
                            }
                            return Err(e);
                        },
                        Ok(()) => {
                            assert(lexemes(Seq::<Token>::empty()) =~= Seq::<Lexeme>::empty());
                            assert(Seq::<Lexeme>::empty() + lexemes(tk.tokens@) =~= lexemes(tk.tokens@));
                            let c = Chunk { value: ChunkValue::Tokens(tk.tokens) };
                            proof {
                                lemma_chunks_model_push(old_out, c);
                            }
                            out.push(c);
                        },
                    }
                },
                ChunkValue::Block(b) => {
                    assert(decreases_to!(whole => b)) by {
                        assert(decreases_to!(whole => whole.content));
                        assert(decreases_to!(whole.content => whole.content@));
                        assert(decreases_to!(whole.content@ => whole.content@[i]));
                        assert(decreases_to!(whole.content@[i] => whole.content@[i].value));
                        assert(decreases_to!(whole.content@[i].value => b));
                    }
                    match Self::tokenize_branch(b) {
                        Err(e) => {
                            proof {
                                assert(m[i] == ChunkModel::Block(b@));
                                assert(tokenize_chunks(m.take(i + 1)) == Err::<Seq<ChunkModel>, CompileError>(e));
                                lemma_tokenize_prefix_error(m, i + 1);
                            }
                            return Err(e);
                        },
                        Ok(nb) => {
                            let c = Chunk { value: ChunkValue::Block(nb) };
                            proof {
                                lemma_chunks_model_push(old_out, c);
                            }
                            out.push(c);
                        },
                    }
                },
                ChunkValue::Tokens(v) => {
                    let c = Chunk { value: ChunkValue::Tokens(v) };
                    proof {
                        lemma_chunks_model_push(old_out, c);
                    }
                    out.push(c);
                },
            }
            proof {
                i = i + 1;
                assert(rest@ =~= orig.skip(i));
            }
        }
        assert(m.take(i) =~= m);
        Ok(Branch { content: out })
    }
}

/// The tokens of a tokenized branch in one list: each token chunk's tokens in
/// order, and in place of each nested branch one `Block` token holding its
/// flattening. Text chunks leave nothing.
pub fn flatten_tree(branch: Branch) -> (r: Vec<Token>)
    ensures
        flat_ok(branch@, r@),
    decreases branch,
{
    let ghost whole = branch;
    let ghost orig = branch.content@;
    let ghost m = chunks_model(orig);
    proof {
        lemma_chunks_model_len(orig);
        assert(m.take(0) =~= Seq::<ChunkModel>::empty());
    }
    let mut rest = branch.content;
    let mut out: Vec<Token> = Vec::new();
    let ghost mut i: int = 0;
    while rest.len() > 0
        invariant
            0 <= i <= orig.len(),
            rest@ == orig.skip(i),
            m == chunks_model(orig),
            m.len() == orig.len(),
            forall|k: int| 0 <= k < orig.len() ==> m[k] == chunk_model(#[trigger] orig[k]),
            whole.content@ == orig,
            whole == branch,
            flat_ok(m.take(i), out@),
        decreases rest.len(),
    {
        let chunk = rest.remove(0);
        assert(chunk == orig[i]);
        proof {
            assert(m.take(i + 1).drop_last() =~= m.take(i));
            assert(m.take(i + 1).last() == m[i]);
        }
        let ghost old_out = out@;
        match chunk.value {
            ChunkValue::Text(_) => {},
            ChunkValue::Tokens(mut v) => {
                let ghost added = v@;
                out.append(&mut v);
                proof {
                    let cut = out@.len() - added.len();
                    assert(out@.subrange(cut, out@.len() as int) =~= added);
                    assert(out@.subrange(0, cut) =~= old_out);
                }
            },
            ChunkValue::Block(b) => {
                assert(decreases_to!(whole => b)) by {
                    assert(decreases_to!(whole => whole.content));
                    assert(decreases_to!(whole.content => whole.content@));
                    assert(decreases_to!(whole.content@ => whole.content@[i]));
                    assert(decreases_to!(whole.content@[i] => whole.content@[i].value));
                    assert(decreases_to!(whole.content@[i].value => b));
                }
                let ghost inner = b@;
                let w = flatten_tree(b);
                out.push(Token::new(TokenType::Block(w), String::new(), 0, 0));
                proof {
                    assert(out@.drop_last() =~= old_out);
                }
            },
        }
        proof {
            i = i + 1;
            assert(rest@ =~= orig.skip(i));
        }
    }
    assert(m.take(i) =~= m);
    out
}

pub open spec fn is_quote(d: char) -> bool {
    d == '"' || d == '\''
}

/// `s` holds no `d`.
pub open spec fn free_of(s: Seq<char>, d: char) -> bool {
    forall|i: int| 0 <= i < s.len() ==> s[i] != d
}

/// A quote that opens a line and is never closed fails with a `LexError`
/// at its own column, on any row.
pub proof fn lemma_unterminated_quote(d: char, s: Seq<char>, row: u32)
    requires
        is_quote(d),
        free_of(s, d),
        s.len() + 1 <= u32::MAX,
    ensures
        scan_line_spec(seq![d] + s, row) == Err::<Seq<Lexeme>, CompileError>(
            CompileError::LexError { row, col: 0 },
        ),
{
    let l = seq![d] + s;
    lemma_find_char(l, 1, d);
    let j = find_char(l, 1, d);
    if j < l.len() {
        assert(l[j] == s[j - 1]);
    }
}

/// A text literal `s` between two quotes `d` that it does not hold scans to
/// one `Text` token whose text is `s`.
pub proof fn lemma_quoted_text(d: char, s: Seq<char>, row: u32)
    requires
        is_quote(d),
        free_of(s, d),
    ensures
        scan_line_spec(seq![d] + s + seq![d], row) == Ok::<Seq<Lexeme>, CompileError>(
            seq![(TokenType::Text, s, row as int, 0)],
        ),
{
    let l = seq![d] + s + seq![d];
    let a = alpha_flags(l);
    lemma_find_char(l, 1, d);
    let j = find_char(l, 1, d);
    assert forall|i: int| 1 <= i < l.len() - 1 implies l[i] != d by {
        assert(l[i] == s[i - 1]);
    }
    assert(l[l.len() - 1] == d);
    if j < l.len() - 1 {
        assert(l[j] == s[j - 1]);
    }
    assert(j == l.len() - 1);
    assert(l.subrange(1, j) =~= s);
    assert(scan_from(l, a, j + 1, row) == Ok::<Seq<Lexeme>, CompileError>(Seq::empty()));
    assert(seq![(TokenType::Text, s, row as int, 0)] + Seq::<Lexeme>::empty() =~= seq![
        (TokenType::Text, s, row as int, 0),
    ]);
}

/// Each `Text` token of `ts`, scanned from line `l`, stands at a quote of
/// `l` (its opening delimiter) and holds no occurrence of that quote.
pub open spec fn texts_delimited(l: Seq<char>, ts: Seq<Lexeme>) -> bool {
    forall|k: int|
        0 <= k < ts.len() && (#[trigger] ts[k]).0 is Text ==> text_delimited(l, ts[k])
}

pub open spec fn text_delimited(l: Seq<char>, x: Lexeme) -> bool {
    &&& 0 <= x.3
    &&& x.3 + 1 + x.1.len() <= l.len()
    &&& x.1 == l.subrange(x.3 + 1, x.3 + 1 + x.1.len())
    &&& is_quote(l[x.3])
    &&& free_of(x.1, l[x.3])
}

proof fn lemma_delimited_glue(l: Seq<char>, x: Lexeme, r: Result<Seq<Lexeme>, CompileError>)
    requires
        r is Ok ==> texts_delimited(l, r->Ok_0),
        x.0 is Text ==> text_delimited(l, x),
    ensures
        glue(seq![x], r) is Ok ==> texts_delimited(l, glue(seq![x], r)->Ok_0),
{
    if r is Ok {
        let rest = r->Ok_0;
        let ts = seq![x] + rest;
        assert forall|k: int| 0 <= k < ts.len() && (#[trigger] ts[k]).0 is Text implies text_delimited(
            l,
            ts[k],
        ) by {
            if k > 0 {
                assert(ts[k] == rest[k - 1]);
            }
        }
    }
}

proof fn lemma_text_free(l: Seq<char>, a: Seq<bool>, p: int, row: u32)
    requires
        0 <= p,
    ensures
        scan_from(l, a, p, row) is Ok ==> texts_delimited(l, scan_from(l, a, p, row)->Ok_0),
    decreases l.len() - p,
{
    if p < l.len() {
        let c = l[p];
        if c == ' ' {
            lemma_text_free(l, a, p + 1, row);
        } else if c == '"' || c == '\'' {
            lemma_find_char(l, p + 1, c);
            let j = find_char(l, p + 1, c);
            if j < l.len() {
                lemma_text_free(l, a, j + 1, row);
                let x = (TokenType::Text, l.subrange(p + 1, j), row as int, p);
                assert(free_of(x.1, c)) by {
                    assert forall|i: int| 0 <= i < x.1.len() implies x.1[i] != c by {
                        assert(x.1[i] == l[p + 1 + i]);
                    }
                }
                assert(text_delimited(l, x));
                lemma_delimited_glue(l, x, scan_from(l, a, j + 1, row));
            }
        } else if ident_start(c, a[p]) {
            lemma_ident_end(l, a, p);
            let j = ident_end(l, a, p);
            let w = l.subrange(p, j);
            lemma_text_free(l, a, j, row);
            lemma_delimited_glue(l, (word_kind(w), w, row as int, p), scan_from(l, a, j, row));
        } else if starts_number(l, p) {
            lemma_number_end(l, p);
            let (j, float) = number_end(l, p);
            let kind = if float {
                TokenType::Float
            } else {
                TokenType::Integer
            };
            lemma_text_free(l, a, j, row);
            lemma_delimited_glue(l, (kind, l.subrange(p, j), row as int, p), scan_from(l, a, j, row));
        } else if c == '-' && char_at(l, p + 1) == '>' {
            lemma_text_free(l, a, p + 2, row);
            lemma_delimited_glue(l, (TokenType::Arrow, l.subrange(p, p + 2), row as int, p), scan_from(l, a, p + 2, row));
        } else if p + 1 < l.len() && op_two(c, l[p + 1]) is Some {
            lemma_text_free(l, a, p + 2, row);
            lemma_delimited_glue(l, 
                (TokenType::Operator, l.subrange(p, p + 2), row as int, p),
                scan_from(l, a, p + 2, row),
            );
        } else if op_one(c) is Some {
            lemma_text_free(l, a, p + 1, row);
            lemma_delimited_glue(l, 
                (TokenType::Operator, l.subrange(p, p + 1), row as int, p),
                scan_from(l, a, p + 1, row),
            );
        } else if c == '\n' || c == '\0' {
        } else if symbol_of(c) is Some {
            lemma_text_free(l, a, p + 1, row);
            lemma_delimited_glue(l, (symbol_of(c)->0, l.subrange(p, p + 1), row as int, p), scan_from(l, a, p + 1, row));
        }
    }
}

/// Scanning the text of any `Text` token again, between the quote that
/// delimited it, gives back one `Text` token with the same text.
pub proof fn lemma_rescan_text(l: Seq<char>, row: u32, k: int, row2: u32)
    requires
        scan_line_spec(l, row) is Ok,
        0 <= k < scan_line_spec(l, row)->Ok_0.len(),
        scan_line_spec(l, row)->Ok_0[k].0 is Text,
    ensures
        ({
            let t = scan_line_spec(l, row)->Ok_0[k];
            let d = l[t.3];
            &&& is_quote(d)
            &&& scan_line_spec(seq![d] + t.1 + seq![d], row2) == Ok::<Seq<Lexeme>, CompileError>(
                seq![(TokenType::Text, t.1, row2 as int, 0)],
            )
        }),
{
    lemma_text_free(l, alpha_flags(l), 0, row);
    let ts = scan_line_spec(l, row)->Ok_0;
    assert(ts[k].0 is Text);
    assert(text_delimited(l, ts[k]));
    lemma_quoted_text(l[ts[k].3], ts[k].1, row2);
}

/// A source of one line, with no line break in it and no carriage return at
/// its end, is scanned as that line on the next row.
pub proof fn lemma_one_line_source(x: Seq<char>, row: int)
    requires
        x.len() > 0,
        free_of(x, '\n'),
        x.last() != '\r',
    ensures
        scan_lines(lines_of(x), row) == scan_line_spec(x, (row + 1) as u32),
{
    lemma_find_char(x, 0, '\n');
    let j = find_char(x, 0, '\n');
    if j < x.len() {
        assert(x[j] == '\n');
    }
    assert(x.subrange(0, j) =~= x);
    assert(lines_from(x, j + 1) =~= Seq::<Seq<char>>::empty());
    assert(lines_of(x) =~= seq![x]);
    assert(lines_of(x).drop_first() =~= Seq::<Seq<char>>::empty());
    assert(scan_lines(lines_of(x).drop_first(), row + 1) == Ok::<Seq<Lexeme>, CompileError>(Seq::empty()));
    assert(lines_of(x)[0] == x);
    match scan_line_spec(x, (row + 1) as u32) {
        Ok(s) => {
            assert(s + Seq::<Lexeme>::empty() =~= s);
        },
        Err(_) => {},
    }
}

/// Through `Tokenizer::tokenize` too: the text `c` of a `Text` token, with
/// no line break in it, between its quote scans as a one-line source to a
/// single `Text` token with text `c` on row 1.
pub proof fn lemma_rescan_text_source(d: char, c: Seq<char>)
    requires
        is_quote(d),
        free_of(c, d),
        free_of(c, '\n'),
    ensures
        scan_lines(lines_of(seq![d] + c + seq![d]), 0) == Ok::<Seq<Lexeme>, CompileError>(
            seq![(TokenType::Text, c, 1, 0)],
        ),
{
    let x = seq![d] + c + seq![d];
    assert forall|i: int| 0 <= i < x.len() implies x[i] != '\n' by {
        if 0 < i < x.len() - 1 {
            assert(x[i] == c[i - 1]);
        }
    }
    lemma_one_line_source(x, 0);
    lemma_quoted_text(d, c, 1);
}

proof fn lemma_texts_fit_append(a: Seq<ChunkModel>, b: Seq<ChunkModel>)
    requires
        texts_fit(a),
        texts_fit(b),
    ensures
        texts_fit(a + b),
    decreases b.len(),
{
    if b.len() == 0 {
        assert(a + b =~= a);
    } else {
        lemma_texts_fit_append(a, b.drop_last());
        assert((a + b).drop_last() =~= a + b.drop_last());
    }
}

proof fn lemma_texts_fit_one(x: ChunkModel)
    requires
        match x {
            ChunkModel::Text(t) => t.len() < u32::MAX,
            ChunkModel::Block(inner) => texts_fit(inner),
            ChunkModel::Tokens(_) => true,
        },
    ensures
        texts_fit(seq![x]),
{
    assert(seq![x].drop_last() =~= Seq::<ChunkModel>::empty());
    assert(texts_fit(Seq::<ChunkModel>::empty()));
    assert(seq![x].last() == x);
}

/// A level built from lines whose contents are shorter than `u32::MAX`
/// holds only such texts.
proof fn lemma_level_fits(ind: Seq<(int, Seq<char>)>, i: int, base: int)
    requires
        0 <= i,
        forall|k: int| 0 <= k < ind.len() ==> (#[trigger] ind[k]).1.len() < u32::MAX,
    ensures
        level(ind, i, base) is Ok ==> texts_fit(level(ind, i, base)->Ok_0.0),
    decreases ind.len() - i,
{
    if i < ind.len() {
        let w = ind[i].0;
        let text = ChunkModel::Text(ind[i].1);
        lemma_texts_fit_one(text);
        if w == base {
            lemma_level_fits(ind, i + 1, base);
            if level(ind, i + 1, base) is Ok {
                lemma_texts_fit_append(seq![text], level(ind, i + 1, base)->Ok_0.0);
            }
        } else if w > base {
            lemma_level_fits(ind, i + 1, w);
            if level(ind, i + 1, w) is Ok {
                let (sub, j0) = level(ind, i + 1, w)->Ok_0;
                let j = if i < j0 <= ind.len() {
                    j0
                } else {
                    i + 1
                };
                lemma_texts_fit_append(seq![text], sub);
                let block = ChunkModel::Block(seq![text] + sub);
                lemma_texts_fit_one(block);
                lemma_level_fits(ind, j, base);
                if level(ind, j, base) is Ok {
                    lemma_texts_fit_append(seq![block], level(ind, j, base)->Ok_0.0);
                }
            }
        }
    }
}

/// A tree built from lines whose contents are shorter than `u32::MAX` holds
/// only such texts.
pub proof fn lemma_tree_fits(ind: Seq<(int, Seq<char>)>)
    requires
        forall|k: int| 0 <= k < ind.len() ==> (#[trigger] ind[k]).1.len() < u32::MAX,
        tree_spec(ind, 0) is Ok,
    ensures
        texts_fit(tree_spec(ind, 0)->Ok_0),
{
    if ind.len() > 0 {
        lemma_level_fits(ind, 0, ind[0].0);
    } else {
        assert(texts_fit(Seq::<ChunkModel>::empty()));
    }
}

/// `l` is `pre`, then a quote `d`, then `s`, with flags `a` that do not call
/// that quote alphabetic; `pre` holds no line break and no NUL.
pub open spec fn quote_after(pre: Seq<char>, d: char, s: Seq<char>, l: Seq<char>, a: Seq<bool>) -> bool {
    &&& l == pre + seq![d] + s
    &&& a.len() == l.len()
    &&& !a[pre.len() as int]
    &&& is_quote(d)
    &&& free_of(pre, '\n')
    &&& free_of(pre, '\0')
}

proof fn lemma_quote_after_chars(pre: Seq<char>, d: char, s: Seq<char>, l: Seq<char>, a: Seq<bool>)
    requires
        quote_after(pre, d, s, l, a),
    ensures
        forall|i: int| 0 <= i < pre.len() ==> #[trigger] l[i] == pre[i],
        forall|i: int| 0 <= i < pre.len() ==> char_at(l, i) == #[trigger] char_at(pre, i),
        l[pre.len() as int] == d,
        char_at(l, pre.len() as int) == d,
        char_at(pre, pre.len() as int) == ' ',
        a.take(pre.len() as int).len() == pre.len(),
        forall|i: int| 0 <= i < pre.len() ==> #[trigger] a.take(pre.len() as int)[i] == a[i],
{
    assert forall|i: int| 0 <= i < pre.len() implies #[trigger] l[i] == pre[i] by {}
}

proof fn lemma_ident_end_after(pre: Seq<char>, d: char, s: Seq<char>, l: Seq<char>, a: Seq<bool>, i: int)
    requires
        quote_after(pre, d, s, l, a),
        0 <= i <= pre.len(),
    ensures
        ident_end(l, a, i) == ident_end(pre, a.take(pre.len() as int), i),
    decreases pre.len() - i,
{
    lemma_quote_after_chars(pre, d, s, l, a);
    if i < pre.len() {
        lemma_ident_end_after(pre, d, s, l, a, i + 1);
    }
}

proof fn lemma_digits_end_after(pre: Seq<char>, d: char, s: Seq<char>, l: Seq<char>, a: Seq<bool>, i: int)
    requires
        quote_after(pre, d, s, l, a),
        0 <= i <= pre.len(),
    ensures
        digits_end(l, i) == digits_end(pre, i),
    decreases pre.len() - i,
{
    lemma_quote_after_chars(pre, d, s, l, a);
    if i < pre.len() {
        lemma_digits_end_after(pre, d, s, l, a, i + 1);
    }
}

proof fn lemma_find_char_after(pre: Seq<char>, d: char, s: Seq<char>, l: Seq<char>, a: Seq<bool>, i: int, c: char)
    requires
        quote_after(pre, d, s, l, a),
        0 <= i <= pre.len(),
        find_char(pre, i, c) < pre.len(),
    ensures
        find_char(l, i, c) == find_char(pre, i, c),
    decreases pre.len() - i,
{
    lemma_quote_after_chars(pre, d, s, l, a);
    if i < pre.len() && pre[i] != c {
        lemma_find_char_after(pre, d, s, l, a, i + 1, c);
    }
}

/// From any position of `pre` at which its scan succeeds, the scan of `l`
/// runs into the unterminated quote after `pre` and fails there.
proof fn lemma_unterminated_from(pre: Seq<char>, d: char, s: Seq<char>, l: Seq<char>, a: Seq<bool>, p: int, row: u32)
    requires
        quote_after(pre, d, s, l, a),
        free_of(s, d),
        0 <= p <= pre.len(),
        scan_from(pre, a.take(pre.len() as int), p, row) is Ok,
    ensures
        scan_from(l, a, p, row) == Err::<Seq<Lexeme>, CompileError>(
            CompileError::LexError { row, col: pre.len() as u32 },
        ),
    decreases pre.len() - p,
{
    let ap = a.take(pre.len() as int);
    let n = pre.len() as int;
    lemma_quote_after_chars(pre, d, s, l, a);
    if p == n {
        lemma_find_char(l, p + 1, d);
        let f = find_char(l, p + 1, d);
        if f < l.len() {
            assert(l[f] == s[f - p - 1]);
        }
    } else {
        let c = pre[p];
        assert(l[p] == c);
        assert(ap[p] == a[p]);
        if c == ' ' {
            lemma_unterminated_from(pre, d, s, l, a, p + 1, row);
        } else if c == '"' || c == '\'' {
            lemma_find_char(pre, p + 1, c);
            let j = find_char(pre, p + 1, c);
            lemma_find_char_after(pre, d, s, l, a, p + 1, c);
            lemma_unterminated_from(pre, d, s, l, a, j + 1, row);
        } else if ident_start(c, a[p]) {
            lemma_ident_end(pre, ap, p);
            lemma_ident_end_after(pre, d, s, l, a, p);
            let j = ident_end(pre, ap, p);
            assert(l.subrange(p, j) =~= pre.subrange(p, j));
            lemma_unterminated_from(pre, d, s, l, a, j, row);
        } else if starts_number(pre, p) {
            assert(starts_number(l, p));
            lemma_number_end(pre, p);
            let a0 = if c == '-' { p + 1 } else { p };
            lemma_digits_end(pre, a0);
            lemma_digits_end_after(pre, d, s, l, a, a0);
            let j = digits_end(pre, a0);
            if char_at(pre, j) == '.' && is_digit(char_at(pre, j + 1)) {
                lemma_digits_end_after(pre, d, s, l, a, j + 1);
            }
            assert(number_end(l, p) == number_end(pre, p));
            let (e, _) = number_end(pre, p);
            assert(l.subrange(p, e) =~= pre.subrange(p, e));
            lemma_unterminated_from(pre, d, s, l, a, e, row);
        } else if c == '-' && char_at(pre, p + 1) == '>' {
            assert(l.subrange(p, p + 2) =~= pre.subrange(p, p + 2));
            lemma_unterminated_from(pre, d, s, l, a, p + 2, row);
        } else if p + 1 < n && op_two(c, pre[p + 1]) is Some {
            assert(l[p + 1] == pre[p + 1]);
            assert(l.subrange(p, p + 2) =~= pre.subrange(p, p + 2));
            lemma_unterminated_from(pre, d, s, l, a, p + 2, row);
        } else {
            assert(!starts_number(l, p));
            assert(!(c == '-' && char_at(l, p + 1) == '>'));
            if p + 1 < n {
                assert(l[p + 1] == pre[p + 1]);
            } else {
                assert(l[p + 1] == d);
            }
            assert(!(p + 1 < l.len() && op_two(c, l[p + 1]) is Some));
            assert(pre[p] != '\n' && pre[p] != '\0');
            assert(l.subrange(p, p + 1) =~= pre.subrange(p, p + 1));
            lemma_unterminated_from(pre, d, s, l, a, p + 1, row);
        }
    }
}

/// A quoted literal left open fails with a `LexError` at its opening quote:
/// whatever comes before it on the line, provided that scans without error
/// (and holds no NUL, which ends a line), and whatever follows it without
/// the closing quote.
pub proof fn lemma_unterminated_quote_after(pre: Seq<char>, d: char, s: Seq<char>, a: Seq<bool>, row: u32)
    requires
        is_quote(d),
        free_of(s, d),
        free_of(pre, '\n'),
        free_of(pre, '\0'),
        a.len() == pre.len() + 1 + s.len(),
        !a[pre.len() as int],
        scan_from(pre, a.take(pre.len() as int), 0, row) is Ok,
    ensures
        scan_from(pre + seq![d] + s, a, 0, row) == Err::<Seq<Lexeme>, CompileError>(
            CompileError::LexError { row, col: pre.len() as u32 },
        ),
{
    lemma_unterminated_from(pre, d, s, pre + seq![d] + s, a, 0, row);
}

/// The lines of any text hold no line break.
pub proof fn lemma_lines_unbroken(src: Seq<char>, p: int)
    requires
        0 <= p,
    ensures
        forall|i: int| 0 <= i < lines_from(src, p).len() ==> free_of(#[trigger] lines_from(src, p)[i], '\n'),
    decreases src.len() + 1 - p,
{
    if p < src.len() {
        lemma_find_char(src, p, '\n');
        let j = find_char(src, p, '\n');
        lemma_lines_unbroken(src, j + 1);
        let first = strip_cr(src.subrange(p, j));
        assert(free_of(first, '\n')) by {
            assert forall|i: int| 0 <= i < first.len() implies first[i] != '\n' by {
                assert(first[i] == src[p + i]);
            }
        }
        let rest = lines_from(src, j + 1);
        assert forall|i: int| 0 <= i < lines_from(src, p).len() implies free_of(
            #[trigger] lines_from(src, p)[i],
            '\n',
        ) by {
            if i > 0 {
                assert(lines_from(src, p)[i] == rest[i - 1]);
            }
        }
    }
}

/// Each `Text` token of the scan of lines with no line break holds neither
/// a line break nor some quote.
proof fn lemma_scan_lines_texts(ls: Seq<Seq<char>>, row: int)
    requires
        forall|i: int| 0 <= i < ls.len() ==> free_of(#[trigger] ls[i], '\n'),
        scan_lines(ls, row) is Ok,
    ensures
        forall|k: int|
            0 <= k < scan_lines(ls, row)->Ok_0.len() && (#[trigger] scan_lines(ls, row)->Ok_0[k]).0 is Text
                ==> exists|d: char|
                is_quote(d) && free_of(scan_lines(ls, row)->Ok_0[k].1, d) && free_of(
                    scan_lines(ls, row)->Ok_0[k].1,
                    '\n',
                ),
    decreases ls.len(),
{
    if ls.len() > 0 {
        let l = ls[0];
        let first = scan_line_spec(l, (row + 1) as u32)->Ok_0;
        assert(free_of(ls[0], '\n'));
        assert forall|i: int| 0 <= i < ls.drop_first().len() implies free_of(#[trigger] ls.drop_first()[i], '\n') by {
            assert(ls.drop_first()[i] == ls[i + 1]);
        }
        lemma_scan_lines_texts(ls.drop_first(), row + 1);
        lemma_text_free(l, alpha_flags(l), 0, (row + 1) as u32);
        let rest = scan_lines(ls.drop_first(), row + 1)->Ok_0;
        let all = scan_lines(ls, row)->Ok_0;
        assert(all == first + rest);
        assert forall|k: int| 0 <= k < all.len() && (#[trigger] all[k]).0 is Text implies exists|d: char|
            is_quote(d) && free_of(all[k].1, d) && free_of(all[k].1, '\n') by {
            if k < first.len() {
                assert(all[k] == first[k]);
                let x = first[k];
                assert(text_delimited(l, x));
                let d = l[x.3];
                assert forall|i: int| 0 <= i < x.1.len() implies x.1[i] != '\n' by {
                    assert(x.1[i] == l[x.3 + 1 + i]);
                }
                assert(is_quote(d) && free_of(x.1, d) && free_of(x.1, '\n'));
            } else {
                assert(all[k] == rest[k - first.len()]);
            }
        }
    }
}

/// The text `c` of any `Text` token that `Tokenizer::tokenize` gives for a
/// source of any number of lines scans again, between a quote it does not
/// hold, as a source of its own to one `Text` token with text `c`.
pub proof fn lemma_rescan_text_in_source(src: Seq<char>, row: int, k: int)
    requires
        scan_lines(lines_of(src), row) is Ok,
        0 <= k < scan_lines(lines_of(src), row)->Ok_0.len(),
        scan_lines(lines_of(src), row)->Ok_0[k].0 is Text,
    ensures
        exists|d: char|
            is_quote(d) && scan_lines(lines_of(seq![d] + scan_lines(lines_of(src), row)->Ok_0[k].1 + seq![d]), 0)
                == Ok::<Seq<Lexeme>, CompileError>(
                seq![(TokenType::Text, scan_lines(lines_of(src), row)->Ok_0[k].1, 1, 0)],
            ),
{
    lemma_lines_unbroken(src, 0);
    lemma_scan_lines_texts(lines_of(src), row);
    let c = scan_lines(lines_of(src), row)->Ok_0[k].1;
    let d = choose|d: char| is_quote(d) && free_of(c, d) && free_of(c, '\n');
    lemma_rescan_text_source(d, c);
}

/// When the lines before line `k` scan and line `k` fails, the scan of all
/// lines fails with line `k`'s error.
proof fn lemma_scan_lines_error(ls: Seq<Seq<char>>, row: int, k: int)
    requires
        0 <= k < ls.len(),
        forall|i: int| 0 <= i < k ==> (#[trigger] scan_line_spec(ls[i], (row + i + 1) as u32)) is Ok,
        scan_line_spec(ls[k], (row + k + 1) as u32) is Err,
    ensures
        scan_lines(ls, row) == scan_line_spec(ls[k], (row + k + 1) as u32),
    decreases k,
{
    if k > 0 {
        let rest = ls.drop_first();
        assert forall|i: int| 0 <= i < k - 1 implies (#[trigger] scan_line_spec(rest[i], (row + 1 + i + 1) as u32))
            is Ok by {
            assert(rest[i] == ls[i + 1]);
            assert(scan_line_spec(ls[i + 1], (row + (i + 1) + 1) as u32) is Ok);
        }
        assert(rest[k - 1] == ls[k]);
        assert((row + 1 + (k - 1) + 1) == row + k + 1);
        lemma_scan_lines_error(rest, row + 1, k - 1);
        assert(scan_line_spec(ls[0], (row + 0 + 1) as u32) is Ok);
    }
}

/// In a source of any number of lines: when the lines before line `k` scan
/// and line `k` opens a quote `d` after a part that scans (with no NUL, and
/// `d` not alphabetic) and never closes it, `Tokenizer::tokenize` fails with
/// a `LexError` on that line's row, at the quote's column.
pub proof fn lemma_unterminated_quote_in_source(src: Seq<char>, row: int, k: int, pre: Seq<char>, d: char, s: Seq<char>)
    requires
        0 <= k < lines_of(src).len(),
        forall|i: int| 0 <= i < k ==> (#[trigger] scan_line_spec(lines_of(src)[i], (row + i + 1) as u32)) is Ok,
        lines_of(src)[k] == pre + seq![d] + s,
        is_quote(d),
        !alphabetic(d),
        free_of(s, d),
        free_of(pre, '\0'),
        scan_from(pre, alpha_flags(pre), 0, (row + k + 1) as u32) is Ok,
    ensures
        scan_lines(lines_of(src), row) == Err::<Seq<Lexeme>, CompileError>(
            CompileError::LexError { row: (row + k + 1) as u32, col: pre.len() as u32 },
        ),
{
    let l = lines_of(src)[k];
    lemma_lines_unbroken(src, 0);
    assert(free_of(l, '\n'));
    assert(free_of(pre, '\n')) by {
        assert forall|i: int| 0 <= i < pre.len() implies pre[i] != '\n' by {
            assert(pre[i] == l[i]);
        }
    }
    let a = alpha_flags(l);
    assert(a[pre.len() as int] == alphabetic(l[pre.len() as int]));
    assert(l[pre.len() as int] == d);
    assert(a.take(pre.len() as int) =~= alpha_flags(pre)) by {
        assert forall|i: int| 0 <= i < pre.len() implies a.take(pre.len() as int)[i] == alpha_flags(pre)[i] by {
            assert(l[i] == pre[i]);
        }
    }
    lemma_unterminated_quote_after(pre, d, s, a, (row + k + 1) as u32);
    lemma_scan_lines_error(lines_of(src), row, k);
}

} // verus!
