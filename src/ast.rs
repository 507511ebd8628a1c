use vstd::prelude::*;
use crate::error::CompileError;
use crate::grammar;
use crate::grammar::{all_digits, climb, digits_value, int_literal, lemma_loosest, literal_value, loosest};
use crate::text::{chars_of, is_decimal_digit, is_digit};
use crate::token::{Operator, Token, TokenType, BLOCK_TAG};
use crate::tokenizer::{operator, Tokenizer};

verus! {

/// An expression of the language. A float literal keeps its text.
#[derive(Debug)]
pub enum Expression {
    Integer(i64),
    Float(String),
    Text(String),
    Boolean(bool),
    Ident(String),
    Operation(Box<Expression>, Operator, Box<Expression>),
    Call(Box<Expression>, Box<Vec<Expression>>),
    Use(Box<Expression>),
    Module(String, Box<Vec<Statement>>),
    Implement(String, Box<Vec<Statement>>),
    Class(String, Box<Vec<Statement>>),
    Struct(String, Box<Vec<Statement>>),
    Typed(Box<Expression>, Box<Expression>),
    /// A path, and whether it names a system library.
    Import(String, bool),
    /// A name, (parameter name, type name) pairs, a body and a declared
    /// return type.
    Function(String, Vec<(String, String)>, Box<Vec<Statement>>, Option<String>),
    IndexDot(Box<Expression>, Box<Expression>),
    IndexColon(Box<Expression>, Box<Expression>),
    IndexArray(Box<Expression>, Box<Expression>),
    Return(Box<Expression>),
}

/// A statement of the language.
#[derive(Debug)]
pub enum Statement {
    Assignment(String, Box<Expression>),
    Declaration(String, Box<Expression>),
    Block(Box<Vec<Statement>>),
    If(Box<Expression>, Box<Statement>),
    IfElse(Box<Expression>, Box<Statement>, Box<Statement>),
    Expression(Box<Expression>),
}

/// An expression as the specifications see it.
pub enum ExprModel {
    Integer(int),
    Float(Seq<char>),
    Text(Seq<char>),
    Boolean(bool),
    Ident(Seq<char>),
    Operation(Box<ExprModel>, Operator, Box<ExprModel>),
    Call(Box<ExprModel>, Seq<ExprModel>),
    Use(Box<ExprModel>),
    Module(Seq<char>, Seq<StmtModel>),
    Implement(Seq<char>, Seq<StmtModel>),
    Class(Seq<char>, Seq<StmtModel>),
    Struct(Seq<char>, Seq<StmtModel>),
    Typed(Box<ExprModel>, Box<ExprModel>),
    Import(Seq<char>, bool),
    Function(Seq<char>, Seq<(Seq<char>, Seq<char>)>, Seq<StmtModel>, Option<Seq<char>>),
    IndexDot(Box<ExprModel>, Box<ExprModel>),
    IndexColon(Box<ExprModel>, Box<ExprModel>),
    IndexArray(Box<ExprModel>, Box<ExprModel>),
    Return(Box<ExprModel>),
}

/// A statement as the specifications see it.
pub enum StmtModel {
    Assignment(Seq<char>, Box<ExprModel>),
    Declaration(Seq<char>, Box<ExprModel>),
    Block(Seq<StmtModel>),
    If(Box<ExprModel>, Box<StmtModel>),
    IfElse(Box<ExprModel>, Box<StmtModel>, Box<StmtModel>),
    Expression(Box<ExprModel>),
}

pub open spec fn params_model(ps: Seq<(String, String)>) -> Seq<(Seq<char>, Seq<char>)> {
    ps.map_values(|p: (String, String)| (p.0@, p.1@))
}

pub open spec fn name_model(n: Option<String>) -> Option<Seq<char>> {
    match n {
        Some(s) => Some(s@),
        None => None,
    }
}

pub open spec fn expr_model(e: Expression) -> ExprModel
    decreases e,
{
    match e {
        Expression::Integer(v) => ExprModel::Integer(v as int),
        Expression::Float(s) => ExprModel::Float(s@),
        Expression::Text(s) => ExprModel::Text(s@),
        Expression::Boolean(b) => ExprModel::Boolean(b),
        Expression::Ident(s) => ExprModel::Ident(s@),
        Expression::Operation(l, o, r) => ExprModel::Operation(
            Box::new(expr_model(*l)),
            o,
            Box::new(expr_model(*r)),
        ),
        Expression::Call(f, args) => ExprModel::Call(Box::new(expr_model(*f)), exprs_model(args@)),
        Expression::Use(x) => ExprModel::Use(Box::new(expr_model(*x))),
        Expression::Module(n, b) => ExprModel::Module(n@, stmts_model(b@)),
        Expression::Implement(n, b) => ExprModel::Implement(n@, stmts_model(b@)),
        Expression::Class(n, b) => ExprModel::Class(n@, stmts_model(b@)),
        Expression::Struct(n, b) => ExprModel::Struct(n@, stmts_model(b@)),
        Expression::Typed(x, t) => ExprModel::Typed(Box::new(expr_model(*x)), Box::new(expr_model(*t))),
        Expression::Import(p, s) => ExprModel::Import(p@, s),
        Expression::Function(n, ps, b, rt) => ExprModel::Function(
            n@,
            params_model(ps@),
            stmts_model(b@),
            name_model(rt),
        ),
        Expression::IndexDot(x, k) => ExprModel::IndexDot(Box::new(expr_model(*x)), Box::new(expr_model(*k))),
        Expression::IndexColon(x, k) => ExprModel::IndexColon(
            Box::new(expr_model(*x)),
            Box::new(expr_model(*k)),
        ),
        Expression::IndexArray(x, k) => ExprModel::IndexArray(
            Box::new(expr_model(*x)),
            Box::new(expr_model(*k)),
        ),
        Expression::Return(x) => ExprModel::Return(Box::new(expr_model(*x))),
    }
}

pub open spec fn exprs_model(s: Seq<Expression>) -> Seq<ExprModel>
    decreases s,
{
    if s.len() == 0 {
        Seq::empty()
    } else {
        exprs_model(s.drop_last()).push(expr_model(s.last()))
    }
}

pub open spec fn stmt_model(s: Statement) -> StmtModel
    decreases s,
{
    match s {
        Statement::Assignment(n, e) => StmtModel::Assignment(n@, Box::new(expr_model(*e))),
        Statement::Declaration(n, e) => StmtModel::Declaration(n@, Box::new(expr_model(*e))),
        Statement::Block(b) => StmtModel::Block(stmts_model(b@)),
        Statement::If(c, b) => StmtModel::If(Box::new(expr_model(*c)), Box::new(stmt_model(*b))),
        Statement::IfElse(c, b, e) => StmtModel::IfElse(
            Box::new(expr_model(*c)),
            Box::new(stmt_model(*b)),
            Box::new(stmt_model(*e)),
        ),
        Statement::Expression(e) => StmtModel::Expression(Box::new(expr_model(*e))),
    }
}

pub open spec fn stmts_model(s: Seq<Statement>) -> Seq<StmtModel>
    decreases s,
{
    if s.len() == 0 {
        Seq::empty()
    } else {
        stmts_model(s.drop_last()).push(stmt_model(s.last()))
    }
}

pub proof fn lemma_exprs_model(s: Seq<Expression>)
    ensures
        exprs_model(s).len() == s.len(),
        forall|i: int| 0 <= i < s.len() ==> exprs_model(s)[i] == expr_model(#[trigger] s[i]),
    decreases s.len(),
{
    if s.len() > 0 {
        lemma_exprs_model(s.drop_last());
        assert forall|i: int| 0 <= i < s.len() implies exprs_model(s)[i] == expr_model(#[trigger] s[i]) by {
            if i < s.len() - 1 {
                assert(s.drop_last()[i] == s[i]);
            }
        }
    }
}

pub proof fn lemma_stmts_model_push(s: Seq<Statement>, x: Statement)
    ensures
        stmts_model(s.push(x)) == stmts_model(s).push(stmt_model(x)),
{
    assert(s.push(x).drop_last() =~= s);
}

pub proof fn lemma_exprs_model_push(s: Seq<Expression>, x: Expression)
    ensures
        exprs_model(s.push(x)) == exprs_model(s).push(expr_model(x)),
{
    assert(s.push(x).drop_last() =~= s);
}

/// An expression parse that agrees with the grammar's result `s` for a
/// production started at `p` in a list of `n` tokens.
pub open spec fn expr_agrees(
    r: Result<(Expression, usize), CompileError>,
    s: Result<(ExprModel, int), CompileError>,
    p: int,
    n: int,
) -> bool {
    match s {
        Ok((m, q)) => r matches Ok((e, q2)) && expr_model(e) == m && q2 == q && p <= q < n,
        Err(err) => r == Err::<(Expression, usize), CompileError>(err),
    }
}

/// A statement parse that agrees with the grammar's result `s`.
pub open spec fn stmt_agrees(
    r: Result<(Statement, usize), CompileError>,
    s: Result<(StmtModel, int), CompileError>,
    p: int,
    n: int,
) -> bool {
    match s {
        Ok((m, q)) => r matches Ok((x, q2)) && stmt_model(x) == m && q2 == q && p <= q < n,
        Err(err) => r == Err::<(Statement, usize), CompileError>(err),
    }
}

/// A statement list that agrees with the grammar's result `s`.
pub open spec fn stmts_agree(r: Result<Vec<Statement>, CompileError>, s: Result<Seq<StmtModel>, CompileError>) -> bool {
    match s {
        Ok(m) => r matches Ok(v) && stmts_model(v@) == m,
        Err(err) => r == Err::<Vec<Statement>, CompileError>(err),
    }
}

fn err_at(t: &Token, expected: Option<u8>) -> (r: CompileError)
    ensures
        r == grammar::err_at(*t, expected),
{
    CompileError::SyntaxError { row: t.row, col: t.col, expected, found: t.token_type.tag() }
}

/// The error for a token required past the end of `toks`.
fn end_err(toks: &Vec<Token>, expected: Option<u8>) -> (r: CompileError)
    requires
        toks.len() > 0,
    ensures
        r == grammar::end_err(toks@, expected),
{
    err_at(&toks[toks.len() - 1], expected)
}

fn is_true(s: &String) -> (r: bool)
    ensures
        r == (s@ == "true"@),
{
    proof {
        reveal_strlit("true");
    }
    let c = s.as_str();
    if c.unicode_len() != 4 {
        return false;
    }
    let r = c.get_char(0) == 't' && c.get_char(1) == 'r' && c.get_char(2) == 'u' && c.get_char(3) == 'e';
    if r {
        assert(s@ =~= "true"@);
    }
    r
}

proof fn lemma_digits_nonneg(s: Seq<char>)
    requires
        forall|i: int| 0 <= i < s.len() ==> is_digit(#[trigger] s[i]),
    ensures
        digits_value(s) >= 0,
    decreases s.len(),
{
    if s.len() > 0 {
        lemma_digits_nonneg(s.drop_last());
        assert(is_digit(s[s.len() - 1]));
    }
}

proof fn lemma_digits_prefix(s: Seq<char>, k: int)
    requires
        0 <= k <= s.len(),
        forall|i: int| 0 <= i < s.len() ==> is_digit(#[trigger] s[i]),
    ensures
        0 <= digits_value(s.take(k)) <= digits_value(s),
    decreases s.len() - k,
{
    if k < s.len() {
        lemma_digits_prefix(s, k + 1);
        assert(s.take(k + 1).drop_last() =~= s.take(k));
        assert(is_digit(s[k]));
        lemma_digits_nonneg(s.take(k));
    } else {
        assert(s.take(k) =~= s);
        lemma_digits_nonneg(s);
    }
}

/// The value of the integer literal `s` when it fits in an `i64`.
fn int_value(s: &String) -> (r: Option<i64>)
    ensures
        r == match int_literal(s@) {
            Some(v) => Some(v as i64),
            None => None::<i64>,
        },
{
    let c = chars_of(s.as_str());
    let neg = c.len() > 0 && c[0] == '-';
    let start: usize = if neg { 1 } else { 0 };
    let ghost digits = if neg { s@.drop_first() } else { s@ };
    assert(digits =~= c@.skip(start as int));
    if start >= c.len() {
        assert(!all_digits(digits));
        assert(literal_value(s@) is None);
        return None;
    }
    let limit: u64 = if neg { 0x8000_0000_0000_0000 } else { 0x7fff_ffff_ffff_ffff };
    let mut acc: u64 = 0;
    let mut i = start;
    assert(c@.subrange(start as int, start as int) =~= Seq::<char>::empty());
    while i < c.len()
        invariant
            start <= i <= c.len(),
            start < c.len(),
            digits == c@.skip(start as int),
            c@ == s@,
            neg == (s@.len() > 0 && s@[0] == '-'),
            digits == if neg { s@.drop_first() } else { s@ },
            start == if neg { 1usize } else { 0usize },
            acc as int == digits_value(c@.subrange(start as int, i as int)),
            acc <= limit,
            limit == if neg { 0x8000_0000_0000_0000u64 } else { 0x7fff_ffff_ffff_ffffu64 },
            forall|k: int| start <= k < i ==> is_digit(#[trigger] c@[k]),
        decreases c.len() - i,
    {
        let ch = c[i];
        assert(c@.subrange(start as int, i + 1).drop_last() =~= c@.subrange(start as int, i as int));
        if !is_decimal_digit(ch) {
            assert(!is_digit(digits[i - start]));
            assert(literal_value(s@) is None);
            return None;
        }
        let d = (ch as u32 - '0' as u32) as u64;
        if acc > (limit - d) / 10 {
            proof {
                if all_digits(digits) {
                    lemma_digits_prefix(digits, i - start + 1);
                    assert(digits.take(i - start + 1) =~= c@.subrange(start as int, i + 1));
                    assert(digits_value(digits) > limit);
                    if neg {
                        assert(literal_value(s@) == Some(-digits_value(digits)));
                    } else {
                        assert(literal_value(s@) == Some(digits_value(digits)));
                    }
                } else {
                    assert(literal_value(s@) is None);
                }
            }
            return None;
        }
        acc = acc * 10 + d;
        i = i + 1;
    }
    assert(c@.subrange(start as int, i as int) =~= digits);
    assert(all_digits(digits));
    if neg {
        Some((0i128 - acc as i128) as i64)
    } else {
        Some(acc as i64)
    }
}

/// How tightly `o` binds; see `grammar::binding_rank`.
fn binding_rank(o: Operator) -> (r: u8)
    ensures
        r == grammar::binding_rank(o),
{
    match o {
        Operator::Mul | Operator::Div | Operator::Mod => 1,
        Operator::Plus | Operator::Minus => 2,
        Operator::Lt | Operator::Gt | Operator::LtEqual | Operator::GtEqual => 3,
        Operator::Equal | Operator::NEqual => 4,
    }
}

/// Index of the loosest operator of `os` by binding rank, the rightmost
/// among equals.
fn loosest_index(os: &Vec<(Operator, u8)>) -> (r: usize)
    requires
        os.len() > 0,
    ensures
        r == loosest(os@),
{
    let mut k: usize = 0;
    let mut i: usize = 1;
    assert(os@.take(1).len() == 1);
    while i < os.len()
        invariant
            1 <= i <= os.len(),
            k < i,
            k as int == loosest(os@.take(i as int)),
        decreases os.len() - i,
    {
        proof {
            assert(os@.take(i + 1).drop_last() =~= os@.take(i as int));
            lemma_loosest(os@.take(i as int));
        }
        if binding_rank(os[i].0) >= binding_rank(os[k].0) {
            k = i;
        }
        i = i + 1;
    }
    assert(os@.take(i as int) =~= os@);
    k
}

/// The tree of the operands `xs` joined by the operators `os`; see `climb`.
fn build_operation(xs: Vec<Expression>, os: Vec<(Operator, u8)>) -> (r: Expression)
    requires
        xs.len() == os.len() + 1,
    ensures
        expr_model(r) == climb(exprs_model(xs@), os@),
    decreases os.len(),
{
    let mut xs = xs;
    let mut os = os;
    proof {
        lemma_exprs_model(xs@);
    }
    if os.len() == 0 {
        return xs.remove(0);
    }
    let k = loosest_index(&os);
    proof {
        lemma_loosest(os@);
    }
    let ghost xs0 = xs@;
    let ghost os0 = os@;
    let right_xs = xs.split_off(k + 1);
    let right_os = os.split_off(k + 1);
    let (op, _) = match os.pop() {
        Some(x) => x,
        None => {
            return xs.remove(0);
        },
    };
    proof {
        lemma_exprs_model(xs@);
        lemma_exprs_model(right_xs@);
        lemma_exprs_model(xs0);
        assert(xs@ =~= xs0.take(k + 1));
        assert(right_xs@ =~= xs0.skip(k + 1));
        assert forall|i: int| 0 <= i < k + 1 implies exprs_model(xs@)[i] == exprs_model(xs0).take(k + 1)[i] by {
            assert(xs@[i] == xs0[i]);
        }
        assert forall|i: int| 0 <= i < right_xs@.len() implies exprs_model(right_xs@)[i] == exprs_model(
            xs0,
        ).skip(k + 1)[i] by {
            assert(right_xs@[i] == xs0[i + k + 1]);
        }
        assert(exprs_model(xs@) =~= exprs_model(xs0).take(k + 1));
        assert(exprs_model(right_xs@) =~= exprs_model(xs0).skip(k + 1));
        assert(os@ =~= os0.take(k as int));
        assert(right_os@ =~= os0.skip(k + 1));
    }
    let left = build_operation(xs, os);
    let right = build_operation(right_xs, right_os);
    Expression::Operation(Box::new(left), op, Box::new(right))
}

pub open spec fn glue_stmts(prefix: Seq<StmtModel>, r: Result<Seq<StmtModel>, CompileError>) -> Result<
    Seq<StmtModel>,
    CompileError,
> {
    match r {
        Ok(ss) => Ok(prefix + ss),
        Err(e) => Err(e),
    }
}

pub open spec fn glue_args(prefix: Seq<ExprModel>, r: Result<(Seq<ExprModel>, int), CompileError>) -> Result<
    (Seq<ExprModel>, int),
    CompileError,
> {
    match r {
        Ok((es, q)) => Ok((prefix + es, q)),
        Err(e) => Err(e),
    }
}

pub open spec fn glue_chain(
    xs: Seq<ExprModel>,
    os: Seq<(Operator, u8)>,
    r: Result<(Seq<ExprModel>, Seq<(Operator, u8)>, int), CompileError>,
) -> Result<(Seq<ExprModel>, Seq<(Operator, u8)>, int), CompileError> {
    match r {
        Ok((a, b, q)) => Ok((xs + a, os + b, q)),
        Err(e) => Err(e),
    }
}

pub open spec fn glue_params(
    prefix: Seq<(Seq<char>, Seq<char>)>,
    r: Result<(Seq<(Seq<char>, Seq<char>)>, int), CompileError>,
) -> Result<(Seq<(Seq<char>, Seq<char>)>, int), CompileError> {
    match r {
        Ok((ps, q)) => Ok((prefix + ps, q)),
        Err(e) => Err(e),
    }
}

/// The statements from `p0` on.
fn parse_statements(toks: &Vec<Token>, p0: usize) -> (r: Result<Vec<Statement>, CompileError>)
    requires
        p0 <= toks.len(),
    ensures
        stmts_agree(r, grammar::parse_from(toks@, p0 as int)),
    decreases toks@, toks@.len() - p0, 9nat,
{
    let mut out: Vec<Statement> = Vec::new();
    let mut p = p0;
    proof {
        match grammar::parse_from(toks@, p0 as int) {
            Ok(ss) => {
                assert(stmts_model(out@) + ss =~= ss);
            },
            Err(_) => {},
        }
    }
    while p < toks.len()
        invariant
            p0 <= p <= toks.len(),
            grammar::parse_from(toks@, p0 as int) == glue_stmts(
                stmts_model(out@),
                grammar::parse_from(toks@, p as int),
            ),
        decreases toks.len() - p,
    {
        match statement(toks, p) {
            Err(e) => {
                return Err(e);
            },
            Ok((st, q)) => {
                let ghost before = out@;
                proof {
                    lemma_stmts_model_push(before, st);
                    match grammar::parse_from(toks@, q + 1) {
                        Ok(ss) => {
                            assert(stmts_model(before) + (seq![stmt_model(st)] + ss) =~= stmts_model(
                                before.push(st),
                            ) + ss);
                        },
                        Err(_) => {},
                    }
                }
                out.push(st);
                p = q + 1;
            },
        }
    }
    proof {
        match grammar::parse_from(toks@, p0 as int) {
            Ok(ss) => {
                assert(stmts_model(out@) + Seq::empty() =~= stmts_model(out@));
            },
            Err(_) => {},
        }
    }
    Ok(out)
}

/// The statements of the block token at `p`.
fn block(toks: &Vec<Token>, p: usize) -> (r: Result<Vec<Statement>, CompileError>)
    requires
        toks.len() > 0,
    ensures
        stmts_agree(r, grammar::block(toks@, p as int)),
    decreases toks@, toks@.len() - p, 0nat,
{
    if p >= toks.len() {
        return Err(end_err(toks, Some(BLOCK_TAG)));
    }
    match &toks[p].token_type {
        TokenType::Block(w) => {
            assert(decreases_to!(toks@ => w@)) by {
                assert(decreases_to!(toks@ => toks@[p as int]));
                assert(decreases_to!(toks@[p as int] => toks@[p as int].token_type));
                assert(decreases_to!(toks@[p as int].token_type => *w));
                assert(decreases_to!(*w => w@));
            }
            parse_statements(w, 0)
        },
        _ => Err(err_at(&toks[p], Some(BLOCK_TAG))),
    }
}

fn statement(toks: &Vec<Token>, p: usize) -> (r: Result<(Statement, usize), CompileError>)
    requires
        toks.len() > 0,
    ensures
        stmt_agrees(r, grammar::statement(toks@, p as int), p as int, toks@.len() as int),
    decreases toks@, toks@.len() - p, 8nat,
{
    let n = toks.len();
    if p >= n {
        return Err(end_err(toks, None));
    }
    match &toks[p].token_type {
        TokenType::Ident => {
            if p + 1 < n && matches!(toks[p + 1].token_type, TokenType::Assign) {
                match expression(toks, p + 2) {
                    Err(e) => Err(e),
                    Ok((e, q)) => Ok((Statement::Assignment(toks[p].content.clone(), Box::new(e)), q)),
                }
            } else {
                match expression(toks, p) {
                    Err(e) => Err(e),
                    Ok((e, q)) => Ok((Statement::Expression(Box::new(e)), q)),
                }
            }
        },
        TokenType::Let => {
            if n - p <= 2 {
                Err(end_err(toks, Some(TokenType::Assign.tag())))
            } else if !matches!(toks[p + 2].token_type, TokenType::Assign) {
                Err(err_at(&toks[p + 2], Some(TokenType::Assign.tag())))
            } else {
                match expression(toks, p + 3) {
                    Err(e) => Err(e),
                    Ok((e, q)) => Ok((Statement::Declaration(toks[p + 1].content.clone(), Box::new(e)), q)),
                }
            }
        },
        TokenType::If => {
            if p + 1 >= n {
                return Err(end_err(toks, None));
            }
            match expression(toks, p + 1) {
                Err(e) => Err(e),
                Ok((c, q)) => match block(toks, q + 1) {
                    Err(e) => Err(e),
                    Ok(body) => {
                        let then_part = Statement::Block(Box::new(body));
                        assert(stmt_model(then_part) == StmtModel::Block(stmts_model(body@)));
                        if q + 2 < n && matches!(toks[q + 2].token_type, TokenType::Else) {
                            match block(toks, q + 3) {
                                Err(e) => Err(e),
                                Ok(other) => {
                                    let else_part = Statement::Block(Box::new(other));
                                    assert(stmt_model(else_part) == StmtModel::Block(stmts_model(other@)));
                                    Ok((Statement::IfElse(Box::new(c), Box::new(then_part), Box::new(else_part)), q + 3))
                                },
                            }
                        } else {
                            Ok((Statement::If(Box::new(c), Box::new(then_part)), q + 1))
                        }
                    },
                },
            }
        },
        _ => match expression(toks, p) {
            Err(e) => Err(e),
            Ok((e, q)) => Ok((Statement::Expression(Box::new(e)), q)),
        },
    }
}

fn expression(toks: &Vec<Token>, p: usize) -> (r: Result<(Expression, usize), CompileError>)
    requires
        toks.len() > 0,
    ensures
        expr_agrees(r, grammar::expression(toks@, p as int), p as int, toks@.len() as int),
    decreases toks@, toks@.len() - p, 7nat,
{
    let n = toks.len();
    if p >= n {
        return Err(end_err(toks, None));
    }
    match term(toks, p) {
        Err(e) => Err(e),
        Ok((e, q)) => {
            if q + 1 < n && matches!(toks[q + 1].token_type, TokenType::Operator) {
                operation(toks, e, q + 1)
            } else {
                Ok((e, q))
            }
        },
    }
}

/// The operation that starts with `seed` and the operator at `p`.
fn operation(toks: &Vec<Token>, seed: Expression, p: usize) -> (r: Result<(Expression, usize), CompileError>)
    requires
        p < toks.len(),
    ensures
        expr_agrees(r, grammar::operation(toks@, expr_model(seed), p as int), p as int, toks@.len() as int),
    decreases toks@, toks@.len() - p, 2nat,
{
    let n = toks.len();
    let mut xs: Vec<Expression> = Vec::new();
    let mut os: Vec<(Operator, u8)> = Vec::new();
    let mut i = p;
    proof {
        lemma_exprs_model(xs@);
        match grammar::op_chain(toks@, p as int) {
            Ok((a, b, q)) => {
                assert(exprs_model(xs@) + a =~= a);
                assert(os@ + b =~= b);
            },
            Err(_) => {},
        }
    }
    loop
        invariant
            p <= i < n,
            n == toks.len(),
            xs.len() == os.len(),
            grammar::op_chain(toks@, p as int) == glue_chain(
                exprs_model(xs@),
                os@,
                grammar::op_chain(toks@, i as int),
            ),
        decreases n - i,
    {
        let op = match operator(toks[i].content.as_str()) {
            None => {
                return Err(err_at(&toks[i], None));
            },
            Some(o) => o,
        };
        match term(toks, i + 1) {
            Err(e) => {
                return Err(e);
            },
            Ok((t, q)) => {
                let ghost xs0 = xs@;
                let ghost os0 = os@;
                proof {
                    lemma_exprs_model_push(xs0, t);
                }
                xs.push(t);
                os.push(op);
                if q + 1 < n && matches!(toks[q + 1].token_type, TokenType::Operator) {
                    proof {
                        match grammar::op_chain(toks@, q + 1) {
                            Ok((a, b, r)) => {
                                assert(exprs_model(xs0) + (seq![expr_model(t)] + a) =~= exprs_model(xs@) + a);
                                assert(os0 + (seq![op] + b) =~= os@ + b);
                            },
                            Err(_) => {},
                        }
                    }
                    i = q + 1;
                } else {
                    let ghost tail = exprs_model(xs@);
                    let ghost xs1 = xs@;
                    proof {
                        assert(exprs_model(xs0) + seq![expr_model(t)] =~= tail);
                        assert(os0 + seq![op] =~= os@);
                        lemma_exprs_model(xs@);
                    }
                    xs.insert(0, seed);
                    proof {
                        lemma_exprs_model(xs@);
                        assert forall|k: int| 0 <= k < xs@.len() implies exprs_model(xs@)[k] == (seq![
                            expr_model(seed),
                        ] + tail)[k] by {
                            if k > 0 {
                                assert(xs@[k] == xs1[k - 1]);
                            }
                        }
                        assert(exprs_model(xs@) =~= seq![expr_model(seed)] + tail);
                    }
                    return Ok((build_operation(xs, os), q));
                }
            },
        }
    }
}

fn term(toks: &Vec<Token>, p: usize) -> (r: Result<(Expression, usize), CompileError>)
    requires
        toks.len() > 0,
    ensures
        expr_agrees(r, grammar::term(toks@, p as int), p as int, toks@.len() as int),
    decreases toks@, toks@.len() - p, 6nat,
{
    let n = toks.len();
    if p >= n {
        return Err(end_err(toks, None));
    }
    let t = &toks[p];
    match &t.token_type {
        TokenType::Integer => match int_value(&t.content) {
            Some(v) => Ok((Expression::Integer(v), p)),
            None => Err(err_at(t, None)),
        },
        TokenType::Float => Ok((Expression::Float(t.content.clone()), p)),
        TokenType::Boolean => Ok((Expression::Boolean(is_true(&t.content)), p)),
        TokenType::Text => Ok((Expression::Text(t.content.clone()), p)),
        TokenType::Ident => match postfix(toks, Expression::Ident(t.content.clone()), p) {
            Err(e) => Err(e),
            Ok((e, q)) => {
                if q + 1 < n && matches!(toks[q + 1].token_type, TokenType::Colon) {
                    if q + 2 >= n {
                        Err(end_err(toks, Some(TokenType::Ident.tag())))
                    } else if !matches!(toks[q + 2].token_type, TokenType::Ident) {
                        Err(err_at(&toks[q + 2], Some(TokenType::Ident.tag())))
                    } else {
                        match term(toks, q + 2) {
                            Err(e2) => Err(e2),
                            Ok((ty, r)) => Ok((Expression::Typed(Box::new(e), Box::new(ty)), r)),
                        }
                    }
                } else {
                    Ok((e, q))
                }
            },
        },
        TokenType::LParen => match expression(toks, p + 1) {
            Err(e) => Err(e),
            Ok((e, q)) => {
                if q + 1 >= n {
                    Err(end_err(toks, Some(TokenType::RParen.tag())))
                } else if !matches!(toks[q + 1].token_type, TokenType::RParen) {
                    Err(err_at(&toks[q + 1], Some(TokenType::RParen.tag())))
                } else {
                    postfix(toks, e, q + 1)
                }
            },
        },
        TokenType::Module => {
            if p + 1 >= n {
                return Err(end_err(toks, None));
            }
            match block(toks, p + 2) {
                Err(e) => Err(e),
                Ok(body) => Ok((Expression::Module(toks[p + 1].content.clone(), Box::new(body)), p + 2)),
            }
        },
        TokenType::Class => {
            if p + 1 >= n {
                return Err(end_err(toks, None));
            }
            match block(toks, p + 2) {
                Err(e) => Err(e),
                Ok(body) => Ok((Expression::Class(toks[p + 1].content.clone(), Box::new(body)), p + 2)),
            }
        },
        TokenType::Implement => {
            if p + 1 >= n {
                return Err(end_err(toks, None));
            }
            match block(toks, p + 2) {
                Err(e) => Err(e),
                Ok(body) => Ok((Expression::Implement(toks[p + 1].content.clone(), Box::new(body)), p + 2)),
            }
        },
        TokenType::Struct => {
            if p + 1 >= n {
                return Err(end_err(toks, None));
            }
            match block(toks, p + 2) {
                Err(e) => Err(e),
                Ok(body) => Ok((Expression::Struct(toks[p + 1].content.clone(), Box::new(body)), p + 2)),
            }
        },
        TokenType::Import => {
            if p + 1 >= n {
                Err(end_err(toks, Some(TokenType::Text.tag())))
            } else if !matches!(toks[p + 1].token_type, TokenType::Text) {
                Err(err_at(&toks[p + 1], Some(TokenType::Text.tag())))
            } else if p + 2 < n && matches!(toks[p + 2].token_type, TokenType::Library) {
                Ok((Expression::Import(toks[p + 1].content.clone(), true), p + 2))
            } else {
                Ok((Expression::Import(toks[p + 1].content.clone(), false), p + 1))
            }
        },
        TokenType::Use => match term(toks, p + 1) {
            Err(e) => Err(e),
            Ok((e, q)) => Ok((Expression::Use(Box::new(e)), q)),
        },
        TokenType::Def => {
            if p + 1 >= n {
                return Err(end_err(toks, None));
            }
            match params(toks, p + 2) {
                Err(e) => Err(e),
                Ok((ps, q)) => {
                    let has_ret = q < n && matches!(toks[q].token_type, TokenType::Arrow);
                    if has_ret && q + 1 >= n {
                        return Err(end_err(toks, None));
                    }
                    let b = if has_ret {
                        q + 2
                    } else {
                        q
                    };
                    let ret = if has_ret {
                        Some(toks[q + 1].content.clone())
                    } else {
                        None
                    };
                    match block(toks, b) {
                        Err(e) => Err(e),
                        Ok(body) => Ok(
                            (Expression::Function(toks[p + 1].content.clone(), ps, Box::new(body), ret), b),
                        ),
                    }
                },
            }
        },
        TokenType::Return => match expression(toks, p + 1) {
            Err(e) => Err(e),
            Ok((e, q)) => Ok((Expression::Return(Box::new(e)), q)),
        },
        _ => Err(err_at(t, None)),
    }
}

/// `base`, whose last token is at `p`, with what extends it.
fn postfix(toks: &Vec<Token>, base: Expression, p: usize) -> (r: Result<(Expression, usize), CompileError>)
    requires
        p < toks.len(),
    ensures
        expr_agrees(r, grammar::postfix(toks@, expr_model(base), p as int), p as int, toks@.len() as int),
    decreases toks@, toks@.len() - p, 5nat,
{
    let n = toks.len();
    let ghost start = expr_model(base);
    let mut cur = base;
    let mut i = p;
    loop
        invariant
            p <= i < n,
            n == toks.len(),
            start == expr_model(base),
            grammar::postfix(toks@, start, p as int) == grammar::postfix(toks@, expr_model(cur), i as int),
        decreases n - i,
    {
        if i + 1 >= n {
            return Ok((cur, i));
        }
        let ghost m = expr_model(cur);
        match &toks[i + 1].token_type {
            TokenType::Period => {
                if i + 2 >= n {
                    return Err(end_err(toks, Some(TokenType::Ident.tag())));
                }
                if !matches!(toks[i + 2].token_type, TokenType::Ident) {
                    return Err(err_at(&toks[i + 2], Some(TokenType::Ident.tag())));
                }
                let key = Expression::Ident(toks[i + 2].content.clone());
                assert(expr_model(key) == ExprModel::Ident(toks@[i + 2].content@));
                cur = Expression::IndexDot(Box::new(cur), Box::new(key));
                assert(grammar::postfix(toks@, m, i as int) == grammar::postfix(toks@, expr_model(cur), i + 2));
                i = i + 2;
            },
            TokenType::Colon => {
                if i + 2 < n && matches!(toks[i + 2].token_type, TokenType::Colon) {
                    if i + 3 >= n {
                        return Err(end_err(toks, Some(TokenType::Ident.tag())));
                    }
                    if !matches!(toks[i + 3].token_type, TokenType::Ident) {
                        return Err(err_at(&toks[i + 3], Some(TokenType::Ident.tag())));
                    }
                    let key = Expression::Ident(toks[i + 3].content.clone());
                    assert(expr_model(key) == ExprModel::Ident(toks@[i + 3].content@));
                    cur = Expression::IndexColon(Box::new(cur), Box::new(key));
                    assert(grammar::postfix(toks@, m, i as int) == grammar::postfix(toks@, expr_model(cur), i + 3));
                    i = i + 3;
                } else {
                    return Ok((cur, i));
                }
            },
            TokenType::LBracket => {
                match expression(toks, i + 2) {
                    Err(e) => {
                        return Err(e);
                    },
                    Ok((k, q)) => {
                        if q + 1 >= n {
                            return Err(end_err(toks, Some(TokenType::RBracket.tag())));
                        }
                        if !matches!(toks[q + 1].token_type, TokenType::RBracket) {
                            return Err(err_at(&toks[q + 1], Some(TokenType::RBracket.tag())));
                        }
                        cur = Expression::IndexArray(Box::new(cur), Box::new(k));
                        assert(grammar::postfix(toks@, m, i as int) == grammar::postfix(toks@, expr_model(cur), q + 1));
                        i = q + 1;
                    },
                }
            },
            TokenType::LParen => {
                match call_args(toks, i + 2) {
                    Err(e) => {
                        return Err(e);
                    },
                    Ok((args, q)) => {
                        cur = Expression::Call(Box::new(cur), Box::new(args));
                        assert(grammar::postfix(toks@, m, i as int) == grammar::postfix(toks@, expr_model(cur), q as int));
                        i = q;
                    },
                }
            },
            _ => {
                return Ok((cur, i));
            },
        }
    }
}

/// The arguments of a call from `p0` to the closing `)`, and its index.
fn call_args(toks: &Vec<Token>, p0: usize) -> (r: Result<(Vec<Expression>, usize), CompileError>)
    requires
        0 < toks.len(),
        p0 <= toks.len(),
    ensures
        match grammar::call_args(toks@, p0 as int) {
            Ok((m, q)) => r matches Ok((v, q2)) && exprs_model(v@) == m && q2 == q && p0 <= q < toks.len(),
            Err(e) => r == Err::<(Vec<Expression>, usize), CompileError>(e),
        },
    decreases toks@, toks@.len() - p0, 10nat,
{
    let n = toks.len();
    let mut args: Vec<Expression> = Vec::new();
    let mut p = p0;
    proof {
        match grammar::call_args(toks@, p0 as int) {
            Ok((es, q)) => {
                assert(exprs_model(args@) + es =~= es);
            },
            Err(_) => {},
        }
    }
    loop
        invariant
            p0 <= p <= n,
            0 < n,
            n == toks.len(),
            grammar::call_args(toks@, p0 as int) == glue_args(exprs_model(args@), grammar::call_args(toks@, p as int)),
        decreases n - p,
    {
        if p >= n {
            return Err(end_err(toks, Some(TokenType::RParen.tag())));
        }
        if matches!(toks[p].token_type, TokenType::RParen) {
            proof {
                assert(exprs_model(args@) + Seq::empty() =~= exprs_model(args@));
            }
            return Ok((args, p));
        }
        match expression(toks, p) {
            Err(e) => {
                return Err(e);
            },
            Ok((e, q)) => {
                let ghost before = args@;
                proof {
                    lemma_exprs_model_push(before, e);
                }
                args.push(e);
                let j = if q + 1 < n && matches!(toks[q + 1].token_type, TokenType::Comma) {
                    q + 2
                } else {
                    q + 1
                };
                proof {
                    match grammar::call_args(toks@, j as int) {
                        Ok((es, r)) => {
                            assert(exprs_model(before) + (seq![expr_model(e)] + es) =~= exprs_model(args@) + es);
                        },
                        Err(_) => {},
                    }
                }
                p = j;
            },
        }
    }
}

/// The parameters of a function from `p0` on, and the index of the token
/// after them.
fn params(toks: &Vec<Token>, p0: usize) -> (r: Result<(Vec<(String, String)>, usize), CompileError>)
    requires
        0 < toks.len(),
        p0 <= toks.len(),
    ensures
        match grammar::params(toks@, p0 as int) {
            Ok((m, q)) => r matches Ok((v, q2)) && params_model(v@) == m && q2 == q && p0 <= q <= toks.len(),
            Err(e) => r == Err::<(Vec<(String, String)>, usize), CompileError>(e),
        },
{
    let n = toks.len();
    let mut out: Vec<(String, String)> = Vec::new();
    let mut p = p0;
    proof {
        match grammar::params(toks@, p0 as int) {
            Ok((ps, q)) => {
                assert(params_model(out@) + ps =~= ps);
            },
            Err(_) => {},
        }
    }
    while p < n && matches!(toks[p].token_type, TokenType::Ident)
        invariant
            p0 <= p <= n,
            0 < n,
            n == toks.len(),
            grammar::params(toks@, p0 as int) == glue_params(params_model(out@), grammar::params(toks@, p as int)),
        decreases n - p,
    {
        if p + 1 >= n {
            return Err(end_err(toks, Some(TokenType::Colon.tag())));
        }
        if !matches!(toks[p + 1].token_type, TokenType::Colon) {
            return Err(err_at(&toks[p + 1], Some(TokenType::Colon.tag())));
        }
        if p + 2 >= n {
            return Err(end_err(toks, None));
        }
        let pair = (toks[p].content.clone(), toks[p + 2].content.clone());
        let ghost before = out@;
        out.push(pair);
        let j = if p + 3 < n && matches!(toks[p + 3].token_type, TokenType::Comma) {
            p + 4
        } else {
            p + 3
        };
        proof {
            assert(params_model(out@) =~= params_model(before).push((pair.0@, pair.1@)));
            match grammar::params(toks@, j as int) {
                Ok((ps, r)) => {
                    assert(params_model(before) + (seq![(pair.0@, pair.1@)] + ps) =~= params_model(out@) + ps);
                },
                Err(_) => {},
            }
        }
        p = j;
    }
    proof {
        match grammar::params(toks@, p0 as int) {
            Ok((ps, q)) => {
                assert(params_model(out@) + Seq::empty() =~= params_model(out@));
            },
            Err(_) => {},
        }
    }
    Ok((out, p))
}

/// Parses the token list of a `Tokenizer` from its cursor on.
#[derive(Debug)]
pub struct Parser {
    pub tokenizer: Tokenizer,
}

impl Parser {
    pub fn new() -> (r: Parser)
        ensures
            r.tokenizer.tokens@.len() == 0,
            r.tokenizer.top == 0,
    {
        Parser { tokenizer: Tokenizer::new() }
    }

    pub fn from(tokenizer: Tokenizer) -> (r: Parser)
        ensures
            r.tokenizer == tokenizer,
    {
        Parser { tokenizer }
    }

    /// The statements from the cursor to the end of the token list, as the
    /// grammar gives them; on success the cursor ends past the last token.
    pub fn parse(&mut self) -> (r: Result<Vec<Statement>, CompileError>)
        requires
            old(self).tokenizer.wf(),
        ensures
            stmts_agree(r, grammar::parse_from(old(self).tokenizer.tokens@, old(self).tokenizer.top as int)),
            final(self).tokenizer.tokens == old(self).tokenizer.tokens,
            r is Ok ==> final(self).tokenizer.top == final(self).tokenizer.tokens.len(),
    {
        let r = parse_statements(&self.tokenizer.tokens, self.tokenizer.top);
        if r.is_ok() {
            self.tokenizer.top = self.tokenizer.tokens.len();
        }
        r
    }
}

} // verus!
