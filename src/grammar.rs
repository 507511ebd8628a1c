//! The grammar of the language, as functions from a token list and a
//! position to a parse. Each production starts at a position and, on
//! success, gives the index of the last token it took.

use vstd::prelude::*;
use crate::ast::{ExprModel, StmtModel};
use crate::error::CompileError;
use crate::text::is_digit;
use crate::token::{Operator, Token, TokenType, BLOCK_TAG};
use crate::tokenizer::op_table;

verus! {

/// The syntax error that points at token `t` and names its kind's tag;
/// `expected` is the tag of the kind that was required there, if one kind
/// was.
pub open spec fn err_at(t: Token, expected: Option<u8>) -> CompileError {
    CompileError::SyntaxError { row: t.row, col: t.col, expected, found: t.token_type.spec_tag() }
}

/// The tag of kind `k`, as the kind a syntax error expected.
pub open spec fn want(k: TokenType) -> Option<u8> {
    Some(k.spec_tag())
}

/// The syntax error for a token that is required past the end of `toks`:
/// it points at the last token, where a cursor that stops at the end stays.
pub open spec fn end_err(toks: Seq<Token>, expected: Option<u8>) -> CompileError {
    err_at(toks.last(), expected)
}

/// `q` when it is a position in `p..n`, else `p`.
pub open spec fn adv(p: int, q: int, n: int) -> int {
    if p <= q < n {
        q
    } else {
        p
    }
}

pub open spec fn all_digits(s: Seq<char>) -> bool {
    s.len() > 0 && forall|i: int| 0 <= i < s.len() ==> is_digit(#[trigger] s[i])
}

/// The value of a string of decimal digits.
pub open spec fn digits_value(s: Seq<char>) -> int
    decreases s.len(),
{
    if s.len() == 0 {
        0
    } else {
        digits_value(s.drop_last()) * 10 + (s.last() as int - '0' as int)
    }
}

/// The value of an integer literal: an optional `-`, then decimal digits.
pub open spec fn literal_value(s: Seq<char>) -> Option<int> {
    if s.len() > 0 && s[0] == '-' {
        if all_digits(s.drop_first()) {
            Some(-digits_value(s.drop_first()))
        } else {
            None
        }
    } else if all_digits(s) {
        Some(digits_value(s))
    } else {
        None
    }
}

/// The value of an integer literal that fits in an `i64`.
pub open spec fn int_literal(s: Seq<char>) -> Option<int> {
    match literal_value(s) {
        Some(v) => if i64::MIN <= v <= i64::MAX {
            Some(v)
        } else {
            None
        },
        None => None,
    }
}

/// How tightly an operator binds, 1 binding tightest: `*`, `/`, `%`; then
/// `+`, `-`; then the comparisons `<`, `>`, `<=`, `>=`; then the equality
/// operators `==`, `!=`. Comparison binds tighter than equality, so
/// `1 < 2 == true` groups as `(1 < 2) == true`. The parser orders operators
/// by this rank, not by the tier numbers of the operator table.
pub open spec fn binding_rank(o: Operator) -> u8 {
    match o {
        Operator::Mul | Operator::Div | Operator::Mod => 1,
        Operator::Plus | Operator::Minus => 2,
        Operator::Lt | Operator::Gt | Operator::LtEqual | Operator::GtEqual => 3,
        Operator::Equal | Operator::NEqual => 4,
    }
}

/// The binding rank of an operator as the table gives it.
pub open spec fn rank(o: (Operator, u8)) -> u8 {
    binding_rank(o.0)
}

/// Index of the loosest operator of `os` by binding rank, the rightmost one
/// among equals.
pub open spec fn loosest(os: Seq<(Operator, u8)>) -> int
    decreases os.len(),
{
    if os.len() <= 1 {
        0
    } else {
        let k = loosest(os.drop_last());
        if rank(os.last()) >= rank(os[k]) {
            os.len() - 1
        } else {
            k
        }
    }
}

pub proof fn lemma_loosest(os: Seq<(Operator, u8)>)
    requires
        os.len() > 0,
    ensures
        0 <= loosest(os) < os.len(),
        forall|i: int| 0 <= i < os.len() ==> rank(#[trigger] os[i]) <= rank(os[loosest(os)]),
        forall|i: int| loosest(os) < i < os.len() ==> rank(#[trigger] os[i]) < rank(os[loosest(os)]),
    decreases os.len(),
{
    if os.len() > 1 {
        lemma_loosest(os.drop_last());
        let k = loosest(os.drop_last());
        assert forall|i: int| 0 <= i < os.len() - 1 implies #[trigger] os[i] == os.drop_last()[i] by {}
    }
}

/// The tree of the operands `xs` joined by the operators `os`: the root is
/// the loosest operator, the rightmost among equals, so that tighter tiers
/// bind first and equal tiers associate to the left.
/// Looseness is the `binding_rank`, where comparison binds tighter than
/// equality.
pub open spec fn climb(xs: Seq<ExprModel>, os: Seq<(Operator, u8)>) -> ExprModel
    decreases os.len(),
{
    if os.len() == 0 {
        xs[0]
    } else {
        let k = loosest(os);
        proof {
            lemma_loosest(os);
        }
        ExprModel::Operation(
            Box::new(climb(xs.take(k + 1), os.take(k))),
            os[k].0,
            Box::new(climb(xs.skip(k + 1), os.skip(k + 1))),
        )
    }
}

/// The statements of `toks` from `p` on.
pub open spec fn parse_from(toks: Seq<Token>, p: int) -> Result<Seq<StmtModel>, CompileError>
    decreases toks, toks.len() - p, 9nat,
{
    if p < 0 || p >= toks.len() {
        Ok(Seq::empty())
    } else {
        match statement(toks, p) {
            Err(e) => Err(e),
            Ok((s, q0)) => {
                let q = adv(p, q0, toks.len() as int);
                match parse_from(toks, q + 1) {
                    Err(e) => Err(e),
                    Ok(ss) => Ok(seq![s] + ss),
                }
            },
        }
    }
}

/// The statements of a whole token list.
pub open spec fn parse_tokens(toks: Seq<Token>) -> Result<Seq<StmtModel>, CompileError> {
    parse_from(toks, 0)
}

/// The statements of the block token at `p`.
pub open spec fn block(toks: Seq<Token>, p: int) -> Result<Seq<StmtModel>, CompileError>
    decreases toks, toks.len() - p, 0nat,
{
    if p < 0 || p >= toks.len() {
        Err(end_err(toks, Some(BLOCK_TAG)))
    } else {
        match toks[p].token_type {
            TokenType::Block(w) => {
                proof {
                    assert(decreases_to!(toks => w@)) by {
                        assert(decreases_to!(toks => toks[p]));
                        assert(decreases_to!(toks[p] => toks[p].token_type));
                        assert(decreases_to!(toks[p].token_type => w));
                        assert(decreases_to!(w => w@));
                    }
                }
                parse_from(w@, 0)
            },
            _ => Err(err_at(toks[p], Some(BLOCK_TAG))),
        }
    }
}

/// One statement from `p`: an assignment `name = expr`, a declaration
/// `var name = expr`, an `if` with a block and an optional `else` block, or
/// an expression.
pub open spec fn statement(toks: Seq<Token>, p: int) -> Result<(StmtModel, int), CompileError>
    decreases toks, toks.len() - p, 8nat,
{
    let n = toks.len() as int;
    if p < 0 || p >= n {
        Err(end_err(toks, None))
    } else {
        match toks[p].token_type {
            TokenType::Ident => if p + 1 < n && toks[p + 1].token_type is Assign {
                match expression(toks, p + 2) {
                    Err(e) => Err(e),
                    Ok((e, q)) => Ok((StmtModel::Assignment(toks[p].content@, Box::new(e)), q)),
                }
            } else {
                match expression(toks, p) {
                    Err(e) => Err(e),
                    Ok((e, q)) => Ok((StmtModel::Expression(Box::new(e)), q)),
                }
            },
            TokenType::Let => if p + 2 >= n {
                Err(end_err(toks, want(TokenType::Assign)))
            } else if !(toks[p + 2].token_type is Assign) {
                Err(err_at(toks[p + 2], want(TokenType::Assign)))
            } else {
                match expression(toks, p + 3) {
                    Err(e) => Err(e),
                    Ok((e, q)) => Ok((StmtModel::Declaration(toks[p + 1].content@, Box::new(e)), q)),
                }
            },
            TokenType::If => if p + 1 >= n {
                Err(end_err(toks, None))
            } else {
                match expression(toks, p + 1) {
                Err(e) => Err(e),
                Ok((c, q0)) => {
                    let q = adv(p + 1, q0, n);
                    match block(toks, q + 1) {
                        Err(e) => Err(e),
                        Ok(body) => if q + 2 < n && toks[q + 2].token_type is Else {
                            match block(toks, q + 3) {
                                Err(e) => Err(e),
                                Ok(other) => Ok(
                                    (
                                        StmtModel::IfElse(
                                            Box::new(c),
                                            Box::new(StmtModel::Block(body)),
                                            Box::new(StmtModel::Block(other)),
                                        ),
                                        q + 3,
                                    ),
                                ),
                            }
                        } else {
                            Ok((StmtModel::If(Box::new(c), Box::new(StmtModel::Block(body))), q + 1))
                        },
                    }
                },
                }
            },
            _ => match expression(toks, p) {
                Err(e) => Err(e),
                Ok((e, q)) => Ok((StmtModel::Expression(Box::new(e)), q)),
            },
        }
    }
}

/// One expression from `p`: a term, and when an operator follows it, the
/// chain of operators and terms after it.
pub open spec fn expression(toks: Seq<Token>, p: int) -> Result<(ExprModel, int), CompileError>
    decreases toks, toks.len() - p, 7nat,
{
    let n = toks.len() as int;
    if p < 0 || p >= n {
        Err(end_err(toks, None))
    } else {
        match term(toks, p) {
            Err(e) => Err(e),
            Ok((e, q0)) => {
                let q = adv(p, q0, n);
                if q + 1 < n && toks[q + 1].token_type is Operator {
                    operation(toks, e, q + 1)
                } else {
                    Ok((e, q))
                }
            },
        }
    }
}

/// The operation that starts with operand `seed` and the operator at `p`.
pub open spec fn operation(toks: Seq<Token>, seed: ExprModel, p: int) -> Result<(ExprModel, int), CompileError>
    decreases toks, toks.len() - p, 2nat,
{
    match op_chain(toks, p) {
        Err(e) => Err(e),
        Ok((xs, os, q)) => Ok((climb(seq![seed] + xs, os), q)),
    }
}

/// From the operator at `p`: each operator with the term after it, for as
/// long as an operator follows.
pub open spec fn op_chain(toks: Seq<Token>, p: int) -> Result<
    (Seq<ExprModel>, Seq<(Operator, u8)>, int),
    CompileError,
>
    decreases toks, toks.len() - p, 1nat,
{
    let n = toks.len() as int;
    if p < 0 || p >= n {
        Err(end_err(toks, None))
    } else {
        match op_table(toks[p].content@) {
            None => Err(err_at(toks[p], None)),
            Some(op) => match term(toks, p + 1) {
                Err(e) => Err(e),
                Ok((t, q0)) => {
                    let q = adv(p + 1, q0, n);
                    if q + 1 < n && toks[q + 1].token_type is Operator {
                        match op_chain(toks, q + 1) {
                            Err(e) => Err(e),
                            Ok((xs, os, r)) => Ok((seq![t] + xs, seq![op] + os, r)),
                        }
                    } else {
                        Ok((seq![t], seq![op], q))
                    }
                },
            },
        }
    }
}

/// One term from `p`: a literal, an identifier with what extends it and an
/// optional `: type` after it, a parenthesized expression, a module, class,
/// implementation or structure with its block, an import, a `use`, a
/// function or a `return`. Operators after a term are left to `expression`,
/// so that inside an operation every operand is a term of its own.
pub open spec fn term(toks: Seq<Token>, p: int) -> Result<(ExprModel, int), CompileError>
    decreases toks, toks.len() - p, 6nat,
{
    let n = toks.len() as int;
    if p < 0 || p >= n {
        Err(end_err(toks, None))
    } else {
        let t = toks[p];
        match t.token_type {
            TokenType::Integer => match int_literal(t.content@) {
                Some(v) => Ok((ExprModel::Integer(v), p)),
                None => Err(err_at(t, None)),
            },
            TokenType::Float => Ok((ExprModel::Float(t.content@), p)),
            TokenType::Boolean => Ok((ExprModel::Boolean(t.content@ == "true"@), p)),
            TokenType::Text => Ok((ExprModel::Text(t.content@), p)),
            TokenType::Ident => match postfix(toks, ExprModel::Ident(t.content@), p) {
                Err(e) => Err(e),
                Ok((e, q0)) => {
                    let q = adv(p, q0, n);
                    if q + 1 < n && toks[q + 1].token_type is Colon {
                        if q + 2 >= n {
                            Err(end_err(toks, want(TokenType::Ident)))
                        } else if !(toks[q + 2].token_type is Ident) {
                            Err(err_at(toks[q + 2], want(TokenType::Ident)))
                        } else {
                            match term(toks, q + 2) {
                                Err(e2) => Err(e2),
                                Ok((ty, r)) => Ok((ExprModel::Typed(Box::new(e), Box::new(ty)), r)),
                            }
                        }
                    } else {
                        Ok((e, q))
                    }
                },
            },
            TokenType::LParen => match expression(toks, p + 1) {
                Err(e) => Err(e),
                Ok((e, q0)) => {
                    let q = adv(p + 1, q0, n);
                    if q + 1 >= n {
                        Err(end_err(toks, want(TokenType::RParen)))
                    } else if !(toks[q + 1].token_type is RParen) {
                        Err(err_at(toks[q + 1], want(TokenType::RParen)))
                    } else {
                        postfix(toks, e, q + 1)
                    }
                },
            },
            TokenType::Module | TokenType::Class | TokenType::Implement | TokenType::Struct => if p + 1
                >= n {
                Err(end_err(toks, None))
            } else {
                match block(toks, p + 2) {
                    Err(e) => Err(e),
                    Ok(body) => {
                        let name = toks[p + 1].content@;
                        let e = match t.token_type {
                            TokenType::Module => ExprModel::Module(name, body),
                            TokenType::Class => ExprModel::Class(name, body),
                            TokenType::Implement => ExprModel::Implement(name, body),
                            _ => ExprModel::Struct(name, body),
                        };
                        Ok((e, p + 2))
                    },
                }
            },
            TokenType::Import => if p + 1 >= n {
                Err(end_err(toks, want(TokenType::Text)))
            } else if !(toks[p + 1].token_type is Text) {
                Err(err_at(toks[p + 1], want(TokenType::Text)))
            } else if p + 2 < n && toks[p + 2].token_type is Library {
                Ok((ExprModel::Import(toks[p + 1].content@, true), p + 2))
            } else {
                Ok((ExprModel::Import(toks[p + 1].content@, false), p + 1))
            },
            TokenType::Use => match term(toks, p + 1) {
                Err(e) => Err(e),
                Ok((e, q)) => Ok((ExprModel::Use(Box::new(e)), q)),
            },
            TokenType::Def => if p + 1 >= n {
                Err(end_err(toks, None))
            } else {
                match params(toks, p + 2) {
                    Err(e) => Err(e),
                    Ok((ps, q0)) => {
                        let q = if p + 2 <= q0 <= n {
                            q0
                        } else {
                            p + 2
                        };
                        let has_ret = q < n && toks[q].token_type is Arrow;
                        if has_ret && q + 1 >= n {
                            Err(end_err(toks, None))
                        } else {
                            let b = if has_ret {
                                q + 2
                            } else {
                                q
                            };
                            let ret = if has_ret {
                                Some(toks[q + 1].content@)
                            } else {
                                None
                            };
                            match block(toks, b) {
                                Err(e) => Err(e),
                                Ok(body) => Ok(
                                    (ExprModel::Function(toks[p + 1].content@, ps, body, ret), b),
                                ),
                            }
                        }
                    },
                }
            },
            TokenType::Return => match expression(toks, p + 1) {
                Err(e) => Err(e),
                Ok((e, q)) => Ok((ExprModel::Return(Box::new(e)), q)),
            },
            _ => Err(err_at(t, None)),
        }
    }
}

/// What extends the expression `base`, whose last token is at `p`: `.name`,
/// `::name`, `[expr]` and `(args)`, any number of times.
pub open spec fn postfix(toks: Seq<Token>, base: ExprModel, p: int) -> Result<(ExprModel, int), CompileError>
    decreases toks, toks.len() - p, 5nat,
{
    let n = toks.len() as int;
    if p < 0 || p + 1 >= n {
        Ok((base, p))
    } else {
        match toks[p + 1].token_type {
            TokenType::Period => if p + 2 >= n {
                Err(end_err(toks, want(TokenType::Ident)))
            } else if !(toks[p + 2].token_type is Ident) {
                Err(err_at(toks[p + 2], want(TokenType::Ident)))
            } else {
                postfix(
                    toks,
                    ExprModel::IndexDot(Box::new(base), Box::new(ExprModel::Ident(toks[p + 2].content@))),
                    p + 2,
                )
            },
            TokenType::Colon => if p + 2 < n && toks[p + 2].token_type is Colon {
                if p + 3 >= n {
                    Err(end_err(toks, want(TokenType::Ident)))
                } else if !(toks[p + 3].token_type is Ident) {
                    Err(err_at(toks[p + 3], want(TokenType::Ident)))
                } else {
                    postfix(
                        toks,
                        ExprModel::IndexColon(
                            Box::new(base),
                            Box::new(ExprModel::Ident(toks[p + 3].content@)),
                        ),
                        p + 3,
                    )
                }
            } else {
                Ok((base, p))
            },
            TokenType::LBracket => match expression(toks, p + 2) {
                Err(e) => Err(e),
                Ok((k, q0)) => {
                    let q = adv(p + 2, q0, n);
                    if q + 1 >= n {
                        Err(end_err(toks, want(TokenType::RBracket)))
                    } else if !(toks[q + 1].token_type is RBracket) {
                        Err(err_at(toks[q + 1], want(TokenType::RBracket)))
                    } else {
                        postfix(toks, ExprModel::IndexArray(Box::new(base), Box::new(k)), q + 1)
                    }
                },
            },
            TokenType::LParen => match call_args(toks, p + 2) {
                Err(e) => Err(e),
                Ok((args, q0)) => {
                    let q = adv(p + 2, q0, n);
                    postfix(toks, ExprModel::Call(Box::new(base), args), q)
                },
            },
            _ => Ok((base, p)),
        }
    }
}

/// The arguments of a call from `p` to the closing `)`, whose index comes
/// back; a comma after an argument is optional.
pub open spec fn call_args(toks: Seq<Token>, p: int) -> Result<(Seq<ExprModel>, int), CompileError>
    decreases toks, toks.len() - p, 10nat,
{
    let n = toks.len() as int;
    if p < 0 || p >= n {
        Err(end_err(toks, want(TokenType::RParen)))
    } else if toks[p].token_type is RParen {
        Ok((Seq::empty(), p))
    } else {
        match expression(toks, p) {
            Err(e) => Err(e),
            Ok((e, q0)) => {
                let q = adv(p, q0, n);
                let j = if q + 1 < n && toks[q + 1].token_type is Comma {
                    q + 2
                } else {
                    q + 1
                };
                match call_args(toks, j) {
                    Err(e2) => Err(e2),
                    Ok((es, r)) => Ok((seq![e] + es, r)),
                }
            },
        }
    }
}

/// The `name : type` parameters of a function from `p` on, each followed by
/// an optional comma, up to the first token that is no identifier; and the
/// index of that token.
pub open spec fn params(toks: Seq<Token>, p: int) -> Result<(Seq<(Seq<char>, Seq<char>)>, int), CompileError>
    decreases toks.len() - p,
{
    let n = toks.len() as int;
    if p < 0 || p >= n || !(toks[p].token_type is Ident) {
        Ok((Seq::empty(), p))
    } else if p + 1 >= n {
        Err(end_err(toks, want(TokenType::Colon)))
    } else if !(toks[p + 1].token_type is Colon) {
        Err(err_at(toks[p + 1], want(TokenType::Colon)))
    } else if p + 2 >= n {
        Err(end_err(toks, None))
    } else {
        let j = if p + 3 < n && toks[p + 3].token_type is Comma {
            p + 4
        } else {
            p + 3
        };
        match params(toks, j) {
            Err(e) => Err(e),
            Ok((ps, r)) => Ok((seq![(toks[p].content@, toks[p + 2].content@)] + ps, r)),
        }
    }
}

/// Two operators of one binding rank associate to the left: `a o1 b o2 c` is
/// `(a o1 b) o2 c`.
pub proof fn lemma_equal_tiers_left(
    a: ExprModel,
    b: ExprModel,
    c: ExprModel,
    o1: (Operator, u8),
    o2: (Operator, u8),
)
    requires
        rank(o1) == rank(o2),
    ensures
        climb(seq![a, b, c], seq![o1, o2]) == ExprModel::Operation(
            Box::new(ExprModel::Operation(Box::new(a), o1.0, Box::new(b))),
            o2.0,
            Box::new(c),
        ),
{
    lemma_climb_pair(a, b, c, o1, o2);
}

/// Of two operators, the one of the tighter (lower) binding rank binds
/// first, whichever side it stands on.
pub proof fn lemma_tighter_tier_first(
    a: ExprModel,
    b: ExprModel,
    c: ExprModel,
    o1: (Operator, u8),
    o2: (Operator, u8),
)
    requires
        rank(o1) != rank(o2),
    ensures
        rank(o2) < rank(o1) ==> climb(seq![a, b, c], seq![o1, o2]) == ExprModel::Operation(
            Box::new(a),
            o1.0,
            Box::new(ExprModel::Operation(Box::new(b), o2.0, Box::new(c))),
        ),
        rank(o1) < rank(o2) ==> climb(seq![a, b, c], seq![o1, o2]) == ExprModel::Operation(
            Box::new(ExprModel::Operation(Box::new(a), o1.0, Box::new(b))),
            o2.0,
            Box::new(c),
        ),
{
    lemma_climb_pair(a, b, c, o1, o2);
}

proof fn lemma_climb_pair(a: ExprModel, b: ExprModel, c: ExprModel, o1: (Operator, u8), o2: (Operator, u8))
    ensures
        rank(o2) >= rank(o1) ==> climb(seq![a, b, c], seq![o1, o2]) == ExprModel::Operation(
            Box::new(ExprModel::Operation(Box::new(a), o1.0, Box::new(b))),
            o2.0,
            Box::new(c),
        ),
        rank(o2) < rank(o1) ==> climb(seq![a, b, c], seq![o1, o2]) == ExprModel::Operation(
            Box::new(a),
            o1.0,
            Box::new(ExprModel::Operation(Box::new(b), o2.0, Box::new(c))),
        ),
{
    let xs = seq![a, b, c];
    let os = seq![o1, o2];
    assert(os.drop_last() =~= seq![o1]);
    assert(loosest(seq![o1]) == 0);
    let none = Seq::<(Operator, u8)>::empty();
    assert(climb(seq![a], none) == a);
    assert(climb(seq![b], none) == b);
    assert(climb(seq![c], none) == c);
    if rank(o2) >= rank(o1) {
        assert(loosest(os) == 1);
        assert(xs.take(2) =~= seq![a, b]);
        assert(os.take(1) =~= seq![o1]);
        assert(xs.skip(2) =~= seq![c]);
        assert(os.skip(2) =~= Seq::<(Operator, u8)>::empty());
        assert(seq![a, b].take(1) =~= seq![a]);
        assert(seq![a, b].skip(1) =~= seq![b]);
        assert(seq![o1].take(0) =~= Seq::<(Operator, u8)>::empty());
        assert(seq![o1].skip(1) =~= Seq::<(Operator, u8)>::empty());
        assert(climb(seq![a, b], seq![o1]) == ExprModel::Operation(Box::new(a), o1.0, Box::new(b)));
    } else {
        assert(loosest(os) == 0);
        assert(xs.take(1) =~= seq![a]);
        assert(os.take(0) =~= Seq::<(Operator, u8)>::empty());
        assert(xs.skip(1) =~= seq![b, c]);
        assert(os.skip(1) =~= seq![o2]);
        assert(seq![o2].drop_last() =~= Seq::<(Operator, u8)>::empty());
        assert(loosest(seq![o2]) == 0);
        assert(seq![b, c].take(1) =~= seq![b]);
        assert(seq![b, c].skip(1) =~= seq![c]);
        assert(seq![o2].take(0) =~= Seq::<(Operator, u8)>::empty());
        assert(seq![o2].skip(1) =~= Seq::<(Operator, u8)>::empty());
        assert(climb(seq![b, c], seq![o2]) == ExprModel::Operation(Box::new(b), o2.0, Box::new(c)));
    }
}

/// Integer literal token `t` and its value.
pub open spec fn int_token(t: Token) -> bool {
    t.token_type is Integer && int_literal(t.content@) is Some
}

pub open spec fn int_model(t: Token) -> ExprModel {
    ExprModel::Integer(int_literal(t.content@)->0)
}

/// Three integer literals joined by two operators parse as one expression
/// statement, grouped by the operators' tiers as `climb` groups them.
pub proof fn lemma_parse_literal_chain(toks: Seq<Token>)
    requires
        toks.len() == 5,
        int_token(toks[0]),
        int_token(toks[2]),
        int_token(toks[4]),
        toks[1].token_type is Operator,
        toks[3].token_type is Operator,
        op_table(toks[1].content@) is Some,
        op_table(toks[3].content@) is Some,
    ensures
        parse_tokens(toks) == Ok::<Seq<StmtModel>, CompileError>(
            seq![
                StmtModel::Expression(
                    Box::new(
                        climb(
                            seq![int_model(toks[0]), int_model(toks[2]), int_model(toks[4])],
                            seq![op_table(toks[1].content@)->0, op_table(toks[3].content@)->0],
                        ),
                    ),
                ),
            ],
        ),
{
    let a = int_model(toks[0]);
    let b = int_model(toks[2]);
    let c = int_model(toks[4]);
    let o1 = op_table(toks[1].content@)->0;
    let o2 = op_table(toks[3].content@)->0;
    assert(term(toks, 4) == Ok::<(ExprModel, int), CompileError>((c, 4)));
    assert(op_chain(toks, 3) == Ok::<(Seq<ExprModel>, Seq<(Operator, u8)>, int), CompileError>(
        (seq![c], seq![o2], 4),
    ));
    assert(term(toks, 2) == Ok::<(ExprModel, int), CompileError>((b, 2)));
    assert(seq![b] + seq![c] =~= seq![b, c]);
    assert(seq![o1] + seq![o2] =~= seq![o1, o2]);
    assert(op_chain(toks, 1) == Ok::<(Seq<ExprModel>, Seq<(Operator, u8)>, int), CompileError>(
        (seq![b, c], seq![o1, o2], 4),
    ));
    assert(seq![a] + seq![b, c] =~= seq![a, b, c]);
    let e = climb(seq![a, b, c], seq![o1, o2]);
    assert(operation(toks, a, 1) == Ok::<(ExprModel, int), CompileError>((e, 4)));
    assert(term(toks, 0) == Ok::<(ExprModel, int), CompileError>((a, 0)));
    assert(expression(toks, 0) == Ok::<(ExprModel, int), CompileError>((e, 4)));
    assert(statement(toks, 0) == Ok::<(StmtModel, int), CompileError>(
        (StmtModel::Expression(Box::new(e)), 4),
    ));
    assert(parse_from(toks, 5) == Ok::<Seq<StmtModel>, CompileError>(Seq::empty()));
    assert(seq![StmtModel::Expression(Box::new(e))] + Seq::<StmtModel>::empty() =~= seq![
        StmtModel::Expression(Box::new(e)),
    ]);
}

/// `a o1 b o2 c` over integer literals, with `o1` and `o2` of one binding
/// rank, parses as `(a o1 b) o2 c`; with ranks that differ, the operator of
/// the lower rank binds its two neighbours first.
pub proof fn lemma_literal_chain_grouping(toks: Seq<Token>)
    requires
        toks.len() == 5,
        int_token(toks[0]),
        int_token(toks[2]),
        int_token(toks[4]),
        toks[1].token_type is Operator,
        toks[3].token_type is Operator,
        op_table(toks[1].content@) is Some,
        op_table(toks[3].content@) is Some,
    ensures
        ({
            let (a, b, c) = (int_model(toks[0]), int_model(toks[2]), int_model(toks[4]));
            let (o1, o2) = (op_table(toks[1].content@)->0, op_table(toks[3].content@)->0);
            let left = ExprModel::Operation(
                Box::new(ExprModel::Operation(Box::new(a), o1.0, Box::new(b))),
                o2.0,
                Box::new(c),
            );
            let right = ExprModel::Operation(
                Box::new(a),
                o1.0,
                Box::new(ExprModel::Operation(Box::new(b), o2.0, Box::new(c))),
            );
            &&& rank(o1) <= rank(o2) ==> parse_tokens(toks) == Ok::<Seq<StmtModel>, CompileError>(
                seq![StmtModel::Expression(Box::new(left))],
            )
            &&& rank(o2) < rank(o1) ==> parse_tokens(toks) == Ok::<Seq<StmtModel>, CompileError>(
                seq![StmtModel::Expression(Box::new(right))],
            )
        }),
{
    lemma_parse_literal_chain(toks);
    let (a, b, c) = (int_model(toks[0]), int_model(toks[2]), int_model(toks[4]));
    let (o1, o2) = (op_table(toks[1].content@)->0, op_table(toks[3].content@)->0);
    if rank(o1) == rank(o2) {
        lemma_equal_tiers_left(a, b, c, o1, o2);
    } else {
        lemma_tighter_tier_first(a, b, c, o1, o2);
    }
}

} // verus!
