//! The parser: recursive descent for statements, precedence climbing for
//! expressions. The model is a family of spec functions (`sp_*`) over the
//! token sequence; each one returns either the parsed node together with the
//! tokens left over, or the structural error together with the tokens left at
//! the point of failure. The executable parser pulls tokens lazily from the
//! lexer and is proved to return exactly what the model says, statement
//! errors included.

use vstd::prelude::*;

use crate::ast::exprs_view;
use crate::ast::lemma_exprs_view_push;
use crate::ast::lemma_stmts_view_push;
use crate::ast::stmts_view;
use crate::ast::strings_view;
use crate::ast::Ast;
use crate::ast::ExprView;
use crate::ast::Expression;
use crate::ast::Statement;
use crate::ast::StmtView;
use crate::lexer::spec_tokens_from;
use crate::lexer::tokens_wf;
use crate::lexer::Lexer;
use crate::token::Token;
use crate::token::TokenView;

verus! {

/// The binding strength of operators, lowest to highest. An expression parse
/// at a given level stops before any operator that does not bind more tightly.
#[derive(Debug, Clone, Copy, PartialEq, Eq, Structural)]
pub enum Precedence {
    Lowest,
    Equals,
    LessGreater,
    Sum,
    Product,
    Prefix,
    Call,
}

/// The numeric order of the precedence levels.
pub open spec fn prec_val(p: Precedence) -> int {
    match p {
        Precedence::Lowest => 0,
        Precedence::Equals => 1,
        Precedence::LessGreater => 2,
        Precedence::Sum => 3,
        Precedence::Product => 4,
        Precedence::Prefix => 5,
        Precedence::Call => 6,
    }
}

/// The numeric order of a precedence level, for comparisons.
pub fn prec_value(p: Precedence) -> (v: u8)
    ensures
        v as int == prec_val(p),
{
    match p {
        Precedence::Lowest => 0,
        Precedence::Equals => 1,
        Precedence::LessGreater => 2,
        Precedence::Sum => 3,
        Precedence::Product => 4,
        Precedence::Prefix => 5,
        Precedence::Call => 6,
    }
}

/// The infix binding strength of a token: equality, ordering, sum, product,
/// call; every other token has no infix rule and binds lowest, which ends the
/// climbing loop.
pub open spec fn infix_precedence(t: TokenView) -> int {
    match t {
        TokenView::Eq => 1,
        TokenView::NotEq => 1,
        TokenView::Lt => 2,
        TokenView::Gt => 2,
        TokenView::Plus => 3,
        TokenView::Minus => 3,
        TokenView::Slash => 4,
        TokenView::Asterisk => 4,
        TokenView::LParen => 6,
        _ => 0,
    }
}

/// The infix precedence of a token.
pub fn get_token_precedence(token: &Token) -> (p: Precedence)
    ensures
        prec_val(p) == infix_precedence(token@),
{
    match token {
        Token::Eq | Token::NotEq => Precedence::Equals,
        Token::Lt | Token::Gt => Precedence::LessGreater,
        Token::Plus | Token::Minus => Precedence::Sum,
        Token::Slash | Token::Asterisk => Precedence::Product,
        Token::LParen => Precedence::Call,
        _ => Precedence::Lowest,
    }
}

/// A structural parse error: what was expected, and the token actually found.
#[derive(Debug, PartialEq, Eq)]
pub enum ParseError {
    /// A fixed token was required and something else stood there.
    ExpectedToken { expected: Token, found: Token },
    /// An identifier was required and something else stood there.
    ExpectedIdent { found: Token },
    /// A token with no prefix rule stood where an expression had to begin.
    NoPrefix { found: Token },
}

/// The mathematical model of a parse error.
pub enum ParseErrorView {
    ExpectedToken { expected: TokenView, found: TokenView },
    ExpectedIdent { found: TokenView },
    NoPrefix { found: TokenView },
}

impl View for ParseError {
    type V = ParseErrorView;

    open spec fn view(&self) -> ParseErrorView {
        match self {
            ParseError::ExpectedToken { expected, found } => ParseErrorView::ExpectedToken {
                expected: expected@,
                found: found@,
            },
            ParseError::ExpectedIdent { found } => ParseErrorView::ExpectedIdent { found: found@ },
            ParseError::NoPrefix { found } => ParseErrorView::NoPrefix { found: found@ },
        }
    }
}

/// The views of a sequence of parse errors, element by element.
pub open spec fn errors_view(es: Seq<ParseError>) -> Seq<ParseErrorView> {
    es.map_values(|e: ParseError| e@)
}

/// The first token of a sequence, or the end marker when it is empty.
pub open spec fn first_or_eof(ts: Seq<TokenView>) -> TokenView {
    if ts.len() > 0 {
        ts[0]
    } else {
        TokenView::Eof
    }
}

/// Consumes a trailing semicolon if one stands there; a statement's optional
/// terminator.
pub open spec fn skip_semi(ts: Seq<TokenView>) -> Seq<TokenView> {
    if first_or_eof(ts) is Semicolon {
        ts.skip(1)
    } else {
        ts
    }
}

/// What a prefix position parses to: an identifier, literal or boolean is one
/// token; `!` and `-` wrap their operand; `(` parses a grouped expression up
/// to its closing parenthesis; `if` and `fn` parse their whole forms; any
/// other token has no prefix rule and is a structural error.
pub open spec fn sp_prefix(toks: Seq<TokenView>) -> Result<
    (ExprView, Seq<TokenView>),
    (ParseErrorView, Seq<TokenView>),
>
    decreases toks.len(), 1int,
{
    match first_or_eof(toks) {
        TokenView::Ident(name) => Ok((ExprView::Identifier(name), toks.skip(1))),
        TokenView::Int(text) => Ok((ExprView::Int(text), toks.skip(1))),
        TokenView::True => Ok((ExprView::Boolean(true), toks.skip(1))),
        TokenView::False => Ok((ExprView::Boolean(false), toks.skip(1))),
        TokenView::Bang => match sp_expr(toks.skip(1), 5) {
            Ok((operand, rest)) => Ok(
                (ExprView::PrefixExpr { op: TokenView::Bang, right: Box::new(operand) }, rest),
            ),
            Err(e) => Err(e),
        },
        TokenView::Minus => match sp_expr(toks.skip(1), 5) {
            Ok((operand, rest)) => Ok(
                (ExprView::PrefixExpr { op: TokenView::Minus, right: Box::new(operand) }, rest),
            ),
            Err(e) => Err(e),
        },
        TokenView::LParen => match sp_expr(toks.skip(1), 0) {
            Ok((inner, rest)) => {
                if first_or_eof(rest) is RParen {
                    Ok((inner, rest.skip(1)))
                } else {
                    Err(
                        (
                            ParseErrorView::ExpectedToken {
                                expected: TokenView::RParen,
                                found: first_or_eof(rest),
                            },
                            rest,
                        ),
                    )
                }
            },
            Err(e) => Err(e),
        },
        TokenView::If => sp_if(toks.skip(1)),
        TokenView::Function => sp_function(toks.skip(1)),
        other => Err((ParseErrorView::NoPrefix { found: other }, toks)),
    }
}

/// What an `if` form parses to, from the tokens after the `if` keyword:
/// `( condition )`, a braced consequence block, and optionally `else` with a
/// braced alternative block.
pub open spec fn sp_if(toks: Seq<TokenView>) -> Result<
    (ExprView, Seq<TokenView>),
    (ParseErrorView, Seq<TokenView>),
>
    decreases toks.len(), 0int,
{
    if !(first_or_eof(toks) is LParen) {
        Err(
            (
                ParseErrorView::ExpectedToken {
                    expected: TokenView::LParen,
                    found: first_or_eof(toks),
                },
                toks,
            ),
        )
    } else {
        match sp_expr(toks.skip(1), 0) {
            Err(e) => Err(e),
            Ok((cond, r1)) => {
                if !(first_or_eof(r1) is RParen) {
                    Err(
                        (
                            ParseErrorView::ExpectedToken {
                                expected: TokenView::RParen,
                                found: first_or_eof(r1),
                            },
                            r1,
                        ),
                    )
                } else {
                    let r2 = r1.skip(1);
                    if !(first_or_eof(r2) is LBrace) {
                        Err(
                            (
                                ParseErrorView::ExpectedToken {
                                    expected: TokenView::LBrace,
                                    found: first_or_eof(r2),
                                },
                                r2,
                            ),
                        )
                    } else if r1.len() <= toks.len() {
                        match sp_block(r2.skip(1)) {
                            Err(e) => Err(e),
                            Ok((cons, r3)) => {
                                if first_or_eof(r3) is Else {
                                    let r4 = r3.skip(1);
                                    if !(first_or_eof(r4) is LBrace) {
                                        Err(
                                            (
                                                ParseErrorView::ExpectedToken {
                                                    expected: TokenView::LBrace,
                                                    found: first_or_eof(r4),
                                                },
                                                r4,
                                            ),
                                        )
                                    } else if r4.len() < toks.len() {
                                        match sp_block(r4.skip(1)) {
                                            Err(e) => Err(e),
                                            Ok((alt, r5)) => Ok(
                                                (
                                                    ExprView::If {
                                                        condition: Box::new(cond),
                                                        consequence: Box::new(
                                                            StmtView::Block { body: cons },
                                                        ),
                                                        alternative: Some(
                                                            Box::new(StmtView::Block { body: alt }),
                                                        ),
                                                    },
                                                    r5,
                                                ),
                                            ),
                                        }
                                    } else {
                                        Err((ParseErrorView::NoPrefix { found: TokenView::Eof }, r4))
                                    }
                                } else {
                                    Ok(
                                        (
                                            ExprView::If {
                                                condition: Box::new(cond),
                                                consequence: Box::new(StmtView::Block { body: cons }),
                                                alternative: None,
                                            },
                                            r3,
                                        ),
                                    )
                                }
                            },
                        }
                    } else {
                        Err((ParseErrorView::NoPrefix { found: TokenView::Eof }, r2))
                    }
                }
            },
        }
    }
}

/// What a function literal parses to, from the tokens after the `fn` keyword:
/// a parenthesized comma-separated parameter list, then a braced body block.
pub open spec fn sp_function(toks: Seq<TokenView>) -> Result<
    (ExprView, Seq<TokenView>),
    (ParseErrorView, Seq<TokenView>),
>
    decreases toks.len(), 0int,
{
    if !(first_or_eof(toks) is LParen) {
        Err(
            (
                ParseErrorView::ExpectedToken {
                    expected: TokenView::LParen,
                    found: first_or_eof(toks),
                },
                toks,
            ),
        )
    } else {
        match sp_params(toks.skip(1)) {
            Err(e) => Err(e),
            Ok((params, r1)) => {
                if !(first_or_eof(r1) is LBrace) {
                    Err(
                        (
                            ParseErrorView::ExpectedToken {
                                expected: TokenView::LBrace,
                                found: first_or_eof(r1),
                            },
                            r1,
                        ),
                    )
                } else if r1.len() <= toks.len() {
                    match sp_block(r1.skip(1)) {
                        Err(e) => Err(e),
                        Ok((body, r2)) => Ok(
                            (
                                ExprView::Function {
                                    parameters: params,
                                    body: Box::new(StmtView::Block { body }),
                                },
                                r2,
                            ),
                        ),
                    }
                } else {
                    Err((ParseErrorView::NoPrefix { found: TokenView::Eof }, r1))
                }
            },
        }
    }
}

/// What a parameter list parses to, from the tokens after its opening
/// parenthesis: identifiers separated by commas, no trailing comma, closed by
/// `)`.
pub open spec fn sp_params(toks: Seq<TokenView>) -> Result<
    (Seq<Seq<char>>, Seq<TokenView>),
    (ParseErrorView, Seq<TokenView>),
>
    decreases toks.len(), 0int,
{
    match first_or_eof(toks) {
        TokenView::RParen => Ok((Seq::empty(), toks.skip(1))),
        TokenView::Ident(name) => sp_params_tail(seq![name], toks.skip(1)),
        other => Err((ParseErrorView::ExpectedIdent { found: other }, toks)),
    }
}

/// The rest of a parameter list, after at least one parameter: either the
/// closing parenthesis, or a comma followed by the next identifier.
pub open spec fn sp_params_tail(acc: Seq<Seq<char>>, toks: Seq<TokenView>) -> Result<
    (Seq<Seq<char>>, Seq<TokenView>),
    (ParseErrorView, Seq<TokenView>),
>
    decreases toks.len(), 0int,
{
    match first_or_eof(toks) {
        TokenView::RParen => Ok((acc, toks.skip(1))),
        TokenView::Comma => match first_or_eof(toks.skip(1)) {
            TokenView::Ident(name) => sp_params_tail(acc.push(name), toks.skip(1).skip(1)),
            other => Err((ParseErrorView::ExpectedIdent { found: other }, toks.skip(1))),
        },
        other => Err(
            (ParseErrorView::ExpectedToken { expected: TokenView::RParen, found: other }, toks),
        ),
    }
}

/// What a call's argument list parses to, from the tokens after its opening
/// parenthesis: expressions separated by commas, no trailing comma, closed by
/// `)`.
pub open spec fn sp_call_args(toks: Seq<TokenView>) -> Result<
    (Seq<ExprView>, Seq<TokenView>),
    (ParseErrorView, Seq<TokenView>),
>
    decreases toks.len(), 3int,
{
    if first_or_eof(toks) is RParen {
        Ok((Seq::empty(), toks.skip(1)))
    } else {
        match sp_expr(toks, 0) {
            Err(e) => Err(e),
            Ok((e0, rest)) => {
                if rest.len() < toks.len() {
                    sp_args_tail(seq![e0], rest)
                } else {
                    Err((ParseErrorView::NoPrefix { found: TokenView::Eof }, rest))
                }
            },
        }
    }
}

/// The rest of an argument list, after at least one argument: either the
/// closing parenthesis, or a comma followed by the next expression.
pub open spec fn sp_args_tail(acc: Seq<ExprView>, toks: Seq<TokenView>) -> Result<
    (Seq<ExprView>, Seq<TokenView>),
    (ParseErrorView, Seq<TokenView>),
>
    decreases toks.len(), 3int,
{
    match first_or_eof(toks) {
        TokenView::RParen => Ok((acc, toks.skip(1))),
        TokenView::Comma => match sp_expr(toks.skip(1), 0) {
            Err(e) => Err(e),
            Ok((e, rest)) => {
                if rest.len() < toks.len() {
                    sp_args_tail(acc.push(e), rest)
                } else {
                    Err((ParseErrorView::NoPrefix { found: TokenView::Eof }, rest))
                }
            },
        },
        other => Err(
            (ParseErrorView::ExpectedToken { expected: TokenView::RParen, found: other }, toks),
        ),
    }
}

/// One infix step: the operator at the head of the sequence combines the
/// finished left-hand expression with what follows — a call's argument list
/// for `(`, otherwise the right-hand expression parsed at the operator's own
/// precedence.
pub open spec fn sp_infix_step(lhs: ExprView, toks: Seq<TokenView>) -> Result<
    (ExprView, Seq<TokenView>),
    (ParseErrorView, Seq<TokenView>),
>
    decreases toks.len(), 0int,
{
    if toks.len() == 0 {
        Err((ParseErrorView::NoPrefix { found: TokenView::Eof }, toks))
    } else if toks[0] is LParen {
        match sp_call_args(toks.skip(1)) {
            Err(e) => Err(e),
            Ok((args, rest)) => Ok(
                (ExprView::Call { function: Box::new(lhs), arguments: args }, rest),
            ),
        }
    } else {
        match sp_expr(toks.skip(1), infix_precedence(toks[0])) {
            Err(e) => Err(e),
            Ok((rhs, rest)) => Ok(
                (
                    ExprView::InfixExpr {
                        op: toks[0],
                        left: Box::new(lhs),
                        right: Box::new(rhs),
                    },
                    rest,
                ),
            ),
        }
    }
}

/// The climbing loop: while the next token is not a statement terminator and
/// binds more tightly than the given level, fold it into the left-hand
/// expression by one infix step.
pub open spec fn sp_infix_loop(lhs: ExprView, toks: Seq<TokenView>, min_prec: int) -> Result<
    (ExprView, Seq<TokenView>),
    (ParseErrorView, Seq<TokenView>),
>
    decreases toks.len(), 1int,
{
    let t = first_or_eof(toks);
    if t is Semicolon || infix_precedence(t) <= min_prec {
        Ok((lhs, toks))
    } else {
        match sp_infix_step(lhs, toks) {
            Err(e) => Err(e),
            Ok((nl, rest)) => {
                if rest.len() < toks.len() {
                    sp_infix_loop(nl, rest, min_prec)
                } else {
                    Err((ParseErrorView::NoPrefix { found: TokenView::Eof }, rest))
                }
            },
        }
    }
}

/// What an expression parses to at a given minimum precedence: a prefix form
/// first, then the climbing loop.
pub open spec fn sp_expr(toks: Seq<TokenView>, min_prec: int) -> Result<
    (ExprView, Seq<TokenView>),
    (ParseErrorView, Seq<TokenView>),
>
    decreases toks.len(), 2int,
{
    match sp_prefix(toks) {
        Ok((lhs, rest)) => {
            // The length test makes the recursion visibly well-founded; the
            // length lemmas below show that a successful parse always consumes
            // a token, so the other branch is never the value.
            if rest.len() < toks.len() {
                sp_infix_loop(lhs, rest, min_prec)
            } else {
                Ok((lhs, rest))
            }
        },
        Err(e) => Err(e),
    }
}

/// What a `let` statement parses to, from the tokens after the `let` keyword:
/// an identifier, the assignment sign, the initializer expression, and an
/// optional trailing semicolon.
pub open spec fn sp_let(toks: Seq<TokenView>) -> Result<
    (StmtView, Seq<TokenView>),
    (ParseErrorView, Seq<TokenView>),
>
    decreases toks.len(), 3int,
{
    match first_or_eof(toks) {
        TokenView::Ident(name) => {
            if first_or_eof(toks.skip(1)) is Assign {
                match sp_expr(toks.skip(1).skip(1), 0) {
                    Ok((e, rest)) => Ok((StmtView::Let { name, expr: e }, skip_semi(rest))),
                    Err(e) => Err(e),
                }
            } else {
                Err(
                    (
                        ParseErrorView::ExpectedToken {
                            expected: TokenView::Assign,
                            found: first_or_eof(toks.skip(1)),
                        },
                        toks.skip(1),
                    ),
                )
            }
        },
        other => Err((ParseErrorView::ExpectedIdent { found: other }, toks)),
    }
}

/// What a `return` statement parses to, from the tokens after the `return`
/// keyword: the returned expression and an optional trailing semicolon.
pub open spec fn sp_return(toks: Seq<TokenView>) -> Result<
    (StmtView, Seq<TokenView>),
    (ParseErrorView, Seq<TokenView>),
>
    decreases toks.len(), 3int,
{
    match sp_expr(toks, 0) {
        Ok((e, rest)) => Ok((StmtView::Return { expr: e }, skip_semi(rest))),
        Err(e) => Err(e),
    }
}

/// What an expression statement parses to: one expression at the lowest
/// precedence and an optional trailing semicolon.
pub open spec fn sp_expr_stmt(toks: Seq<TokenView>) -> Result<
    (StmtView, Seq<TokenView>),
    (ParseErrorView, Seq<TokenView>),
>
    decreases toks.len(), 3int,
{
    match sp_expr(toks, 0) {
        Ok((e, rest)) => Ok((StmtView::Expression { expr: e }, skip_semi(rest))),
        Err(e) => Err(e),
    }
}

/// What one statement parses to: `let` and `return` dispatch on their keyword,
/// anything else is an expression statement.
pub open spec fn sp_stmt(toks: Seq<TokenView>) -> Result<
    (StmtView, Seq<TokenView>),
    (ParseErrorView, Seq<TokenView>),
>
    decreases toks.len(), 4int,
{
    match first_or_eof(toks) {
        TokenView::Let => sp_let(toks.skip(1)),
        TokenView::Return => sp_return(toks.skip(1)),
        _ => sp_expr_stmt(toks),
    }
}

/// What a block parses to, from the tokens after its opening brace:
/// statements until the matching `}`; reaching the end marker first is the
/// unterminated-block error.
pub open spec fn sp_block(toks: Seq<TokenView>) -> Result<
    (Seq<StmtView>, Seq<TokenView>),
    (ParseErrorView, Seq<TokenView>),
>
    decreases toks.len(), 5int,
{
    if first_or_eof(toks) is RBrace {
        Ok((Seq::empty(), toks.skip(1)))
    } else if first_or_eof(toks) is Eof {
        Err(
            (
                ParseErrorView::ExpectedToken {
                    expected: TokenView::RBrace,
                    found: TokenView::Eof,
                },
                toks,
            ),
        )
    } else {
        match sp_stmt(toks) {
            Err(e) => Err(e),
            Ok((st, rest)) => {
                if rest.len() < toks.len() {
                    match sp_block(rest) {
                        Err(e) => Err(e),
                        Ok((sts, r2)) => Ok((seq![st] + sts, r2)),
                    }
                } else {
                    Err((ParseErrorView::NoPrefix { found: TokenView::Eof }, rest))
                }
            },
        }
    }
}

/// Error recovery at statement level: the tokens are dropped up to and
/// including the next semicolon, or up to the end marker.
pub open spec fn sp_sync(toks: Seq<TokenView>) -> Seq<TokenView>
    decreases toks.len(),
{
    if toks.len() == 0 {
        toks
    } else if toks[0] is Eof {
        toks
    } else if toks[0] is Semicolon {
        toks.skip(1)
    } else {
        sp_sync(toks.skip(1))
    }
}

/// What a whole program parses to: statements until the end marker, in order.
/// A statement that fails to parse contributes its structural error to the
/// error list, and parsing resumes after the next semicolon; nothing is
/// silently dropped.
pub open spec fn sp_program(toks: Seq<TokenView>) -> (Seq<StmtView>, Seq<ParseErrorView>)
    decreases toks.len(), 6int,
{
    if first_or_eof(toks) is Eof {
        (Seq::empty(), Seq::empty())
    } else {
        match sp_stmt(toks) {
            Ok((st, rest)) => {
                if rest.len() < toks.len() {
                    let res = sp_program(rest);
                    (seq![st] + res.0, res.1)
                } else {
                    (seq![st], Seq::empty())
                }
            },
            Err((e, rest)) => {
                let r2 = sp_sync(rest);
                if r2.len() < toks.len() {
                    let res = sp_program(r2);
                    (res.0, seq![e] + res.1)
                } else {
                    (Seq::empty(), seq![e])
                }
            },
        }
    }
}

/// A prefix parse consumes at least one token on success; on failure it leaves
/// a suffix of its input, the whole input only when nothing was consumed.
proof fn lemma_sp_prefix_len(toks: Seq<TokenView>)
    ensures
        match sp_prefix(toks) {
            Ok((_, rest)) => rest.len() < toks.len(),
            Err((_, rest)) => rest.len() < toks.len() || rest == toks,
        },
    decreases toks.len(), 1int,
{
    match first_or_eof(toks) {
        TokenView::Bang => lemma_sp_expr_len(toks.skip(1), 5),
        TokenView::Minus => lemma_sp_expr_len(toks.skip(1), 5),
        TokenView::LParen => lemma_sp_expr_len(toks.skip(1), 0),
        TokenView::If => lemma_sp_if_len(toks.skip(1)),
        TokenView::Function => lemma_sp_function_len(toks.skip(1)),
        _ => {},
    }
}

proof fn lemma_sp_if_len(toks: Seq<TokenView>)
    ensures
        match sp_if(toks) {
            Ok((_, rest)) => rest.len() < toks.len(),
            Err((_, rest)) => rest.len() < toks.len() || rest == toks,
        },
    decreases toks.len(), 0int,
{
    if first_or_eof(toks) is LParen {
        lemma_sp_expr_len(toks.skip(1), 0);
        match sp_expr(toks.skip(1), 0) {
            Err(_) => {},
            Ok((_, r1)) => {
                if first_or_eof(r1) is RParen {
                    let r2 = r1.skip(1);
                    if first_or_eof(r2) is LBrace {
                        lemma_sp_block_len(r2.skip(1));
                        match sp_block(r2.skip(1)) {
                            Err(_) => {},
                            Ok((_, r3)) => {
                                if first_or_eof(r3) is Else {
                                    let r4 = r3.skip(1);
                                    if first_or_eof(r4) is LBrace {
                                        lemma_sp_block_len(r4.skip(1));
                                    }
                                }
                            },
                        }
                    }
                }
            },
        }
    }
}

proof fn lemma_sp_function_len(toks: Seq<TokenView>)
    ensures
        match sp_function(toks) {
            Ok((_, rest)) => rest.len() < toks.len(),
            Err((_, rest)) => rest.len() < toks.len() || rest == toks,
        },
    decreases toks.len(), 0int,
{
    if first_or_eof(toks) is LParen {
        lemma_sp_params_len(toks.skip(1));
        match sp_params(toks.skip(1)) {
            Err(_) => {},
            Ok((_, r1)) => {
                if first_or_eof(r1) is LBrace {
                    lemma_sp_block_len(r1.skip(1));
                }
            },
        }
    }
}

proof fn lemma_sp_params_len(toks: Seq<TokenView>)
    ensures
        match sp_params(toks) {
            Ok((_, rest)) => rest.len() < toks.len(),
            Err((_, rest)) => rest.len() < toks.len() || rest == toks,
        },
    decreases toks.len(), 0int,
{
    match first_or_eof(toks) {
        TokenView::Ident(name) => lemma_sp_params_tail_len(seq![name], toks.skip(1)),
        _ => {},
    }
}

proof fn lemma_sp_params_tail_len(acc: Seq<Seq<char>>, toks: Seq<TokenView>)
    ensures
        match sp_params_tail(acc, toks) {
            Ok((_, rest)) => rest.len() < toks.len(),
            Err((_, rest)) => rest.len() < toks.len() || rest == toks,
        },
    decreases toks.len(), 0int,
{
    match first_or_eof(toks) {
        TokenView::Comma => match first_or_eof(toks.skip(1)) {
            TokenView::Ident(name) => lemma_sp_params_tail_len(
                acc.push(name),
                toks.skip(1).skip(1),
            ),
            _ => {},
        },
        _ => {},
    }
}

proof fn lemma_sp_call_args_len(toks: Seq<TokenView>)
    ensures
        match sp_call_args(toks) {
            Ok((_, rest)) => rest.len() < toks.len(),
            Err((_, rest)) => rest.len() < toks.len() || rest == toks,
        },
    decreases toks.len(), 3int,
{
    if !(first_or_eof(toks) is RParen) {
        lemma_sp_expr_len(toks, 0);
        match sp_expr(toks, 0) {
            Err(_) => {},
            Ok((e0, rest)) => lemma_sp_args_tail_len(seq![e0], rest),
        }
    }
}

proof fn lemma_sp_args_tail_len(acc: Seq<ExprView>, toks: Seq<TokenView>)
    ensures
        match sp_args_tail(acc, toks) {
            Ok((_, rest)) => rest.len() < toks.len(),
            Err((_, rest)) => rest.len() < toks.len() || rest == toks,
        },
    decreases toks.len(), 3int,
{
    match first_or_eof(toks) {
        TokenView::Comma => {
            lemma_sp_expr_len(toks.skip(1), 0);
            match sp_expr(toks.skip(1), 0) {
                Err(_) => {},
                Ok((e, rest)) => lemma_sp_args_tail_len(acc.push(e), rest),
            }
        },
        _ => {},
    }
}

proof fn lemma_sp_infix_step_len(lhs: ExprView, toks: Seq<TokenView>)
    ensures
        match sp_infix_step(lhs, toks) {
            Ok((_, rest)) => rest.len() < toks.len(),
            Err((_, rest)) => rest.len() < toks.len() || rest == toks,
        },
    decreases toks.len(), 0int,
{
    if toks.len() == 0 {
    } else if toks[0] is LParen {
        lemma_sp_call_args_len(toks.skip(1));
    } else {
        lemma_sp_expr_len(toks.skip(1), infix_precedence(toks[0]));
    }
}

proof fn lemma_sp_infix_loop_len(lhs: ExprView, toks: Seq<TokenView>, min_prec: int)
    ensures
        match sp_infix_loop(lhs, toks, min_prec) {
            Ok((_, rest)) => rest.len() <= toks.len(),
            Err((_, rest)) => rest.len() < toks.len() || rest == toks,
        },
    decreases toks.len(), 1int,
{
    let t = first_or_eof(toks);
    if !(t is Semicolon || infix_precedence(t) <= min_prec) {
        lemma_sp_infix_step_len(lhs, toks);
        match sp_infix_step(lhs, toks) {
            Err(_) => {},
            Ok((nl, rest)) => {
                if rest.len() < toks.len() {
                    lemma_sp_infix_loop_len(nl, rest, min_prec);
                }
            },
        }
    }
}

/// An expression parse consumes at least one token on success.
proof fn lemma_sp_expr_len(toks: Seq<TokenView>, min_prec: int)
    ensures
        match sp_expr(toks, min_prec) {
            Ok((_, rest)) => rest.len() < toks.len(),
            Err((_, rest)) => rest.len() < toks.len() || rest == toks,
        },
    decreases toks.len(), 2int,
{
    lemma_sp_prefix_len(toks);
    match sp_prefix(toks) {
        Err(_) => {},
        Ok((lhs, rest)) => {
            if rest.len() < toks.len() {
                lemma_sp_infix_loop_len(lhs, rest, min_prec);
            }
        },
    }
}

proof fn lemma_sp_let_len(toks: Seq<TokenView>)
    ensures
        match sp_let(toks) {
            Ok((_, rest)) => rest.len() < toks.len(),
            Err((_, rest)) => rest.len() < toks.len() || rest == toks,
        },
    decreases toks.len(), 3int,
{
    match first_or_eof(toks) {
        TokenView::Ident(_) => {
            if first_or_eof(toks.skip(1)) is Assign {
                lemma_sp_expr_len(toks.skip(1).skip(1), 0);
            }
        },
        _ => {},
    }
}

proof fn lemma_sp_return_len(toks: Seq<TokenView>)
    ensures
        match sp_return(toks) {
            Ok((_, rest)) => rest.len() < toks.len(),
            Err((_, rest)) => rest.len() < toks.len() || rest == toks,
        },
    decreases toks.len(), 3int,
{
    lemma_sp_expr_len(toks, 0);
}

proof fn lemma_sp_expr_stmt_len(toks: Seq<TokenView>)
    ensures
        match sp_expr_stmt(toks) {
            Ok((_, rest)) => rest.len() < toks.len(),
            Err((_, rest)) => rest.len() < toks.len() || rest == toks,
        },
    decreases toks.len(), 3int,
{
    lemma_sp_expr_len(toks, 0);
}

/// A statement parse consumes at least one token on success; on failure it
/// leaves a suffix of its input.
proof fn lemma_sp_stmt_len(toks: Seq<TokenView>)
    ensures
        match sp_stmt(toks) {
            Ok((_, rest)) => rest.len() < toks.len(),
            Err((_, rest)) => rest.len() < toks.len() || rest == toks,
        },
    decreases toks.len(), 4int,
{
    match first_or_eof(toks) {
        TokenView::Let => lemma_sp_let_len(toks.skip(1)),
        TokenView::Return => lemma_sp_return_len(toks.skip(1)),
        _ => lemma_sp_expr_stmt_len(toks),
    }
}

proof fn lemma_sp_block_len(toks: Seq<TokenView>)
    ensures
        match sp_block(toks) {
            Ok((_, rest)) => rest.len() < toks.len(),
            Err((_, rest)) => rest.len() < toks.len() || rest == toks,
        },
    decreases toks.len(), 5int,
{
    if !(first_or_eof(toks) is RBrace) && !(first_or_eof(toks) is Eof) {
        lemma_sp_stmt_len(toks);
        match sp_stmt(toks) {
            Err(_) => {},
            Ok((_, rest)) => {
                if rest.len() < toks.len() {
                    lemma_sp_block_len(rest);
                }
            },
        }
    }
}

/// Synchronizing never grows the leftover, and always drops at least one token
/// when it stands before something other than the end marker.
proof fn lemma_sp_sync_len(toks: Seq<TokenView>)
    ensures
        sp_sync(toks).len() <= toks.len(),
        toks.len() > 0 && !(toks[0] is Eof) ==> sp_sync(toks).len() < toks.len(),
    decreases toks.len(),
{
    if toks.len() == 0 {
    } else if toks[0] is Eof {
    } else if toks[0] is Semicolon {
    } else {
        lemma_sp_sync_len(toks.skip(1));
    }
}

/// The climbing loop stops, with the left-hand expression unchanged, exactly
/// at a statement terminator or an operator that does not bind more tightly.
proof fn lemma_sp_infix_loop_stop(lhs: ExprView, toks: Seq<TokenView>, min_prec: int)
    requires
        first_or_eof(toks) is Semicolon || infix_precedence(first_or_eof(toks)) <= min_prec,
    ensures
        sp_infix_loop(lhs, toks, min_prec) matches Ok(p) && p.0 == lhs && p.1 == toks,
{
}

/// One unfolding of the climbing loop where it does not stop.
proof fn lemma_sp_infix_loop_step(lhs: ExprView, toks: Seq<TokenView>, min_prec: int)
    requires
        !(first_or_eof(toks) is Semicolon),
        infix_precedence(first_or_eof(toks)) > min_prec,
    ensures
        match sp_infix_step(lhs, toks) {
            Ok(p) => p.1.len() < toks.len() ==> sp_infix_loop(lhs, toks, min_prec)
                == sp_infix_loop(p.0, p.1, min_prec),
            Err(e) => sp_infix_loop(lhs, toks, min_prec) == Err::<
                (ExprView, Seq<TokenView>),
                (ParseErrorView, Seq<TokenView>),
            >(e),
        },
{
}

/// The parser: one lexer, pulled token by token, and the structural errors
/// collected so far.
pub struct Parser {
    lexer: Lexer,
    errors: Vec<ParseError>,
}

impl Parser {
    /// The parser's invariant: its lexer's.
    pub closed spec fn wf(&self) -> bool {
        self.lexer.wf()
    }

    /// The tokens not yet consumed.
    pub closed spec fn remaining(&self) -> Seq<TokenView> {
        self.lexer.remaining()
    }

    /// The source text the parser was built over.
    pub closed spec fn src(&self) -> Seq<char> {
        self.lexer.src()
    }

    /// The models of the errors collected so far.
    pub closed spec fn errs(&self) -> Seq<ParseErrorView> {
        errors_view(self.errors@)
    }

    /// Builds a parser over the given source text.
    pub fn new(input: String) -> (p: Parser)
        ensures
            p.wf(),
            p.remaining() == spec_tokens_from(input@, 0),
            p.errs() == Seq::<ParseErrorView>::empty(),
    {
        let p = Parser { lexer: Lexer::new(input), errors: Vec::new() };
        proof {
            assert(p.errs() =~= Seq::<ParseErrorView>::empty());
        }
        p
    }

    /// The structural errors collected by `parse_program`, in source order.
    pub fn errors(&self) -> (r: &Vec<ParseError>)
        ensures
            errors_view(r@) == self.errs(),
    {
        &self.errors
    }

    /// Consumes a trailing semicolon if one stands there.
    fn eat_semicolon(&mut self)
        requires
            old(self).wf(),
        ensures
            final(self).wf(),
            final(self).errs() == old(self).errs(),
            final(self).remaining() == skip_semi(old(self).remaining()),
    {
        let t = self.lexer.peek();
        if matches!(t, Token::Semicolon) {
            let _ = self.lexer.next_token();
        }
    }

    /// Parses one prefix form: the start of any expression.
    fn parse_prefix(&mut self) -> (r: Result<Expression, ParseError>)
        requires
            old(self).wf(),
        ensures
            final(self).wf(),
            final(self).errs() == old(self).errs(),
            match sp_prefix(old(self).remaining()) {
                Ok((v, rest)) => r matches Ok(e) && e@ == v && final(self).remaining() == rest,
                Err((ev, rest)) => r matches Err(pe) && pe@ == ev && final(self).remaining()
                    == rest,
            },
        decreases old(self).remaining().len(), 1int,
    {
        let ghost toks = self.lexer.remaining();
        let t = self.lexer.peek();
        match t {
            Token::Ident(name) => {
                let _ = self.lexer.next_token();
                Ok(Expression::Identifier(name))
            },
            Token::Int(text) => {
                let _ = self.lexer.next_token();
                Ok(Expression::Int(text))
            },
            Token::True => {
                let _ = self.lexer.next_token();
                Ok(Expression::Boolean(true))
            },
            Token::False => {
                let _ = self.lexer.next_token();
                Ok(Expression::Boolean(false))
            },
            Token::Bang | Token::Minus => {
                let op = self.lexer.next_token();
                match self.parse_expression(Precedence::Prefix) {
                    Ok(operand) => Ok(Expression::PrefixExpr { op, right: Box::new(operand) }),
                    Err(e) => Err(e),
                }
            },
            Token::LParen => {
                let _ = self.lexer.next_token();
                match self.parse_expression(Precedence::Lowest) {
                    Ok(inner) => {
                        let t2 = self.lexer.peek();
                        if matches!(t2, Token::RParen) {
                            let _ = self.lexer.next_token();
                            Ok(inner)
                        } else {
                            Err(ParseError::ExpectedToken { expected: Token::RParen, found: t2 })
                        }
                    },
                    Err(e) => Err(e),
                }
            },
            Token::If => {
                let _ = self.lexer.next_token();
                self.parse_if()
            },
            Token::Function => {
                let _ = self.lexer.next_token();
                self.parse_function()
            },
            other => Err(ParseError::NoPrefix { found: other }),
        }
    }

    /// Parses an `if` form, after the `if` keyword has been consumed.
    fn parse_if(&mut self) -> (r: Result<Expression, ParseError>)
        requires
            old(self).wf(),
        ensures
            final(self).wf(),
            final(self).errs() == old(self).errs(),
            match sp_if(old(self).remaining()) {
                Ok((v, rest)) => r matches Ok(e) && e@ == v && final(self).remaining() == rest,
                Err((ev, rest)) => r matches Err(pe) && pe@ == ev && final(self).remaining()
                    == rest,
            },
        decreases old(self).remaining().len(), 0int,
    {
        let ghost toks = self.lexer.remaining();
        let t = self.lexer.peek();
        if !matches!(t, Token::LParen) {
            return Err(ParseError::ExpectedToken { expected: Token::LParen, found: t });
        }
        let _ = self.lexer.next_token();
        let cond = match self.parse_expression(Precedence::Lowest) {
            Ok(c) => c,
            Err(e) => {
                return Err(e);
            },
        };
        proof {
            lemma_sp_expr_len(toks.skip(1), 0);
        }
        let t2 = self.lexer.peek();
        if !matches!(t2, Token::RParen) {
            return Err(ParseError::ExpectedToken { expected: Token::RParen, found: t2 });
        }
        let _ = self.lexer.next_token();
        let t3 = self.lexer.peek();
        if !matches!(t3, Token::LBrace) {
            return Err(ParseError::ExpectedToken { expected: Token::LBrace, found: t3 });
        }
        let _ = self.lexer.next_token();
        let ghost r2tail = self.lexer.remaining();
        let consequence = match self.parse_block() {
            Ok(b) => b,
            Err(e) => {
                return Err(e);
            },
        };
        proof {
            lemma_sp_block_len(r2tail);
        }
        let t4 = self.lexer.peek();
        if matches!(t4, Token::Else) {
            let _ = self.lexer.next_token();
            let t5 = self.lexer.peek();
            if !matches!(t5, Token::LBrace) {
                return Err(ParseError::ExpectedToken { expected: Token::LBrace, found: t5 });
            }
            let _ = self.lexer.next_token();
            let alternative = match self.parse_block() {
                Ok(b) => b,
                Err(e) => {
                    return Err(e);
                },
            };
            Ok(
                Expression::If {
                    condition: Box::new(cond),
                    consequence: Box::new(consequence),
                    alternative: Some(Box::new(alternative)),
                },
            )
        } else {
            Ok(
                Expression::If {
                    condition: Box::new(cond),
                    consequence: Box::new(consequence),
                    alternative: None,
                },
            )
        }
    }

    /// Parses a function literal, after the `fn` keyword has been consumed.
    fn parse_function(&mut self) -> (r: Result<Expression, ParseError>)
        requires
            old(self).wf(),
        ensures
            final(self).wf(),
            final(self).errs() == old(self).errs(),
            match sp_function(old(self).remaining()) {
                Ok((v, rest)) => r matches Ok(e) && e@ == v && final(self).remaining() == rest,
                Err((ev, rest)) => r matches Err(pe) && pe@ == ev && final(self).remaining()
                    == rest,
            },
        decreases old(self).remaining().len(), 0int,
    {
        let ghost toks = self.lexer.remaining();
        let t = self.lexer.peek();
        if !matches!(t, Token::LParen) {
            return Err(ParseError::ExpectedToken { expected: Token::LParen, found: t });
        }
        let _ = self.lexer.next_token();
        let parameters = match self.parse_params() {
            Ok(ps) => ps,
            Err(e) => {
                return Err(e);
            },
        };
        proof {
            lemma_sp_params_len(toks.skip(1));
        }
        let t2 = self.lexer.peek();
        if !matches!(t2, Token::LBrace) {
            return Err(ParseError::ExpectedToken { expected: Token::LBrace, found: t2 });
        }
        let _ = self.lexer.next_token();
        let body = match self.parse_block() {
            Ok(b) => b,
            Err(e) => {
                return Err(e);
            },
        };
        Ok(Expression::Function { parameters, body: Box::new(body) })
    }

    /// Parses a parameter list, after its opening parenthesis has been
    /// consumed.
    fn parse_params(&mut self) -> (r: Result<Vec<String>, ParseError>)
        requires
            old(self).wf(),
        ensures
            final(self).wf(),
            final(self).errs() == old(self).errs(),
            match sp_params(old(self).remaining()) {
                Ok((ps, rest)) => r matches Ok(v) && strings_view(v@) == ps
                    && final(self).remaining() == rest,
                Err((ev, rest)) => r matches Err(pe) && pe@ == ev && final(self).remaining()
                    == rest,
            },
        decreases old(self).remaining().len(), 0int,
    {
        let t = self.lexer.peek();
        match t {
            Token::RParen => {
                let _ = self.lexer.next_token();
                let v: Vec<String> = Vec::new();
                proof {
                    assert(strings_view(v@) =~= Seq::<Seq<char>>::empty());
                }
                Ok(v)
            },
            Token::Ident(name) => {
                let _ = self.lexer.next_token();
                let ghost nv = name@;
                let mut params: Vec<String> = Vec::new();
                params.push(name);
                proof {
                    assert(strings_view(params@) =~= seq![nv]);
                }
                loop
                    invariant
                        self.wf(),
                        self.errs() == old(self).errs(),
                        self.remaining().len() < old(self).remaining().len(),
                        match sp_params_tail(strings_view(params@), self.remaining()) {
                            Ok((ps, rest)) => sp_params(old(self).remaining()) matches Ok(p)
                                && p.0 == ps && p.1 == rest,
                            Err(e) => sp_params(old(self).remaining()) matches Err(e2) && e2 == e,
                        },
                    decreases self.remaining().len(),
                {
                    let ghost cur = self.lexer.remaining();
                    let t2 = self.lexer.peek();
                    match t2 {
                        Token::RParen => {
                            let _ = self.lexer.next_token();
                            return Ok(params);
                        },
                        Token::Comma => {
                            let _ = self.lexer.next_token();
                            let t3 = self.lexer.peek();
                            match t3 {
                                Token::Ident(n2) => {
                                    let _ = self.lexer.next_token();
                                    let ghost n2v = n2@;
                                    let ghost prev = strings_view(params@);
                                    params.push(n2);
                                    proof {
                                        assert(strings_view(params@) =~= prev.push(n2v));
                                    }
                                },
                                other => {
                                    return Err(ParseError::ExpectedIdent { found: other });
                                },
                            }
                        },
                        other => {
                            return Err(
                                ParseError::ExpectedToken { expected: Token::RParen, found: other },
                            );
                        },
                    }
                }
            },
            other => Err(ParseError::ExpectedIdent { found: other }),
        }
    }

    /// Parses a call's argument list, after its opening parenthesis has been
    /// consumed.
    fn parse_call_args(&mut self) -> (r: Result<Vec<Expression>, ParseError>)
        requires
            old(self).wf(),
        ensures
            final(self).wf(),
            final(self).errs() == old(self).errs(),
            match sp_call_args(old(self).remaining()) {
                Ok((avs, rest)) => r matches Ok(v) && exprs_view(v@) == avs
                    && final(self).remaining() == rest,
                Err((ev, rest)) => r matches Err(pe) && pe@ == ev && final(self).remaining()
                    == rest,
            },
        decreases old(self).remaining().len(), 3int,
    {
        let ghost toks = self.lexer.remaining();
        let t = self.lexer.peek();
        if matches!(t, Token::RParen) {
            let _ = self.lexer.next_token();
            let v: Vec<Expression> = Vec::new();
            proof {
                assert(exprs_view(v@) =~= Seq::<ExprView>::empty());
            }
            return Ok(v);
        }
        let first = match self.parse_expression(Precedence::Lowest) {
            Ok(e) => e,
            Err(e) => {
                return Err(e);
            },
        };
        proof {
            lemma_sp_expr_len(toks, 0);
        }
        let ghost fv = first@;
        let mut args: Vec<Expression> = Vec::new();
        args.push(first);
        proof {
            assert(seq![fv].skip(1) =~= Seq::<ExprView>::empty());
            assert(args@.skip(1) =~= Seq::<Expression>::empty());
            assert(exprs_view(args@.skip(1)) =~= Seq::<ExprView>::empty());
            assert(exprs_view(args@) =~= seq![fv]);
        }
        loop
            invariant
                self.wf(),
                self.errs() == old(self).errs(),
                self.remaining().len() < old(self).remaining().len(),
                match sp_args_tail(exprs_view(args@), self.remaining()) {
                    Ok((avs, rest)) => sp_call_args(old(self).remaining()) matches Ok(p) && p.0
                        == avs && p.1 == rest,
                    Err(e) => sp_call_args(old(self).remaining()) matches Err(e2) && e2 == e,
                },
            decreases self.remaining().len(),
        {
            let ghost cur = self.lexer.remaining();
            let t2 = self.lexer.peek();
            if matches!(t2, Token::RParen) {
                let _ = self.lexer.next_token();
                return Ok(args);
            }
            if matches!(t2, Token::Comma) {
                let _ = self.lexer.next_token();
                let ghost mid = self.lexer.remaining();
                match self.parse_expression(Precedence::Lowest) {
                    Ok(e) => {
                        proof {
                            lemma_sp_expr_len(mid, 0);
                        }
                        let ghost ev = e@;
                        let ghost prev = exprs_view(args@);
                        let ghost prevseq = args@;
                        args.push(e);
                        proof {
                            lemma_exprs_view_push(prevseq, args@[args@.len() - 1]);
                            assert(prev + seq![ev] =~= prev.push(ev));
                            assert(exprs_view(args@) =~= prev.push(ev));
                        }
                    },
                    Err(e) => {
                        return Err(e);
                    },
                }
            } else {
                return Err(ParseError::ExpectedToken { expected: Token::RParen, found: t2 });
            }
        }
    }

    /// Parses one infix step: the operator at the cursor combines the finished
    /// left-hand expression with what follows.
    fn parse_infix(&mut self, left: Expression) -> (r: Result<Expression, ParseError>)
        requires
            old(self).wf(),
            !(old(self).remaining()[0] is Eof),
        ensures
            final(self).wf(),
            final(self).errs() == old(self).errs(),
            r matches Ok(e) ==> sp_infix_step(left@, old(self).remaining()) == Ok::<
                (ExprView, Seq<TokenView>),
                (ParseErrorView, Seq<TokenView>),
            >((e@, final(self).remaining())),
            r matches Err(pe) ==> sp_infix_step(left@, old(self).remaining()) == Err::<
                (ExprView, Seq<TokenView>),
                (ParseErrorView, Seq<TokenView>),
            >((pe@, final(self).remaining())),
        decreases old(self).remaining().len(), 0int,
    {
        proof {
            self.lexer.lemma_shape();
        }
        let op = self.lexer.next_token();
        if matches!(op, Token::LParen) {
            match self.parse_call_args() {
                Ok(args) => Ok(Expression::Call { function: Box::new(left), arguments: args }),
                Err(e) => Err(e),
            }
        } else {
            let p = get_token_precedence(&op);
            match self.parse_expression(p) {
                Ok(rhs) => Ok(
                    Expression::InfixExpr { op, left: Box::new(left), right: Box::new(rhs) },
                ),
                Err(e) => Err(e),
            }
        }
    }

    /// Parses one expression by precedence climbing: a prefix form first, then
    /// every following operator that binds more tightly than the given level.
    #[verifier::rlimit(100)]
    fn parse_expression(&mut self, precedence: Precedence) -> (r: Result<Expression, ParseError>)
        requires
            old(self).wf(),
        ensures
            final(self).wf(),
            final(self).errs() == old(self).errs(),
            match sp_expr(old(self).remaining(), prec_val(precedence)) {
                Ok((v, rest)) => r matches Ok(e) && e@ == v && final(self).remaining() == rest,
                Err((ev, rest)) => r matches Err(pe) && pe@ == ev && final(self).remaining()
                    == rest,
            },
        decreases old(self).remaining().len(), 2int,
    {
        let ghost toks = self.lexer.remaining();
        let min_p = prec_value(precedence);
        let mut lhs: Expression;
        match self.parse_prefix() {
            Ok(e) => {
                lhs = e;
            },
            Err(e) => {
                return Err(e);
            },
        }
        proof {
            lemma_sp_prefix_len(toks);
        }
        loop
            invariant
                self.wf(),
                self.errs() == old(self).errs(),
                self.remaining().len() < old(self).remaining().len(),
                min_p as int == prec_val(precedence),
                match sp_infix_loop(lhs@, self.remaining(), prec_val(precedence)) {
                    Ok((v, rest)) => sp_expr(old(self).remaining(), prec_val(precedence)) matches
                        Ok(p) && p.0 == v && p.1 == rest,
                    Err(e) => sp_expr(old(self).remaining(), prec_val(precedence)) matches Err(e2)
                        && e2 == e,
                },
            decreases self.remaining().len(),
        {
            let ghost cur = self.lexer.remaining();
            let ghost lv = lhs@;
            let t = self.lexer.peek();
            let tp = get_token_precedence(&t);
            let tpv = prec_value(tp);
            if matches!(t, Token::Semicolon) || tpv <= min_p {
                proof {
                    lemma_sp_infix_loop_stop(lhs@, cur, prec_val(precedence));
                }
                return Ok(lhs);
            }
            proof {
                lemma_sp_infix_loop_step(lv, cur, prec_val(precedence));
            }
            match self.parse_infix(lhs) {
                Ok(nl) => {
                    proof {
                        lemma_sp_infix_step_len(lv, cur);
                        assert(sp_infix_loop(lv, cur, prec_val(precedence)) == sp_infix_loop(
                            nl@,
                            self.remaining(),
                            prec_val(precedence),
                        ));
                    }
                    lhs = nl;
                },
                Err(e) => {
                    return Err(e);
                },
            }
        }
    }

    /// Parses a `let` statement, after the `let` keyword has been consumed.
    fn parse_let(&mut self) -> (r: Result<Statement, ParseError>)
        requires
            old(self).wf(),
        ensures
            final(self).wf(),
            final(self).errs() == old(self).errs(),
            match sp_let(old(self).remaining()) {
                Ok((v, rest)) => r matches Ok(st) && st@ == v && final(self).remaining() == rest,
                Err((ev, rest)) => r matches Err(pe) && pe@ == ev && final(self).remaining()
                    == rest,
            },
        decreases old(self).remaining().len(), 3int,
    {
        let t = self.lexer.peek();
        match t {
            Token::Ident(name) => {
                let _ = self.lexer.next_token();
                let t2 = self.lexer.peek();
                if matches!(t2, Token::Assign) {
                    let _ = self.lexer.next_token();
                    match self.parse_expression(Precedence::Lowest) {
                        Ok(expr) => {
                            self.eat_semicolon();
                            Ok(Statement::Let { name, expr })
                        },
                        Err(e) => Err(e),
                    }
                } else {
                    Err(ParseError::ExpectedToken { expected: Token::Assign, found: t2 })
                }
            },
            other => Err(ParseError::ExpectedIdent { found: other }),
        }
    }

    /// Parses a `return` statement, after the `return` keyword has been
    /// consumed.
    fn parse_return(&mut self) -> (r: Result<Statement, ParseError>)
        requires
            old(self).wf(),
        ensures
            final(self).wf(),
            final(self).errs() == old(self).errs(),
            match sp_return(old(self).remaining()) {
                Ok((v, rest)) => r matches Ok(st) && st@ == v && final(self).remaining() == rest,
                Err((ev, rest)) => r matches Err(pe) && pe@ == ev && final(self).remaining()
                    == rest,
            },
        decreases old(self).remaining().len(), 3int,
    {
        match self.parse_expression(Precedence::Lowest) {
            Ok(expr) => {
                self.eat_semicolon();
                Ok(Statement::Return { expr })
            },
            Err(e) => Err(e),
        }
    }

    /// Parses an expression statement: one expression at the lowest
    /// precedence, with an optional trailing semicolon.
    fn parse_expression_statement(&mut self) -> (r: Result<Statement, ParseError>)
        requires
            old(self).wf(),
        ensures
            final(self).wf(),
            final(self).errs() == old(self).errs(),
            match sp_expr_stmt(old(self).remaining()) {
                Ok((v, rest)) => r matches Ok(st) && st@ == v && final(self).remaining() == rest,
                Err((ev, rest)) => r matches Err(pe) && pe@ == ev && final(self).remaining()
                    == rest,
            },
        decreases old(self).remaining().len(), 3int,
    {
        match self.parse_expression(Precedence::Lowest) {
            Ok(expr) => {
                self.eat_semicolon();
                Ok(Statement::Expression { expr })
            },
            Err(e) => Err(e),
        }
    }

    /// Parses one statement, dispatching on its leading token.
    fn parse_statement(&mut self) -> (r: Result<Statement, ParseError>)
        requires
            old(self).wf(),
        ensures
            final(self).wf(),
            final(self).errs() == old(self).errs(),
            match sp_stmt(old(self).remaining()) {
                Ok((v, rest)) => r matches Ok(st) && st@ == v && final(self).remaining() == rest,
                Err((ev, rest)) => r matches Err(pe) && pe@ == ev && final(self).remaining()
                    == rest,
            },
        decreases old(self).remaining().len(), 4int,
    {
        let t = self.lexer.peek();
        match t {
            Token::Let => {
                let _ = self.lexer.next_token();
                self.parse_let()
            },
            Token::Return => {
                let _ = self.lexer.next_token();
                self.parse_return()
            },
            _ => self.parse_expression_statement(),
        }
    }

    /// Parses a block, after its opening brace has been consumed: statements
    /// until the matching `}`; the end of input first is a structural error.
    fn parse_block(&mut self) -> (r: Result<Statement, ParseError>)
        requires
            old(self).wf(),
        ensures
            final(self).wf(),
            final(self).errs() == old(self).errs(),
            match sp_block(old(self).remaining()) {
                Ok((bv, rest)) => r matches Ok(st) && st@ == (StmtView::Block { body: bv })
                    && final(self).remaining() == rest,
                Err((ev, rest)) => r matches Err(pe) && pe@ == ev && final(self).remaining()
                    == rest,
            },
        decreases old(self).remaining().len(), 5int,
    {
        let mut body: Vec<Statement> = Vec::new();
        proof {
            assert(stmts_view(body@) =~= Seq::<StmtView>::empty());
        }
        loop
            invariant
                self.wf(),
                self.errs() == old(self).errs(),
                self.remaining().len() <= old(self).remaining().len(),
                match sp_block(self.remaining()) {
                    Ok((bv, rest)) => sp_block(old(self).remaining()) matches Ok(p) && p.0
                        == stmts_view(body@) + bv && p.1 == rest,
                    Err(e) => sp_block(old(self).remaining()) matches Err(e2) && e2 == e,
                },
            decreases self.remaining().len(),
        {
            let ghost cur = self.lexer.remaining();
            let t = self.lexer.peek();
            if matches!(t, Token::RBrace) {
                let _ = self.lexer.next_token();
                proof {
                    assert(stmts_view(body@) + Seq::<StmtView>::empty() =~= stmts_view(body@));
                }
                return Ok(Statement::Block { body });
            }
            if matches!(t, Token::Eof) {
                return Err(ParseError::ExpectedToken { expected: Token::RBrace, found: t });
            }
            match self.parse_statement() {
                Ok(st) => {
                    proof {
                        lemma_sp_stmt_len(cur);
                    }
                    let ghost sv = st@;
                    let ghost prev = body@;
                    body.push(st);
                    proof {
                        lemma_stmts_view_push(prev, body@[body@.len() - 1]);
                        match sp_block(self.remaining()) {
                            Ok((bv, rest)) => {
                                assert(stmts_view(prev) + (seq![sv] + bv) =~= stmts_view(body@)
                                    + bv);
                            },
                            Err(_) => {},
                        }
                    }
                },
                Err(e) => {
                    return Err(e);
                },
            }
        }
    }

    /// Error recovery: drops tokens up to and including the next semicolon, or
    /// up to the end marker.
    fn synchronize(&mut self)
        requires
            old(self).wf(),
        ensures
            final(self).wf(),
            final(self).errs() == old(self).errs(),
            final(self).remaining() == sp_sync(old(self).remaining()),
    {
        loop
            invariant_except_break
                self.wf(),
                self.errs() == old(self).errs(),
                sp_sync(self.remaining()) == sp_sync(old(self).remaining()),
            ensures
                self.wf(),
                self.errs() == old(self).errs(),
                self.remaining() == sp_sync(old(self).remaining()),
            decreases self.remaining().len(),
        {
            let ghost cur = self.lexer.remaining();
            let t = self.lexer.peek();
            if matches!(t, Token::Eof) {
                break;
            }
            let tok = self.lexer.next_token();
            if matches!(tok, Token::Semicolon) {
                break;
            }
        }
    }

    /// Parses the whole program: statements until the end marker, in source
    /// order. A statement that fails to parse is reported in the error list —
    /// never silently dropped — and parsing resumes after the next semicolon.
    #[verifier::rlimit(50)]
    pub fn parse_program(&mut self) -> (prog: Ast)
        requires
            old(self).wf(),
        ensures
            final(self).wf(),
            prog@ == sp_program(old(self).remaining()).0,
            final(self).errs() == old(self).errs() + sp_program(old(self).remaining()).1,
            final(self).remaining() == seq![TokenView::Eof],
    {
        let mut stmts: Vec<Statement> = Vec::new();
        proof {
            assert(stmts_view(stmts@) =~= Seq::<StmtView>::empty());
        }
        loop
            invariant_except_break
                self.wf(),
                sp_program(old(self).remaining()).0 == stmts_view(stmts@) + sp_program(
                    self.remaining(),
                ).0,
                old(self).errs() + sp_program(old(self).remaining()).1 == self.errs()
                    + sp_program(self.remaining()).1,
            ensures
                self.wf(),
                sp_program(old(self).remaining()).0 == stmts_view(stmts@) + sp_program(
                    self.remaining(),
                ).0,
                old(self).errs() + sp_program(old(self).remaining()).1 == self.errs()
                    + sp_program(self.remaining()).1,
                self.remaining()[0] is Eof,
                tokens_wf(self.remaining()),
            decreases self.remaining().len(),
        {
            let ghost cur = self.lexer.remaining();
            let t = self.lexer.peek();
            if matches!(t, Token::Eof) {
                break;
            }
            match self.parse_statement() {
                Ok(st) => {
                    proof {
                        lemma_sp_stmt_len(cur);
                    }
                    let ghost sv = st@;
                    let ghost prev = stmts@;
                    stmts.push(st);
                    proof {
                        lemma_stmts_view_push(prev, stmts@[stmts@.len() - 1]);
                        assert(stmts_view(prev) + (seq![sv] + sp_program(self.remaining()).0)
                            =~= stmts_view(stmts@) + sp_program(self.remaining()).0);
                    }
                },
                Err(e) => {
                    proof {
                        lemma_sp_stmt_len(cur);
                        lemma_sp_sync_len(self.remaining());
                    }
                    let ghost ev = e@;
                    let ghost preverrs = self.errs();
                    self.synchronize();
                    self.errors.push(e);
                    proof {
                        assert(self.errs() =~= preverrs + seq![ev]);
                        assert(preverrs + (seq![ev] + sp_program(self.remaining()).1) =~= (preverrs
                            + seq![ev]) + sp_program(self.remaining()).1);
                    }
                },
            }
        }
        proof {
            assert(self.remaining() =~= seq![TokenView::Eof]);
            assert(stmts_view(stmts@) + Seq::<StmtView>::empty() =~= stmts_view(stmts@));
            assert(old(self).errs() + sp_program(old(self).remaining()).1 =~= self.errs()
                + Seq::<ParseErrorView>::empty());
        }
        Ast { statements: stmts }
    }
}

/// Parses source text from scratch: the program built from its statements,
/// together with every structural error found, in order. The error list is
/// empty exactly when the model parses every statement of the input.
pub fn parse(input: String) -> (r: (Ast, Vec<ParseError>))
    ensures
        r.0@ == sp_program(spec_tokens_from(input@, 0)).0,
        errors_view(r.1@) == sp_program(spec_tokens_from(input@, 0)).1,
{
    let mut parser = Parser::new(input);
    let prog = parser.parse_program();
    proof {
        assert(Seq::<ParseErrorView>::empty() + sp_program(spec_tokens_from(input@, 0)).1
            =~= sp_program(spec_tokens_from(input@, 0)).1);
    }
    let Parser { lexer: _lexer, errors } = parser;
    (prog, errors)
}

} // verus!
