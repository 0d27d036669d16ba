//! What the parser of Lox makes of tokens, step by step: the statement and
//! the number of tokens taken, or the message of the first failure and the
//! number of tokens taken before it. The parser reads from left to right,
//! decides by the next token, and never looks back.
//!
//! Where a definition goes on behind a part that was read, it asks that the
//! part took at least one token and no more than there are. What is read
//! always does; the bound is there for the definition to end, and the
//! failure with an empty message in its other branch never comes.
use crate::lox_parser::{after, descend, error_text, Expr, Outcome, StmtView};
use crate::lox_scanner::{Token, TT};
use crate::lox_unique::loop_shape;
use vstd::prelude::*;

verus! {

/// What comes of reading a part of a program.
pub enum Went<T> {
    /// What was read, and the number of tokens that were taken.
    Parsed(T, int),
    /// The message of the failure, and the number of tokens that were
    /// taken before it.
    Failed(Seq<char>, int),
}

/// Whether the token at position `n` of `rest` is of the kind of `kind`.
pub open spec fn stands(rest: Seq<Token>, n: int, kind: TT) -> bool {
    0 <= n < rest.len() && rest[n].token.kind() == kind.kind()
}

/// The failure of a parser that wants a token at position `n` and finds
/// another, or none.
pub open spec fn missing<T>(rest: Seq<Token>, n: int, msg: Seq<char>) -> Went<T> {
    Went::Failed(error_text(after(rest, n), msg), n)
}

/// An expression from position `from` on and a semicolon behind it; `msg`
/// is the message where the semicolon is missing.
#[verifier::opaque]
pub open spec fn semi_model(rest: Seq<Token>, from: int, msg: Seq<char>) -> Went<Expr> {
    match descend(8, rest.subrange(from, rest.len() as int)) {
        Outcome::Parsed(e, n) => if stands(rest, from + n, TT::SEMICOLON) {
            Went::Parsed(e, from + n + 1)
        } else {
            missing(rest, from + n, msg)
        },
        Outcome::Failed(text, n) => Went::Failed(text, from + n),
    }
}

/// A `print` statement behind its `print`.
#[verifier::opaque]
pub open spec fn print_model(rest: Seq<Token>) -> Went<StmtView> {
    match semi_model(rest, 0, "expect ';' after value"@) {
        Went::Parsed(e, n) => Went::Parsed(StmtView::Print(e), n),
        Went::Failed(text, n) => Went::Failed(text, n),
    }
}

/// An expression statement.
#[verifier::opaque]
pub open spec fn plain_model(rest: Seq<Token>) -> Went<StmtView> {
    match semi_model(rest, 0, "expect ';' after value"@) {
        Went::Parsed(e, n) => Went::Parsed(StmtView::Expr(e), n),
        Went::Failed(text, n) => Went::Failed(text, n),
    }
}

/// A variable declaration behind its `var`: the name, a value behind `=`
/// or `nil` without one, and a semicolon.
#[verifier::opaque]
pub open spec fn var_model(rest: Seq<Token>) -> Went<StmtView> {
    if !(rest.len() > 0 && rest[0].token is Id) {
        missing(rest, 0, "expect variable name"@)
    } else if stands(rest, 1, TT::ASSIGN) {
        match semi_model(rest, 2, "expect ';' after variable decl"@) {
            Went::Parsed(e, n) => Went::Parsed(StmtView::Var(rest[0].lexeme, e), n),
            Went::Failed(text, n) => Went::Failed(text, n),
        }
    } else if stands(rest, 1, TT::SEMICOLON) {
        Went::Parsed(StmtView::Var(rest[0].lexeme, Expr::Nil), 2)
    } else {
        missing(rest, 1, "expect ';' after variable decl"@)
    }
}

/// A condition in parentheses from the front of `rest` on; `open` and
/// `close` are the messages where a parenthesis is missing.
#[verifier::opaque]
pub open spec fn cond_model(rest: Seq<Token>, open: Seq<char>, close: Seq<char>) -> Went<Expr> {
    if !stands(rest, 0, TT::OPAREN) {
        missing(rest, 0, open)
    } else {
        match descend(8, rest.subrange(1, rest.len() as int)) {
            Outcome::Parsed(e, n) => if stands(rest, 1 + n, TT::CPAREN) {
                Went::Parsed(e, 2 + n)
            } else {
                missing(rest, 1 + n, close)
            },
            Outcome::Failed(text, n) => Went::Failed(text, 1 + n),
        }
    }
}

/// The initializer of a `for` loop behind `for (`: a semicolon, a
/// variable declaration, or an expression statement.
#[verifier::opaque]
pub open spec fn init_model(rest: Seq<Token>) -> Went<Option<StmtView>> {
    if stands(rest, 0, TT::SEMICOLON) {
        Went::Parsed(None, 1)
    } else if stands(rest, 0, TT::VAR) {
        match var_model(rest.subrange(1, rest.len() as int)) {
            Went::Parsed(s, n) => Went::Parsed(Some(s), 1 + n),
            Went::Failed(text, n) => Went::Failed(text, 1 + n),
        }
    } else {
        match plain_model(rest) {
            Went::Parsed(s, n) => Went::Parsed(Some(s), n),
            Went::Failed(text, n) => Went::Failed(text, n),
        }
    }
}

/// The condition of a `for` loop, `true` where none is written, and the
/// semicolon behind it.
#[verifier::opaque]
pub open spec fn until_model(rest: Seq<Token>) -> Went<Expr> {
    if rest.len() > 0 && !stands(rest, 0, TT::SEMICOLON) {
        semi_model(rest, 0, "expect ';' loop condition"@)
    } else if stands(rest, 0, TT::SEMICOLON) {
        Went::Parsed(Expr::Bool(true), 1)
    } else {
        missing(rest, 0, "expect ';' loop condition"@)
    }
}

/// The increment of a `for` loop, if one is written, and the closing
/// parenthesis behind it.
#[verifier::opaque]
pub open spec fn step_model(rest: Seq<Token>) -> Went<Option<Expr>> {
    if rest.len() > 0 && !stands(rest, 0, TT::CPAREN) {
        match descend(8, rest) {
            Outcome::Parsed(e, n) => if stands(rest, n, TT::CPAREN) {
                Went::Parsed(Some(e), n + 1)
            } else {
                missing(rest, n, "expect ')' after 'for' clause"@)
            },
            Outcome::Failed(text, n) => Went::Failed(text, n),
        }
    } else if stands(rest, 0, TT::CPAREN) {
        Went::Parsed(None, 1)
    } else {
        missing(rest, 0, "expect ')' after 'for' clause"@)
    }
}

/// The head of a `for` loop behind its `for`.
#[verifier::opaque]
pub open spec fn head_model(rest: Seq<Token>) -> Went<(Option<StmtView>, Expr, Option<Expr>)> {
    if !stands(rest, 0, TT::OPAREN) {
        missing(rest, 0, "expect '(' after 'for'"@)
    } else {
        match init_model(rest.subrange(1, rest.len() as int)) {
            Went::Failed(text, n) => Went::Failed(text, 1 + n),
            Went::Parsed(init, n) => match until_model(rest.subrange(1 + n, rest.len() as int)) {
                Went::Failed(text, m) => Went::Failed(text, 1 + n + m),
                Went::Parsed(cond, m) => match step_model(
                    rest.subrange(1 + n + m, rest.len() as int),
                ) {
                    Went::Failed(text, k) => Went::Failed(text, 1 + n + m + k),
                    Went::Parsed(inc, k) => Went::Parsed((init, cond, inc), 1 + n + m + k),
                },
            },
        }
    }
}

/// A declaration, or a statement where `decl` is false, from the front of
/// `rest` on. The first token decides: `var` begins a declaration,
/// `print`, `{`, `if`, `while` and `for` their statements, and every other
/// token an expression statement.
pub open spec fn stated(decl: bool, rest: Seq<Token>) -> Went<StmtView>
    decreases rest.len(), 0nat,
{
    let tail = rest.subrange(1, rest.len() as int);
    if decl && stands(rest, 0, TT::VAR) {
        put_off(var_model(tail), 1)
    } else if stands(rest, 0, TT::PRINT) {
        put_off(print_model(tail), 1)
    } else if stands(rest, 0, TT::OBRACE) {
        match block_model(tail, 0, Seq::empty()) {
            Went::Parsed(items, n) => Went::Parsed(StmtView::Block(items), 1 + n),
            Went::Failed(text, n) => Went::Failed(text, 1 + n),
        }
    } else if stands(rest, 0, TT::IF) {
        put_off(if_model(tail), 1)
    } else if stands(rest, 0, TT::WHILE) {
        put_off(while_model(tail), 1)
    } else if stands(rest, 0, TT::FOR) {
        put_off(for_model(tail), 1)
    } else {
        plain_model(rest)
    }
}

/// The outcome `w`, with `by` more tokens taken before it.
pub open spec fn put_off<T>(w: Went<T>, by: int) -> Went<T> {
    match w {
        Went::Parsed(s, n) => Went::Parsed(s, n + by),
        Went::Failed(text, n) => Went::Failed(text, n + by),
    }
}

/// The declarations of a block behind its `{`, from position `n` on and
/// behind the declarations `items`: one declaration after another up to
/// the closing brace.
pub open spec fn block_model(rest: Seq<Token>, n: int, items: Seq<StmtView>) -> Went<
    Seq<StmtView>,
>
    decreases rest.len() - n, 1nat,
{
    if 0 <= n < rest.len() && !stands(rest, n, TT::CBRACE) {
        match stated(true, rest.subrange(n, rest.len() as int)) {
            Went::Parsed(s, m) => if 0 < m <= rest.len() - n {
                block_model(rest, n + m, items.push(s))
            } else {
                Went::Failed(Seq::empty(), n)
            },
            Went::Failed(text, m) => Went::Failed(text, n + m),
        }
    } else if stands(rest, n, TT::CBRACE) {
        Went::Parsed(items, n + 1)
    } else {
        missing(rest, n, "expect '}' after value"@)
    }
}

/// What stands behind the first statement of an `if` statement: `else`
/// and a statement, or nothing.
pub open spec fn else_model(rest: Seq<Token>) -> Went<Option<StmtView>>
    decreases rest.len(), 1nat,
{
    if stands(rest, 0, TT::ELSE) {
        match stated(false, rest.subrange(1, rest.len() as int)) {
            Went::Failed(text, k) => Went::Failed(text, 1 + k),
            Went::Parsed(other, k) => Went::Parsed(Some(other), 1 + k),
        }
    } else {
        Went::Parsed(None, 0)
    }
}

/// An `if` statement behind its `if`.
pub open spec fn if_model(rest: Seq<Token>) -> Went<StmtView>
    decreases rest.len(), 2nat,
{
    match cond_model(rest, "expect '(' after 'if'"@, "expect ')' after 'if' condition"@) {
        Went::Failed(text, n) => Went::Failed(text, n),
        Went::Parsed(cond, n) => if 0 < n <= rest.len() {
            match stated(false, rest.subrange(n, rest.len() as int)) {
                Went::Failed(text, m) => Went::Failed(text, n + m),
                Went::Parsed(then, m) => if 0 < m <= rest.len() - n {
                    match else_model(rest.subrange(n + m, rest.len() as int)) {
                        Went::Failed(text, k) => Went::Failed(text, n + m + k),
                        Went::Parsed(other, k) => Went::Parsed(
                            StmtView::If(
                                cond,
                                Box::new(then),
                                match other {
                                    Some(el) => Some(Box::new(el)),
                                    None => None,
                                },
                            ),
                            n + m + k,
                        ),
                    }
                } else {
                    Went::Failed(Seq::empty(), n)
                },
            }
        } else {
            Went::Failed(Seq::empty(), n)
        },
    }
}

/// A `while` statement behind its `while`.
pub open spec fn while_model(rest: Seq<Token>) -> Went<StmtView>
    decreases rest.len(), 1nat,
{
    match cond_model(rest, "expect '(' after 'while'"@, "expect ')' after 'if' condition"@) {
        Went::Failed(text, n) => Went::Failed(text, n),
        Went::Parsed(cond, n) => if 0 < n <= rest.len() {
            match stated(false, rest.subrange(n, rest.len() as int)) {
                Went::Failed(text, m) => Went::Failed(text, n + m),
                Went::Parsed(body, m) => Went::Parsed(
                    StmtView::While(cond, Box::new(body)),
                    n + m,
                ),
            }
        } else {
            Went::Failed(Seq::empty(), n)
        },
    }
}

/// A `for` loop behind its `for`, written as the `while` loop that it
/// stands for.
pub open spec fn for_model(rest: Seq<Token>) -> Went<StmtView>
    decreases rest.len(), 1nat,
{
    match head_model(rest) {
        Went::Failed(text, n) => Went::Failed(text, n),
        Went::Parsed(head, n) => if 0 < n <= rest.len() {
            match stated(false, rest.subrange(n, rest.len() as int)) {
                Went::Failed(text, m) => Went::Failed(text, n + m),
                Went::Parsed(body, m) => Went::Parsed(
                    loop_shape(head.0, head.1, head.2, body),
                    n + m,
                ),
            }
        } else {
            Went::Failed(Seq::empty(), n)
        },
    }
}

/// The declarations of a program from position `n` on and behind the
/// declarations `items`: one after another up to the end of the tokens.
pub open spec fn program_model(rest: Seq<Token>, n: int, items: Seq<StmtView>) -> Went<
    Seq<StmtView>,
>
    decreases rest.len() - n, 1nat,
{
    if 0 <= n < rest.len() {
        match stated(true, rest.subrange(n, rest.len() as int)) {
            Went::Parsed(s, m) => if 0 < m <= rest.len() - n {
                program_model(rest, n + m, items.push(s))
            } else {
                Went::Failed(Seq::empty(), n)
            },
            Went::Failed(text, m) => Went::Failed(text, n + m),
        }
    } else {
        Went::Parsed(items, n)
    }
}

} // verus!
