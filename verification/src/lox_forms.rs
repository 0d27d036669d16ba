//! What the grammar of Lox tells of the tokens that a statement is written
//! with: the token that it begins with, and where its parts stand. The
//! parser decides by the next token alone, and these facts show that it
//! then decides as the grammar does.
use crate::lox_parser::{
    after, cond_end, cuts_ok, expected, expr_semi, fits, for_head, for_reads, goes_on, inc_end,
    init_end, is_else, left_of, pieces_read, program_reads, reads, stmt_reads, var_reads, wanted,
    width, Expr, Stmt,
};
use crate::lox_scanner::{Token, TT};
use vstd::prelude::*;

verus! {

/// Whether an expression may begin with the token.
pub open spec fn starts_expr(t: TT) -> bool {
    ||| t == TT::OPAREN
    ||| t == TT::MINUS
    ||| t == TT::BANG
    ||| t == TT::DOLLAR
    ||| t == TT::FALSE
    ||| t == TT::TRUE
    ||| t == TT::NIL
    ||| t is Id
    ||| t is Str
    ||| t is Num
}

/// Whether a statement of the form of `s` may begin with the token.
pub open spec fn opens(s: Stmt, t: TT) -> bool {
    match s {
        Stmt::Print(_) => t == TT::PRINT,
        Stmt::Expr(_) => starts_expr(t),
        Stmt::Var(_, _) => t == TT::VAR,
        Stmt::If(_, _, _) => t == TT::IF,
        Stmt::While(_, _) => t == TT::WHILE || t == TT::FOR,
        Stmt::Block(_) => t == TT::OBRACE || t == TT::FOR,
    }
}

/// Whether `want` names a statement and the number of its tokens, and the
/// tokens of `toks` from position `from` on begin with that statement.
pub open spec fn stmt_wanted(
    want: Option<(Stmt, int)>,
    toks: Seq<Token>,
    from: int,
    decl: bool,
) -> bool {
    want matches Some((s, k)) && 0 <= from && 0 < k && from + k <= toks.len() && stmt_reads(
        s,
        toks.subrange(from, from + k),
        decl,
        after(toks, from + k),
    )
}

/// The expression that a statement begins with, behind its first tokens:
/// the value of a `print` or a declaration, the expression of an
/// expression statement, the condition of an `if` or a `while`.
pub open spec fn expr_of(want: Option<(Stmt, int)>) -> Option<Expr> {
    match want {
        Some((Stmt::Print(e), _)) => Some(e),
        Some((Stmt::Expr(e), _)) => Some(e),
        Some((Stmt::Var(_, e), _)) => Some(e),
        Some((Stmt::If(e, _, _), _)) => Some(e),
        Some((Stmt::While(e, _), _)) => Some(e),
        _ => None,
    }
}

/// The width of the expression of `expr_of`.
pub open spec fn width_of(want: Option<(Stmt, int)>) -> int {
    match expr_of(want) {
        Some(e) => width(e) as int,
        None => 0,
    }
}

/// An expression begins with a token that an expression may begin with.
pub proof fn lemma_expr_first(e: Expr, level: nat, toks: Seq<Token>)
    requires
        reads(e, toks),
        fits(e, level),
        level <= 8,
    ensures
        toks.len() >= 1,
        starts_expr(toks[0].token),
    decreases e, level,
{
    if level == 0 {
    } else if level == 1 {
        if fits(e, 0) {
            lemma_expr_first(e, 0, toks);
        }
    } else if level <= 7 {
        if fits(e, (level - 1) as nat) {
            lemma_expr_first(e, (level - 1) as nat, toks);
        } else {
            let lhs = left_of(e);
            let head = toks.subrange(0, width(lhs) as int);
            lemma_expr_first(lhs, level, head);
            assert(head[0] == toks[0]);
        }
    } else {
        if fits(e, 7) {
            lemma_expr_first(e, 7, toks);
        }
    }
}

/// An expression that stands between `from` and `to`, with a token at `to`
/// that does not go on with it, is the expression that the tokens from
/// `from` on begin with.
pub proof fn lemma_expr_wanted(e: Expr, toks: Seq<Token>, from: int, to: int)
    requires
        0 <= from <= to < toks.len(),
        reads(e, toks.subrange(from, to)),
        fits(e, 8),
        !goes_on(8, toks[to].token),
    ensures
        to - from == width(e),
        expected(e, 8, toks.subrange(from, toks.len() as int)),
        starts_expr(toks[from].token),
{
    let rest = toks.subrange(from, toks.len() as int);
    assert(rest.subrange(0, width(e) as int) =~= toks.subrange(from, to));
    assert(rest[width(e) as int] == toks[to]);
    lemma_expr_first(e, 8, toks.subrange(from, to));
    assert(toks.subrange(from, to)[0] == toks[from]);
}

/// A statement has a token, and begins with one that its form may begin
/// with; a declaration stands only where one may.
pub proof fn lemma_opens(s: Stmt, toks: Seq<Token>, decl: bool, next: Option<Token>)
    requires
        stmt_reads(s, toks, decl, next),
    ensures
        toks.len() >= 1,
        opens(s, toks[0].token),
        s is Var ==> decl,
{
    reveal(stmt_reads);
    reveal(for_reads);
    match s {
        Stmt::Expr(e) => {
            let head = toks.subrange(0, toks.len() - 1);
            lemma_expr_first(e, 8, head);
            assert(head[0] == toks[0]);
        },
        Stmt::While(cond, inner) => {
            if toks[0].token != TT::WHILE {
                lemma_loop_opens(None, cond, *inner, toks, next);
            }
        },
        Stmt::Block(items) => {
            if toks[0].token != TT::OBRACE {
                match items[1] {
                    Stmt::While(cond, inner) => {
                        lemma_loop_opens(Some(items[0]), cond, *inner, toks, next);
                    },
                    _ => {},
                }
            }
        },
        _ => {},
    }
}

/// The increment of a `for` loop whose `while` form has the body `inner`,
/// if it has one.
pub open spec fn inc_of(init: Option<Stmt>, cond: Expr, inner: Stmt, toks: Seq<Token>) -> Option<
    Expr,
> {
    if for_head(init, cond, None, toks) is Some {
        None
    } else {
        match inner {
            Stmt::Block(both) => match both[1] {
                Stmt::Expr(inc) => Some(inc),
                _ => None,
            },
            _ => None,
        }
    }
}

/// The statement of such a loop.
pub open spec fn body_of(init: Option<Stmt>, cond: Expr, inner: Stmt, toks: Seq<Token>) -> Stmt {
    if for_head(init, cond, None, toks) is Some {
        inner
    } else {
        match inner {
            Stmt::Block(both) => both[0],
            _ => inner,
        }
    }
}

/// A `for` loop has a head, begins with `for`, and has its statement
/// behind the head.
pub proof fn lemma_loop_opens(
    init: Option<Stmt>,
    cond: Expr,
    inner: Stmt,
    toks: Seq<Token>,
    next: Option<Token>,
)
    requires
        for_reads(init, cond, inner, toks, next),
    ensures
        toks.len() >= 1,
        toks[0].token == TT::FOR,
        for_head(init, cond, inc_of(init, cond, inner, toks), toks) == Some(
            inc_end(init, cond, inc_of(init, cond, inner, toks), toks) + 1,
        ),
        stmt_reads(
            body_of(init, cond, inner, toks),
            toks.subrange(
                inc_end(init, cond, inc_of(init, cond, inner, toks), toks) + 1,
                toks.len() as int,
            ),
            false,
            next,
        ),
{
    reveal(for_reads);
    reveal(stmt_reads);
    match for_head(init, cond, None, toks) {
        Some(at) => {
            assert(stmt_reads(inner, toks.subrange(at, toks.len() as int), false, next));
        },
        None => {
            let inc = inc_of(init, cond, inner, toks);
            assert(inc is Some);
            assert(for_head(init, cond, inc, toks) is Some);
        },
    }
}

/// The statement that `want` names begins with a token that its form may
/// begin with, and is a declaration only where one may stand.
pub proof fn lemma_form(want: Option<(Stmt, int)>, toks: Seq<Token>, from: int, decl: bool)
    requires
        stmt_wanted(want, toks, from, decl),
    ensures
        opens(want.unwrap().0, toks[from].token),
        want.unwrap().0 is Var ==> decl,
{
    let seg = toks.subrange(from, from + want.unwrap().1);
    lemma_opens(want.unwrap().0, seg, decl, after(toks, from + want.unwrap().1));
    assert(seg[0] == toks[from]);
}

/// A statement that is no declaration may stand where no declaration may.
pub proof fn lemma_decl_stmt(s: Stmt, toks: Seq<Token>, next: Option<Token>)
    requires
        stmt_reads(s, toks, true, next),
        !(s is Var),
    ensures
        stmt_reads(s, toks, false, next),
{
    reveal(stmt_reads);
}

/// An expression and a semicolon are an expression statement.
pub proof fn lemma_expr_stmt(e: Expr, toks: Seq<Token>, next: Option<Token>)
    requires
        expr_semi(e, toks),
    ensures
        stmt_reads(Stmt::Expr(e), toks, true, next),
{
    reveal(stmt_reads);
}

/// `var` and what stands behind it in a declaration are a declaration.
pub proof fn lemma_var_stmt(name: String, init: Expr, toks: Seq<Token>, next: Option<Token>)
    requires
        toks.len() >= 1,
        toks[0].token == TT::VAR,
        var_reads(name, init, toks.subrange(1, toks.len() as int)),
    ensures
        stmt_reads(Stmt::Var(name, init), toks, true, next),
{
    reveal(stmt_reads);
}

/// The parts of a `print` statement.
pub proof fn lemma_print_parts(want: Option<(Stmt, int)>, toks: Seq<Token>, from: int, decl: bool)
    requires
        stmt_wanted(want, toks, from, decl),
        want.unwrap().0 is Print,
    ensures
        toks[from].token == TT::PRINT,
        wanted(expr_of(want), 8, toks.subrange(from + 1, toks.len() as int)),
        want.unwrap().1 == width_of(want) + 2,
        toks[from + 1 + width_of(want)].token == TT::SEMICOLON,
{
    reveal(stmt_reads);
    let k = want.unwrap().1;
    let e = expr_of(want).unwrap();
    let seg = toks.subrange(from, from + k);
    let tail = seg.subrange(1, k);
    assert(seg[0] == toks[from]);
    assert(tail.subrange(0, tail.len() - 1) =~= toks.subrange(from + 1, from + k - 1));
    assert(tail[tail.len() - 1] == toks[from + k - 1]);
    lemma_expr_wanted(e, toks, from + 1, from + k - 1);
}

/// The parts of an expression statement.
pub proof fn lemma_expr_parts(want: Option<(Stmt, int)>, toks: Seq<Token>, from: int, decl: bool)
    requires
        stmt_wanted(want, toks, from, decl),
        want.unwrap().0 is Expr,
    ensures
        wanted(expr_of(want), 8, toks.subrange(from, toks.len() as int)),
        want.unwrap().1 == width_of(want) + 1,
        toks[from + width_of(want)].token == TT::SEMICOLON,
        starts_expr(toks[from].token),
{
    reveal(stmt_reads);
    let k = want.unwrap().1;
    let e = expr_of(want).unwrap();
    let seg = toks.subrange(from, from + k);
    assert(seg.subrange(0, seg.len() - 1) =~= toks.subrange(from, from + k - 1));
    assert(seg[seg.len() - 1] == toks[from + k - 1]);
    lemma_expr_wanted(e, toks, from, from + k - 1);
}

/// The parts of a variable declaration.
pub proof fn lemma_var_parts(want: Option<(Stmt, int)>, toks: Seq<Token>, from: int, decl: bool)
    requires
        stmt_wanted(want, toks, from, decl),
        want.unwrap().0 is Var,
    ensures
        want.unwrap().1 >= 3,
        toks[from].token == TT::VAR,
        toks[from + 1].token is Id,
        toks[from + 1].lexeme == want.unwrap().0->Var_0,
        if toks[from + 2].token == TT::ASSIGN {
            &&& wanted(expr_of(want), 8, toks.subrange(from + 3, toks.len() as int))
            &&& want.unwrap().1 == width_of(want) + 4
            &&& toks[from + 3 + width_of(want)].token == TT::SEMICOLON
        } else {
            &&& want.unwrap().1 == 3
            &&& toks[from + 2].token == TT::SEMICOLON
            &&& expr_of(want) == Some(Expr::Nil)
        },
{
    reveal(stmt_reads);
    let k = want.unwrap().1;
    let e = expr_of(want).unwrap();
    let seg = toks.subrange(from, from + k);
    let tail = seg.subrange(1, k);
    assert(seg[0] == toks[from]);
    assert(tail[0] == toks[from + 1]);
    assert(tail[1] == toks[from + 2]);
    if toks[from + 2].token == TT::ASSIGN {
        let value = tail.subrange(2, tail.len() as int);
        assert(value.subrange(0, value.len() - 1) =~= toks.subrange(from + 3, from + k - 1));
        assert(value[value.len() - 1] == toks[from + k - 1]);
        lemma_expr_wanted(e, toks, from + 3, from + k - 1);
    }
}

/// Where the `else` of an `if` statement stands in its tokens, or their
/// end where it has none.
pub open spec fn else_at(s: Stmt, toks: Seq<Token>, next: Option<Token>) -> int {
    match s {
        Stmt::If(cond, then, Some(el)) => {
            let after = 3 + width(cond) as int;
            choose|m: int|
                #![trigger toks[m]]
                {
                    &&& after < m < toks.len() - 1
                    &&& toks[m].token == TT::ELSE
                    &&& stmt_reads(*then, toks.subrange(after, m), false, Some(toks[m]))
                    &&& stmt_reads(*el, toks.subrange(m + 1, toks.len() as int), false, next)
                }
        },
        _ => toks.len() as int,
    }
}

/// The token behind the first statement of an `if` statement: its `else`,
/// or what stands behind the whole where it has none.
pub open spec fn then_next(s: Stmt, toks: Seq<Token>, next: Option<Token>) -> Option<Token> {
    match s {
        Stmt::If(_, _, Some(_)) => Some(toks[else_at(s, toks, next)]),
        _ => next,
    }
}

/// The statement of an `if` or a `while` and the number of its tokens.
pub open spec fn then_want(want: Option<(Stmt, int)>, toks: Seq<Token>, from: int) -> Option<
    (Stmt, int),
> {
    match want {
        Some((Stmt::If(cond, then, other), k)) => Some(
            (
                *then,
                else_at(want.unwrap().0, toks.subrange(from, from + k), after(toks, from + k)) - 3
                    - width(cond),
            ),
        ),
        Some((Stmt::While(cond, inner), k)) => Some((*inner, k - 3 - width(cond))),
        _ => None,
    }
}

/// The statement behind the `else` of an `if` and the number of its
/// tokens.
pub open spec fn else_want(want: Option<(Stmt, int)>, toks: Seq<Token>, from: int) -> Option<
    (Stmt, int),
> {
    match want {
        Some((Stmt::If(cond, then, Some(el)), k)) => Some(
            (
                *el,
                k - 1 - else_at(
                    want.unwrap().0,
                    toks.subrange(from, from + k),
                    after(toks, from + k),
                ),
            ),
        ),
        _ => None,
    }
}

/// What an `if` statement says of its tokens.
pub proof fn lemma_if_form(s: Stmt, toks: Seq<Token>, decl: bool, next: Option<Token>)
    requires
        stmt_reads(s, toks, decl, next),
        s is If,
    ensures
        ({
            let cond = s->If_0;
            let then = *s->If_1;
            let a = 3 + width(cond) as int;
            let m = else_at(s, toks, next);
            &&& toks.len() > a
            &&& toks[1].token == TT::OPAREN
            &&& reads(cond, toks.subrange(2, a - 1))
            &&& fits(cond, 8)
            &&& toks[a - 1].token == TT::CPAREN
            &&& a < m <= toks.len()
            &&& stmt_reads(then, toks.subrange(a, m), false, then_next(s, toks, next))
            &&& match s->If_2 {
                None => m == toks.len() && !is_else(next),
                Some(el) => {
                    &&& m < toks.len() - 1
                    &&& toks[m].token == TT::ELSE
                    &&& stmt_reads(*el, toks.subrange(m + 1, toks.len() as int), false, next)
                },
            }
        }),
{
    reveal(stmt_reads);
}

/// The parts of an `if` statement.
pub proof fn lemma_if_parts(want: Option<(Stmt, int)>, toks: Seq<Token>, from: int, decl: bool)
    requires
        stmt_wanted(want, toks, from, decl),
        want.unwrap().0 is If,
    ensures
        toks[from + 1].token == TT::OPAREN,
        wanted(expr_of(want), 8, toks.subrange(from + 2, toks.len() as int)),
        toks[from + 2 + width_of(want)].token == TT::CPAREN,
        stmt_wanted(then_want(want, toks, from), toks, from + 3 + width_of(want), false),
        ({
            let k = want.unwrap().1;
            let m = from + 3 + width_of(want) + then_want(want, toks, from).unwrap().1;
            match want.unwrap().0->If_2 {
                None => m == from + k && !is_else(after(toks, m)),
                Some(_) => {
                    &&& m < from + k
                    &&& toks[m].token == TT::ELSE
                    &&& stmt_wanted(else_want(want, toks, from), toks, m + 1, false)
                    &&& m + 1 + else_want(want, toks, from).unwrap().1 == from + k
                },
            }
        }),
{
    let s = want.unwrap().0;
    let k = want.unwrap().1;
    let e = expr_of(want).unwrap();
    let seg = toks.subrange(from, from + k);
    let next = after(toks, from + k);
    let a = 3 + width(e) as int;
    let m = else_at(s, seg, next);
    lemma_if_form(s, seg, decl, next);
    assert(seg[1] == toks[from + 1]);
    assert(seg[a - 1] == toks[from + a - 1]);
    assert(seg.subrange(2, a - 1) =~= toks.subrange(from + 2, from + a - 1));
    lemma_expr_wanted(e, toks, from + 2, from + a - 1);
    assert(seg.subrange(a, m) =~= toks.subrange(from + a, from + m));
    lemma_opens(*s->If_1, seg.subrange(a, m), false, then_next(s, seg, next));
    match s->If_2 {
        None => {},
        Some(el) => {
            assert(seg[m] == toks[from + m]);
            assert(seg.subrange(m + 1, k) =~= toks.subrange(from + m + 1, from + k));
            lemma_opens(*el, seg.subrange(m + 1, k), false, next);
        },
    }
}

/// What a `while` statement that is written with `while` says of its
/// tokens.
pub proof fn lemma_while_form(s: Stmt, toks: Seq<Token>, decl: bool, next: Option<Token>)
    requires
        stmt_reads(s, toks, decl, next),
        s is While,
        toks[0].token == TT::WHILE,
    ensures
        ({
            let cond = s->While_0;
            let a = 3 + width(cond) as int;
            &&& toks.len() > a
            &&& toks[1].token == TT::OPAREN
            &&& reads(cond, toks.subrange(2, a - 1))
            &&& fits(cond, 8)
            &&& toks[a - 1].token == TT::CPAREN
            &&& stmt_reads(*s->While_1, toks.subrange(a, toks.len() as int), false, next)
        }),
{
    reveal(stmt_reads);
}

/// The parts of a `while` statement that is written with `while`.
pub proof fn lemma_while_parts(want: Option<(Stmt, int)>, toks: Seq<Token>, from: int, decl: bool)
    requires
        stmt_wanted(want, toks, from, decl),
        want.unwrap().0 is While,
        toks[from].token == TT::WHILE,
    ensures
        toks[from + 1].token == TT::OPAREN,
        wanted(expr_of(want), 8, toks.subrange(from + 2, toks.len() as int)),
        toks[from + 2 + width_of(want)].token == TT::CPAREN,
        stmt_wanted(then_want(want, toks, from), toks, from + 3 + width_of(want), false),
        from + 3 + width_of(want) + then_want(want, toks, from).unwrap().1 == from
            + want.unwrap().1,
{
    let s = want.unwrap().0;
    let k = want.unwrap().1;
    let e = expr_of(want).unwrap();
    let seg = toks.subrange(from, from + k);
    let a = 3 + width(e) as int;
    assert(seg[0] == toks[from]);
    lemma_while_form(s, seg, decl, after(toks, from + k));
    assert(seg[1] == toks[from + 1]);
    assert(seg[a - 1] == toks[from + a - 1]);
    assert(seg.subrange(2, a - 1) =~= toks.subrange(from + 2, from + a - 1));
    lemma_expr_wanted(e, toks, from + 2, from + a - 1);
    assert(seg.subrange(a, k) =~= toks.subrange(from + a, from + k));
    lemma_opens(*s->While_1, seg.subrange(a, k), false, after(toks, from + k));
}

/// The cuts between the declarations of a block in braces, counted from
/// behind the opening brace.
pub open spec fn block_cuts(items: Vec<Stmt>, toks: Seq<Token>) -> Seq<int> {
    choose|cuts: Seq<int>|
        #![trigger cuts_ok(cuts, items.len() as int, toks.subrange(1, toks.len() - 1))]
        {
            &&& cuts_ok(cuts, items.len() as int, toks.subrange(1, toks.len() - 1))
            &&& forall|i: int|
                0 <= i < items.len() ==> stmt_reads(
                    #[trigger] items[i],
                    toks.subrange(1 + cuts[i], 1 + cuts[i + 1]),
                    true,
                    Some(toks[1 + cuts[i + 1]]),
                )
        }
}

/// The declarations of the block that `want` names, and the cuts between
/// them.
pub open spec fn items_of(want: Option<(Stmt, int)>) -> Seq<Stmt> {
    match want {
        Some((Stmt::Block(items), _)) => items@,
        _ => Seq::empty(),
    }
}

/// The cuts between the declarations of the block in braces that `want`
/// names.
pub open spec fn cuts_of(want: Option<(Stmt, int)>, toks: Seq<Token>, from: int) -> Seq<int> {
    match want {
        Some((Stmt::Block(items), k)) => block_cuts(items, toks.subrange(from, from + k)),
        _ => seq![0int],
    }
}

/// What a block in braces says of its tokens.
pub proof fn lemma_block_form(s: Stmt, toks: Seq<Token>, decl: bool, next: Option<Token>)
    requires
        stmt_reads(s, toks, decl, next),
        s is Block,
        toks[0].token == TT::OBRACE,
    ensures
        ({
            let items = s->Block_0;
            let cuts = block_cuts(items, toks);
            &&& toks.len() >= 2
            &&& toks[toks.len() - 1].token == TT::CBRACE
            &&& cuts_ok(cuts, items.len() as int, toks.subrange(1, toks.len() - 1))
            &&& forall|i: int|
                0 <= i < items.len() ==> stmt_reads(
                    #[trigger] items[i],
                    toks.subrange(1 + cuts[i], 1 + cuts[i + 1]),
                    true,
                    Some(toks[1 + cuts[i + 1]]),
                )
        }),
{
    reveal(stmt_reads);
}

/// The parts of a block in braces.
pub proof fn lemma_block_parts(want: Option<(Stmt, int)>, toks: Seq<Token>, from: int, decl: bool)
    requires
        stmt_wanted(want, toks, from, decl),
        want.unwrap().0 is Block,
        toks[from].token == TT::OBRACE,
    ensures
        want.unwrap().1 >= 2,
        toks[from + want.unwrap().1 - 1].token == TT::CBRACE,
        pieces_read(items_of(want), toks, from + 1, cuts_of(want, toks, from)),
        cuts_of(want, toks, from)[items_of(want).len() as int] == want.unwrap().1 - 2,
{
    let k = want.unwrap().1;
    let items = items_of(want);
    let seg = toks.subrange(from, from + k);
    let cuts = cuts_of(want, toks, from);
    assert(seg[0] == toks[from]);
    lemma_block_form(want.unwrap().0, seg, decl, after(toks, from + k));
    assert(seg[k - 1] == toks[from + k - 1]);
    assert(cuts_ok(cuts, items.len() as int, seg.subrange(1, k - 1)));
    assert forall|i: int| 0 <= i < items.len() implies stmt_reads(
        #[trigger] items[i],
        toks.subrange(from + 1 + cuts[i], from + 1 + cuts[i + 1]),
        true,
        after(toks, from + 1 + cuts[i + 1]),
    ) by {
        assert(0 <= cuts[i] <= cuts[i + 1] <= k - 2);
        assert(seg.subrange(1 + cuts[i], 1 + cuts[i + 1]) =~= toks.subrange(
            from + 1 + cuts[i],
            from + 1 + cuts[i + 1],
        ));
        assert(seg[1 + cuts[i + 1]] == toks[from + 1 + cuts[i + 1]]);
    }
}

/// What holds of one of the pieces that declarations are read from: it has
/// a token, its first token closes no block, and its declaration is the
/// one that the tokens begin with there.
pub proof fn lemma_piece_step(
    items: Seq<Stmt>,
    toks: Seq<Token>,
    start: int,
    cuts: Seq<int>,
    i: int,
)
    requires
        0 <= start,
        pieces_read(items, toks, start, cuts),
        start + cuts[items.len() as int] <= toks.len(),
        0 <= i <= items.len(),
    ensures
        0 <= cuts[i] <= cuts[items.len() as int],
        i < items.len() ==> {
            &&& cuts[i] < cuts[i + 1] <= cuts[items.len() as int]
            &&& toks[start + cuts[i]].token.kind() != TT::CBRACE.kind()
            &&& stmt_wanted(Some((items[i], cuts[i + 1] - cuts[i])), toks, start + cuts[i], true)
        },
    decreases items.len() - i,
{
    if i < items.len() {
        lemma_piece_step(items, toks, start, cuts, i + 1);
        let piece = toks.subrange(start + cuts[i], start + cuts[i + 1]);
        assert(0 <= cuts[i] <= cuts[i + 1]);
        lemma_opens(items[i], piece, true, after(toks, start + cuts[i + 1]));
        assert(piece[0] == toks[start + cuts[i]]);
    } else if i > 0 {
        assert(0 <= cuts[i - 1] <= cuts[i - 1 + 1]);
    }
}

/// The cuts between the declarations of a program.
pub open spec fn program_cuts(items: Seq<Stmt>, toks: Seq<Token>) -> Seq<int> {
    choose|cuts: Seq<int>|
        #![trigger cuts_ok(cuts, items.len() as int, toks)]
        {
            &&& cuts_ok(cuts, items.len() as int, toks)
            &&& forall|i: int|
                0 <= i < items.len() ==> stmt_reads(
                    #[trigger] items[i],
                    toks.subrange(cuts[i], cuts[i + 1]),
                    true,
                    after(toks, cuts[i + 1]),
                )
        }
}

/// The declarations that the tokens from `start` on are a program of, if
/// they are one.
pub open spec fn program_of(toks: Seq<Token>, start: int) -> Seq<Stmt> {
    choose|items: Seq<Stmt>| program_reads(items, toks.subrange(start, toks.len() as int))
}

/// The declarations of a program are read one after another, up to the
/// end of the tokens.
pub proof fn lemma_program_pieces(items: Seq<Stmt>, toks: Seq<Token>, start: int)
    requires
        0 <= start <= toks.len(),
        program_reads(items, toks.subrange(start, toks.len() as int)),
    ensures
        pieces_read(
            items,
            toks,
            start,
            program_cuts(items, toks.subrange(start, toks.len() as int)),
        ),
        program_cuts(items, toks.subrange(start, toks.len() as int))[items.len() as int]
            == toks.len() - start,
{
    let rest = toks.subrange(start, toks.len() as int);
    let cuts = program_cuts(items, rest);
    assert(cuts_ok(cuts, items.len() as int, rest));
    assert forall|i: int| 0 <= i < items.len() implies stmt_reads(
        #[trigger] items[i],
        toks.subrange(start + cuts[i], start + cuts[i + 1]),
        true,
        after(toks, start + cuts[i + 1]),
    ) by {
        assert(0 <= cuts[i] <= cuts[i + 1] <= rest.len());
        assert(rest.subrange(cuts[i], cuts[i + 1]) =~= toks.subrange(
            start + cuts[i],
            start + cuts[i + 1],
        ));
        assert(after(rest, cuts[i + 1]) == after(toks, start + cuts[i + 1]));
    }
}

/// The initializer of the `for` loop that `s` is written as, if it has
/// one: with one, the loop stands in a block behind it.
pub open spec fn loop_init(s: Stmt) -> Option<Stmt> {
    match s {
        Stmt::Block(items) => Some(items[0]),
        _ => None,
    }
}

/// The `while` statement that a `for` loop is written as.
pub open spec fn loop_of(s: Stmt) -> Stmt {
    match s {
        Stmt::Block(items) => items[1],
        _ => s,
    }
}

/// The condition of the `for` loop that `s` is written as.
pub open spec fn loop_cond(s: Stmt) -> Expr {
    match loop_of(s) {
        Stmt::While(cond, _) => cond,
        _ => Expr::Nil,
    }
}

/// The body of the `while` statement that a `for` loop is written as.
pub open spec fn loop_inner(s: Stmt) -> Stmt {
    match loop_of(s) {
        Stmt::While(_, inner) => *inner,
        _ => s,
    }
}

/// The increment of the `for` loop `s` that `toks` are the tokens of, if
/// it has one.
pub open spec fn loop_inc(s: Stmt, toks: Seq<Token>) -> Option<Expr> {
    inc_of(loop_init(s), loop_cond(s), loop_inner(s), toks)
}

/// The statement of the `for` loop `s` that `toks` are the tokens of.
pub open spec fn loop_body(s: Stmt, toks: Seq<Token>) -> Stmt {
    body_of(loop_init(s), loop_cond(s), loop_inner(s), toks)
}

/// A statement that begins with `for` is a `for` loop.
pub proof fn lemma_for_form(s: Stmt, toks: Seq<Token>, decl: bool, next: Option<Token>)
    requires
        stmt_reads(s, toks, decl, next),
        toks[0].token == TT::FOR,
    ensures
        for_reads(loop_init(s), loop_cond(s), loop_inner(s), toks, next),
{
    lemma_opens(s, toks, decl, next);
    reveal(stmt_reads);
    reveal(for_reads);
}

/// The parts of a `for` loop, as they stand in the tokens from `from` on.
pub struct LoopParts {
    /// The initializer and the number of its tokens, if there is one.
    pub init: Option<(Stmt, int)>,
    /// The condition, if one is written.
    pub cond: Option<Expr>,
    /// The increment, if one is written.
    pub inc: Option<Expr>,
    /// The statement and the number of its tokens.
    pub body: Option<(Stmt, int)>,
    /// Where the condition, or the semicolon in its place, stands.
    pub b: int,
    /// Where the semicolon behind the condition stands.
    pub c: int,
    /// Where the closing parenthesis stands.
    pub d: int,
}

/// The parts of the `for` loop that `want` names.
#[verifier::opaque]
pub open spec fn loop_parts(want: Option<(Stmt, int)>, toks: Seq<Token>, from: int) -> LoopParts {
    let s = want.unwrap().0;
    let k = want.unwrap().1;
    let seg = toks.subrange(from, from + k);
    let init = loop_init(s);
    let cond = loop_cond(s);
    let inc = loop_inc(s, seg);
    let b = init_end(init, seg);
    let c = cond_end(init, cond, seg);
    let d = inc_end(init, cond, inc, seg);
    LoopParts {
        init: match init {
            Some(st) => Some((st, b - 2)),
            None => None,
        },
        cond: if c > b {
            Some(cond)
        } else {
            None
        },
        inc,
        body: Some((loop_body(s, seg), k - d - 1)),
        b: from + b,
        c: from + c,
        d: from + d,
    }
}

/// Where the parts of a `for` loop stand.
pub proof fn lemma_for_parts(want: Option<(Stmt, int)>, toks: Seq<Token>, from: int, decl: bool)
    requires
        stmt_wanted(want, toks, from, decl),
        toks[from].token == TT::FOR,
    ensures
        ({
            let p = loop_parts(want, toks, from);
            &&& from + 3 <= p.b <= p.c < p.d
            &&& p.d + 1 < from + want.unwrap().1
            &&& toks[from + 1].token == TT::OPAREN
            &&& match p.init {
                None => toks[from + 2].token == TT::SEMICOLON && p.b == from + 3,
                Some((st, n)) => (st is Var || st is Expr) && stmt_wanted(
                    p.init,
                    toks,
                    from + 2,
                    true,
                ) && p.b == from + 2 + n,
            }
            &&& match p.cond {
                None => p.c == p.b,
                Some(e) => expected(e, 8, toks.subrange(p.b, toks.len() as int)) && p.c == p.b
                    + width(e),
            }
            &&& toks[p.c].token == TT::SEMICOLON
            &&& match p.inc {
                None => p.d == p.c + 1,
                Some(i) => expected(i, 8, toks.subrange(p.c + 1, toks.len() as int)) && p.d == p.c
                    + 1 + width(i),
            }
            &&& toks[p.d].token == TT::CPAREN
            &&& stmt_wanted(p.body, toks, p.d + 1, false)
            &&& p.d + 1 + p.body.unwrap().1 == from + want.unwrap().1
        }),
{
    reveal(loop_parts);
    let s = want.unwrap().0;
    let k = want.unwrap().1;
    let seg = toks.subrange(from, from + k);
    let init = loop_init(s);
    let cond = loop_cond(s);
    let inner = loop_inner(s);
    let inc = loop_inc(s, seg);
    let body = loop_body(s, seg);
    let next = after(toks, from + k);
    let b = init_end(init, seg);
    let c = cond_end(init, cond, seg);
    let d = inc_end(init, cond, inc, seg);
    assert(seg[0] == toks[from]);
    lemma_for_form(s, seg, decl, next);
    lemma_loop_opens(init, cond, inner, seg, next);
    lemma_opens(body, seg.subrange(d + 1, k), false, next);
    assert(seg.subrange(d + 1, k) =~= toks.subrange(from + d + 1, from + k));
    assert(seg[1] == toks[from + 1]);
    assert(seg[2] == toks[from + 2]);
    assert(seg[b] == toks[from + b]);
    assert(seg[c] == toks[from + c]);
    assert(seg[d] == toks[from + d]);
    match init {
        None => {},
        Some(Stmt::Var(name, e)) => {
            let piece = toks.subrange(from + 2, from + b);
            assert(piece[0] == toks[from + 2]);
            assert(piece.subrange(1, piece.len() as int) =~= seg.subrange(3, b));
            lemma_var_stmt(name, e, piece, after(toks, from + b));
        },
        Some(Stmt::Expr(e)) => {
            assert(toks.subrange(from + 2, from + b) =~= seg.subrange(2, b));
            lemma_expr_stmt(e, seg.subrange(2, b), after(toks, from + b));
        },
        Some(_) => {},
    }
    if c > b {
        assert(seg.subrange(b, c) =~= toks.subrange(from + b, from + c));
        lemma_expr_wanted(cond, toks, from + b, from + c);
    }
    match inc {
        None => {},
        Some(i) => {
            assert(seg.subrange(c + 1, d) =~= toks.subrange(from + c + 1, from + d));
            lemma_expr_wanted(i, toks, from + c + 1, from + d);
        },
    }
}

} // verus!
