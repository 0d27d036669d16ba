//! The grammar of Lox is unambiguous: tokens are an expression, a
//! statement or a program in at most one way. And what is read step by
//! step as an expression is an expression of the grammar.
use crate::lox_forms::{
    cuts_of, else_want, expr_of, items_of, lemma_block_parts, lemma_expr_parts, lemma_expr_wanted,
    lemma_for_form, lemma_for_parts, lemma_form, lemma_if_parts, lemma_opens, lemma_piece_step,
    lemma_print_parts, lemma_program_pieces, lemma_var_parts, lemma_while_parts, loop_body,
    loop_cond, loop_inc, loop_init, loop_inner, loop_parts, program_cuts, stmt_wanted, then_want,
    width_of,
};
use crate::lox_parser::{
    after, descend, expected, first_operand, fits, for_reads, is_op, join, left_of,
    lemma_block_shape, lemma_first_operand, lemma_op_goes_on, lemma_own_level,
    lemma_right_expected, lemma_spine_end, lemma_stops_below, lemma_var_fits, more, on_spine,
    parent_on, pieces_read, program_reads, reads, right_of, shapes, stmt_reads, stops, width,
    Expr, Outcome, Stmt, StmtView,
};
use crate::lox_scanner::{Token, TT};
use vstd::prelude::*;

verus! {

/// An operand on the way from an expression to its first operand is
/// written with no more tokens than the expression.
pub proof fn lemma_spine_width(e: Expr, sub: Expr, level: nat)
    requires
        on_spine(e, sub, level),
    ensures
        width(sub) <= width(e),
    decreases e,
{
    if sub != e {
        lemma_spine_width(left_of(e), sub, level);
    }
}

/// Two expressions of one level that the same tokens begin with, and
/// that both end behind their tokens, are one expression.
pub proof fn lemma_one_expr(a: Expr, b: Expr, level: nat, rest: Seq<Token>)
    requires
        level <= 8,
        expected(a, level, rest),
        expected(b, level, rest),
    ensures
        a == b,
    decreases rest.len(), level, 1nat, 0nat,
{
    let sa = rest.subrange(0, width(a) as int);
    let sb = rest.subrange(0, width(b) as int);
    assert(sa[0] == rest[0]);
    assert(sb[0] == rest[0]);
    let tail = rest.subrange(1, rest.len() as int);
    if level == 0 {
        match (a, b) {
            (Expr::Grouping(ia), Expr::Grouping(ib)) => {
                assert(sa.subrange(1, sa.len() - 1) =~= rest.subrange(1, width(a) - 1));
                assert(sb.subrange(1, sb.len() - 1) =~= rest.subrange(1, width(b) - 1));
                assert(sa[sa.len() - 1] == rest[width(a) - 1]);
                assert(sb[sb.len() - 1] == rest[width(b) - 1]);
                lemma_expr_wanted(*ia, rest, 1, width(a) - 1);
                lemma_expr_wanted(*ib, rest, 1, width(b) - 1);
                lemma_one_expr(*ia, *ib, 8, tail);
            },
            _ => {},
        }
    } else if level == 1 {
        if a is Unary || b is Unary {
            if a is Unary {
                lemma_own_level(a, 0);
            } else {
                assert(fits(a, 0));
            }
            if b is Unary {
                lemma_own_level(b, 0);
            } else {
                assert(fits(b, 0));
            }
            match (a, b) {
                (Expr::Unary(_, ra), Expr::Unary(_, rb)) => {
                    assert(tail.subrange(0, width(*ra) as int) =~= sa.subrange(1, sa.len() as int));
                    assert(tail.subrange(0, width(*rb) as int) =~= sb.subrange(1, sb.len() as int));
                    if width(*ra) < tail.len() {
                        assert(tail[width(*ra) as int] == rest[width(a) as int]);
                    }
                    if width(*rb) < tail.len() {
                        assert(tail[width(*rb) as int] == rest[width(b) as int]);
                    }
                    lemma_one_expr(*ra, *rb, 1, tail);
                },
                _ => {},
            }
        } else {
            lemma_one_expr(a, b, 0, rest);
        }
    } else if level <= 7 {
        lemma_first_operand(a, level, rest);
        lemma_first_operand(b, level, rest);
        lemma_one_expr(first_operand(a, level), first_operand(b, level), (level - 1) as nat, rest);
        lemma_climb(a, b, first_operand(a, level), level, rest);
    } else {
        match (a, b) {
            (Expr::Assign(_, va), Expr::Assign(_, vb)) => {
                let more = rest.subrange(2, rest.len() as int);
                lemma_own_level(a, 7);
                lemma_own_level(b, 7);
                assert(sa[1] == rest[1]);
                assert(more.subrange(0, width(*va) as int) =~= sa.subrange(2, sa.len() as int));
                assert(more.subrange(0, width(*vb) as int) =~= sb.subrange(2, sb.len() as int));
                if width(*va) < more.len() {
                    assert(more[width(*va) as int] == rest[width(a) as int]);
                }
                if width(*vb) < more.len() {
                    assert(more[width(*vb) as int] == rest[width(b) as int]);
                }
                lemma_one_expr(*va, *vb, 8, more);
            },
            (Expr::Assign(name, _), _) => {
                lemma_target_alone(a, b, rest);
            },
            (_, Expr::Assign(name, _)) => {
                lemma_target_alone(b, a, rest);
            },
            _ => {
                lemma_stops_below(8, 7, rest, width(a) as int);
                lemma_stops_below(8, 7, rest, width(b) as int);
                lemma_one_expr(a, b, 7, rest);
            },
        }
    }
}

/// Where tokens begin with an assignment, every expression that they
/// begin with and that ends behind its tokens is an assignment.
proof fn lemma_target_alone(a: Expr, b: Expr, rest: Seq<Token>)
    requires
        a is Assign,
        expected(a, 8, rest),
        expected(b, 8, rest),
    ensures
        b is Assign,
    decreases rest.len(), 8nat, 0nat, 0nat,
{
    if !(b is Assign) {
        let sa = rest.subrange(0, width(a) as int);
        let target = Expr::Var(a->Assign_0);
        assert(sa[0] == rest[0]);
        assert(sa[1] == rest[1]);
        assert(rest.subrange(0, 1)[0] == rest[0]);
        lemma_var_fits(target, 7);
        assert(expected(target, 7, rest));
        lemma_stops_below(8, 7, rest, width(b) as int);
        lemma_one_expr(target, b, 7, rest);
    }
}

/// Two expressions of a binary level that the same tokens begin with,
/// and that have an operand in common on the way to their first operand,
/// are one expression.
proof fn lemma_climb(a: Expr, b: Expr, here: Expr, level: nat, rest: Seq<Token>)
    requires
        2 <= level <= 7,
        expected(a, level, rest),
        expected(b, level, rest),
        on_spine(a, here, level),
        on_spine(b, here, level),
    ensures
        a == b,
    decreases rest.len(), level, 0nat, width(a) - width(here),
{
    lemma_spine_width(a, here, level);
    let at = width(here) as int;
    if here == a || here == b {
        if at < rest.len() && is_op(level, rest[at].token) {
            lemma_op_goes_on(level, rest[at].token);
        }
        if here == a {
            lemma_spine_end(b, here, level, rest);
        } else {
            lemma_spine_end(a, here, level, rest);
        }
    } else {
        lemma_right_expected(a, here, level, rest);
        lemma_right_expected(b, here, level, rest);
        let pa = parent_on(a, here, level);
        let pb = parent_on(b, here, level);
        lemma_one_expr(
            right_of(pa),
            right_of(pb),
            (level - 1) as nat,
            rest.subrange(at + 1, rest.len() as int),
        );
        assert(pa == pb);
        lemma_spine_width(a, pa, level);
        lemma_climb(a, b, pa, level, rest);
    }
}

/// Whether statements end at position `at`: the tokens end there, or a
/// closing brace stands there.
pub open spec fn closes(toks: Seq<Token>, at: int) -> bool {
    at == toks.len() || (0 <= at < toks.len() && toks[at].token == TT::CBRACE)
}

/// The value of the `while` loop that a `for` loop is written as.
pub open spec fn loop_shape(
    init: Option<StmtView>,
    cond: Expr,
    inc: Option<Expr>,
    body: StmtView,
) -> StmtView {
    let inner = match inc {
        Some(i) => StmtView::Block(seq![body, StmtView::Expr(i)]),
        None => body,
    };
    let whole = StmtView::While(cond, Box::new(inner));
    match init {
        Some(first) => StmtView::Block(seq![first, whole]),
        None => whole,
    }
}

/// The value of the initializer of a `for` loop, if it has one.
pub open spec fn init_shape(s: Stmt) -> Option<StmtView> {
    match loop_init(s) {
        Some(first) => Some(first.shape()),
        None => None,
    }
}

/// A statement that begins with `for` has the value of the loop that its
/// parts make.
pub proof fn lemma_loop_shape(s: Stmt, toks: Seq<Token>, decl: bool, next: Option<Token>)
    requires
        stmt_reads(s, toks, decl, next),
        toks[0].token == TT::FOR,
    ensures
        s.shape() == loop_shape(
            init_shape(s),
            loop_cond(s),
            loop_inc(s, toks),
            loop_body(s, toks).shape(),
        ),
{
    lemma_opens(s, toks, decl, next);
    lemma_for_form(s, toks, decl, next);
    reveal(stmt_reads);
    reveal(for_reads);
    let inner = loop_inner(s);
    match loop_inc(s, toks) {
        Some(i) => {
            let both = inner->Block_0;
            lemma_block_shape(both);
            assert(shapes(both@) =~= seq![both[0].shape(), StmtView::Expr(i)]);
        },
        None => {},
    }
    match s {
        Stmt::Block(items) => {
            lemma_block_shape(items);
            assert(shapes(items@) =~= seq![items[0].shape(), items[1].shape()]);
        },
        _ => {},
    }
}

/// What the parts of a `for` loop are in the loop's statement, and the
/// tokens that they begin with.
pub proof fn lemma_for_more(want: Option<(Stmt, int)>, toks: Seq<Token>, from: int, decl: bool)
    requires
        stmt_wanted(want, toks, from, decl),
        toks[from].token == TT::FOR,
    ensures
        ({
            let p = loop_parts(want, toks, from);
            let s = want.unwrap().0;
            let seg = toks.subrange(from, from + want.unwrap().1);
            &&& match p.init {
                None => loop_init(s) is None,
                Some(first) => loop_init(s) == Some(first.0) && toks[from + 2].token
                    != TT::SEMICOLON,
            }
            &&& match p.cond {
                None => loop_cond(s) == Expr::Bool(true) && toks[p.b].token == TT::SEMICOLON,
                Some(e) => loop_cond(s) == e && toks[p.b].token != TT::SEMICOLON,
            }
            &&& p.inc == loop_inc(s, seg)
            &&& match p.inc {
                None => toks[p.c + 1].token == TT::CPAREN,
                Some(_) => toks[p.c + 1].token != TT::CPAREN,
            }
            &&& p.body.unwrap().0 == loop_body(s, seg)
        }),
{
    reveal(loop_parts);
    lemma_for_parts(want, toks, from, decl);
    let p = loop_parts(want, toks, from);
    let s = want.unwrap().0;
    let k = want.unwrap().1;
    let seg = toks.subrange(from, from + k);
    assert(seg[0] == toks[from]);
    lemma_for_form(s, seg, decl, after(toks, from + k));
    reveal(for_reads);
    match p.init {
        Some(first) => {
            lemma_form(p.init, toks, from + 2, true);
        },
        None => {},
    }
    match p.cond {
        Some(e) => {
            let rest = toks.subrange(p.b, toks.len() as int);
            assert(rest.subrange(0, width(e) as int) =~= toks.subrange(p.b, p.c));
            lemma_expr_wanted(e, toks, p.b, p.c);
        },
        None => {
            assert(seg[p.b - from] == toks[p.b]);
        },
    }
    match p.inc {
        Some(i) => {
            let rest = toks.subrange(p.c + 1, toks.len() as int);
            assert(rest.subrange(0, width(i) as int) =~= toks.subrange(p.c + 1, p.d));
            lemma_expr_wanted(i, toks, p.c + 1, p.d);
        },
        None => {},
    }
}

/// Two statements that the same tokens begin with at one position are
/// written with equally many tokens and have one value.
pub proof fn lemma_one_stmt(
    a: Option<(Stmt, int)>,
    b: Option<(Stmt, int)>,
    toks: Seq<Token>,
    from: int,
    decl: bool,
)
    requires
        stmt_wanted(a, toks, from, decl),
        stmt_wanted(b, toks, from, decl),
    ensures
        a.unwrap().1 == b.unwrap().1,
        a.unwrap().0.shape() == b.unwrap().0.shape(),
    decreases toks.len() - from, 1nat,
{
    lemma_form(a, toks, from, decl);
    lemma_form(b, toks, from, decl);
    let first = toks[from].token;
    let sa = a.unwrap().0;
    let sb = b.unwrap().0;
    let len = toks.len() as int;
    if first == TT::PRINT {
        lemma_print_parts(a, toks, from, decl);
        lemma_print_parts(b, toks, from, decl);
        lemma_one_expr(expr_of(a).unwrap(), expr_of(b).unwrap(), 8, toks.subrange(from + 1, len));
    } else if first == TT::VAR {
        lemma_var_parts(a, toks, from, decl);
        lemma_var_parts(b, toks, from, decl);
        if toks[from + 2].token == TT::ASSIGN {
            lemma_one_expr(
                expr_of(a).unwrap(),
                expr_of(b).unwrap(),
                8,
                toks.subrange(from + 3, len),
            );
        }
    } else if first == TT::IF {
        lemma_if_parts(a, toks, from, decl);
        lemma_if_parts(b, toks, from, decl);
        lemma_one_expr(expr_of(a).unwrap(), expr_of(b).unwrap(), 8, toks.subrange(from + 2, len));
        let at = from + 3 + width_of(a);
        let ta = then_want(a, toks, from);
        let tb = then_want(b, toks, from);
        lemma_one_stmt(ta, tb, toks, at, false);
        let m = at + ta.unwrap().1;
        match (sa->If_2, sb->If_2) {
            (Some(_), Some(_)) => {
                lemma_one_stmt(else_want(a, toks, from), else_want(b, toks, from), toks, m + 1, false);
            },
            _ => {},
        }
    } else if first == TT::WHILE {
        lemma_while_parts(a, toks, from, decl);
        lemma_while_parts(b, toks, from, decl);
        lemma_one_expr(expr_of(a).unwrap(), expr_of(b).unwrap(), 8, toks.subrange(from + 2, len));
        lemma_one_stmt(
            then_want(a, toks, from),
            then_want(b, toks, from),
            toks,
            from + 3 + width_of(a),
            false,
        );
    } else if first == TT::OBRACE {
        lemma_block_parts(a, toks, from, decl);
        lemma_block_parts(b, toks, from, decl);
        lemma_one_pieces(
            items_of(a),
            cuts_of(a, toks, from),
            items_of(b),
            cuts_of(b, toks, from),
            toks,
            from + 1,
            0,
        );
        lemma_block_shape(sa->Block_0);
        lemma_block_shape(sb->Block_0);
        assert(shapes(items_of(a)) =~= shapes(items_of(b)));
    } else if first == TT::FOR {
        lemma_one_loop(a, b, toks, from, decl);
    } else {
        lemma_expr_parts(a, toks, from, decl);
        lemma_expr_parts(b, toks, from, decl);
        lemma_one_expr(expr_of(a).unwrap(), expr_of(b).unwrap(), 8, toks.subrange(from, len));
    }
}

/// The same of two `for` loops.
proof fn lemma_one_loop(
    a: Option<(Stmt, int)>,
    b: Option<(Stmt, int)>,
    toks: Seq<Token>,
    from: int,
    decl: bool,
)
    requires
        stmt_wanted(a, toks, from, decl),
        stmt_wanted(b, toks, from, decl),
        toks[from].token == TT::FOR,
    ensures
        a.unwrap().1 == b.unwrap().1,
        a.unwrap().0.shape() == b.unwrap().0.shape(),
    decreases toks.len() - from, 0nat,
{
    let len = toks.len() as int;
    let pa = loop_parts(a, toks, from);
    let pb = loop_parts(b, toks, from);
    let sa = a.unwrap().0;
    let sb = b.unwrap().0;
    let ga = toks.subrange(from, from + a.unwrap().1);
    let gb = toks.subrange(from, from + b.unwrap().1);
    lemma_for_parts(a, toks, from, decl);
    lemma_for_parts(b, toks, from, decl);
    lemma_for_more(a, toks, from, decl);
    lemma_for_more(b, toks, from, decl);
    if pa.init is Some {
        lemma_one_stmt(pa.init, pb.init, toks, from + 2, true);
    }
    assert(pa.b == pb.b);
    assert(init_shape(sa) == init_shape(sb));
    if pa.cond is Some {
        lemma_one_expr(pa.cond.unwrap(), pb.cond.unwrap(), 8, toks.subrange(pa.b, len));
    }
    assert(pa.c == pb.c);
    if pa.inc is Some {
        lemma_one_expr(pa.inc.unwrap(), pb.inc.unwrap(), 8, toks.subrange(pa.c + 1, len));
    }
    assert(pa.d == pb.d);
    lemma_one_stmt(pa.body, pb.body, toks, pa.d + 1, false);
    assert(ga[0] == toks[from]);
    assert(gb[0] == toks[from]);
    lemma_loop_shape(sa, ga, decl, after(toks, from + a.unwrap().1));
    lemma_loop_shape(sb, gb, decl, after(toks, from + b.unwrap().1));
}

/// Two rows of statements that are read one after another from one
/// position on, and that both end where statements end, are equally many
/// statements with the same values.
pub proof fn lemma_one_pieces(
    a: Seq<Stmt>,
    ca: Seq<int>,
    b: Seq<Stmt>,
    cb: Seq<int>,
    toks: Seq<Token>,
    start: int,
    i: int,
)
    requires
        0 <= start,
        pieces_read(a, toks, start, ca),
        pieces_read(b, toks, start, cb),
        start + ca[a.len() as int] <= toks.len(),
        start + cb[b.len() as int] <= toks.len(),
        closes(toks, start + ca[a.len() as int]),
        closes(toks, start + cb[b.len() as int]),
        0 <= i <= a.len(),
        i <= b.len(),
        ca[i] == cb[i],
        forall|j: int| 0 <= j < i ==> (#[trigger] a[j]).shape() == b[j].shape(),
    ensures
        a.len() == b.len(),
        ca[a.len() as int] == cb[b.len() as int],
        forall|j: int| 0 <= j < a.len() ==> (#[trigger] a[j]).shape() == b[j].shape(),
    decreases toks.len() - (start + ca[i]), 2nat,
{
    lemma_piece_step(a, toks, start, ca, i);
    lemma_piece_step(b, toks, start, cb, i);
    if i < a.len() && i < b.len() {
        lemma_one_stmt(
            Some((a[i], ca[i + 1] - ca[i])),
            Some((b[i], cb[i + 1] - cb[i])),
            toks,
            start + ca[i],
            true,
        );
        lemma_one_pieces(a, ca, b, cb, toks, start, i + 1);
    }
}

/// The grammar is unambiguous: tokens are the program of at most one row
/// of statements, up to the statements' values.
pub proof fn law_one_program(a: Seq<Stmt>, b: Seq<Stmt>, toks: Seq<Token>)
    requires
        program_reads(a, toks),
        program_reads(b, toks),
    ensures
        shapes(a) == shapes(b),
{
    let whole = toks.subrange(0, toks.len() as int);
    assert(whole =~= toks);
    lemma_program_pieces(a, toks, 0);
    lemma_program_pieces(b, toks, 0);
    lemma_one_pieces(a, program_cuts(a, whole), b, program_cuts(b, whole), toks, 0, 0);
    assert(shapes(a) =~= shapes(b));
}

/// What comes of reading an expression step by step is an expression of
/// the grammar: where `descend` reads an expression, it is the expression
/// of that level that the tokens begin with, it ends behind the tokens
/// that were taken, and these are as many as it is written with. Where it
/// fails, it has taken no more tokens than there are.
pub proof fn law_descend(level: nat, rest: Seq<Token>)
    requires
        level <= 8,
    ensures
        match descend(level, rest) {
            Outcome::Parsed(e, n) => n == width(e) && expected(e, level, rest),
            Outcome::Failed(_, n) => 0 <= n <= rest.len(),
        },
    decreases rest.len(), level, 1nat, 0nat,
{
    let len = rest.len() as int;
    let tail = rest.subrange(1, len);
    if level == 0 {
        if rest.len() > 0 {
            assert(rest.subrange(0, 1)[0] == rest[0]);
            if rest[0].token == TT::OPAREN {
                law_descend(8, tail);
                match descend(8, tail) {
                    Outcome::Parsed(inner, n) => {
                        if 0 <= 1 + n < rest.len() && rest[1 + n].token == TT::CPAREN {
                            let seg = rest.subrange(0, n + 2);
                            assert(seg.subrange(1, seg.len() - 1) =~= tail.subrange(0, n));
                            assert(seg[0] == rest[0]);
                            assert(seg[seg.len() - 1] == rest[1 + n]);
                        }
                    },
                    _ => {},
                }
            }
        }
    } else if level == 1 {
        if rest.len() > 0 && (rest[0].token == TT::BANG || rest[0].token == TT::MINUS
            || rest[0].token == TT::DOLLAR) {
            law_descend(1, tail);
            match descend(1, tail) {
                Outcome::Parsed(rhs, n) => {
                    let seg = rest.subrange(0, n + 1);
                    assert(seg.subrange(1, seg.len() as int) =~= tail.subrange(0, n));
                    assert(seg[0] == rest[0]);
                },
                _ => {},
            }
        } else {
            law_descend(0, rest);
        }
    } else if level <= 7 {
        law_descend((level - 1) as nat, rest);
        match descend((level - 1) as nat, rest) {
            Outcome::Parsed(lhs, n) => {
                lemma_more(level, lhs, n, rest);
            },
            _ => {},
        }
    } else {
        law_descend(7, rest);
        match descend(7, rest) {
            Outcome::Parsed(lhs, n) => {
                if 0 <= n < rest.len() && rest[n].token == TT::ASSIGN {
                    let more = rest.subrange(n + 1, len);
                    law_descend(8, more);
                    match (descend(8, more), lhs) {
                        (Outcome::Parsed(value, m), Expr::Var(name)) => {
                            let whole = Expr::Assign(name, Box::new(value));
                            let seg = rest.subrange(0, n + 1 + m);
                            assert(rest.subrange(0, n)[0] == rest[0]);
                            assert(seg[0] == rest[0]);
                            assert(seg[1] == rest[n]);
                            assert(seg.subrange(2, seg.len() as int) =~= more.subrange(0, m));
                            if n + 1 + m < rest.len() {
                                assert(more[m] == rest[n + 1 + m]);
                            }
                        },
                        _ => {},
                    }
                }
            },
            _ => {},
        }
    }
}

/// The same of `more`, behind an operand of the grammar.
proof fn lemma_more(level: nat, lhs: Expr, n: int, rest: Seq<Token>)
    requires
        2 <= level <= 7,
        n == width(lhs),
        n <= rest.len(),
        reads(lhs, rest.subrange(0, n)),
        fits(lhs, level),
        stops((level - 1) as nat, rest, n),
    ensures
        match more(level, lhs, n, rest) {
            Outcome::Parsed(e, k) => k == width(e) && expected(e, level, rest),
            Outcome::Failed(_, k) => 0 <= k <= rest.len(),
        },
    decreases rest.len(), level, 0nat, rest.len() - n,
{
    let len = rest.len() as int;
    if 0 <= n < rest.len() && is_op(level, rest[n].token) {
        let tail = rest.subrange(n + 1, len);
        law_descend((level - 1) as nat, tail);
        match descend((level - 1) as nat, tail) {
            Outcome::Parsed(rhs, m) => {
                let whole = join(level, lhs, rest[n], rhs);
                let seg = rest.subrange(0, n + 1 + m);
                assert(seg.subrange(0, n) =~= rest.subrange(0, n));
                assert(seg[n] == rest[n]);
                assert(seg.subrange(n + 1, seg.len() as int) =~= tail.subrange(0, m));
                if n + 1 + m < rest.len() {
                    assert(tail[m] == rest[n + 1 + m]);
                }
                assert(reads(whole, seg));
                assert(fits(whole, level));
                lemma_more(level, whole, n + 1 + m, rest);
            },
            _ => {},
        }
    }
}

} // verus!
