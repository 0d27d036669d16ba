//! A recursive-descent parser for the statements and expressions of Lox.
//!
//! ```text
//! program        := { declaration } ;
//! declaration    := "var" IDENTIFIER [ "=" expression ] ";" | statement ;
//! statement      := exprStmt | forStmt | ifStmt | printStmt | whileStmt | block ;
//! exprStmt       := expression ";" ;
//! forStmt        := "for" "(" ( varDecl | exprStmt | ";" )
//!                   [ expression ] ";" [ expression ] ")" statement ;
//! ifStmt         := "if" "(" expression ")" statement [ "else" statement ] ;
//! printStmt      := "print" expression ";" ;
//! whileStmt      := "while" "(" expression ")" statement ;
//! block          := "{" { declaration } "}" ;
//! expression     := assignment ;
//! assignment     := IDENTIFIER "=" assignment | logic_or ;
//! logic_or       := logic_and { "or" logic_and } ;
//! logic_and      := equality { "and" equality } ;
//! equality       := comparison { ( "!=" | "==" ) comparison } ;
//! comparison     := addition { ( ">" | ">=" | "<" | "<=" ) addition } ;
//! addition       := multiplication { ( "-" | "+" ) multiplication } ;
//! multiplication := unary { ( "/" | "*" ) unary } ;
//! unary          := ( "!" | "-" | "$" ) unary | primary ;
//! primary        := NUMBER | STRING | "false" | "true" | "nil"
//!                 | "(" expression ")" | IDENTIFIER ;
//! ```
use crate::lox_forms::{
    cuts_of, else_want, expr_of, items_of, lemma_block_parts, lemma_decl_stmt, lemma_expr_first,
    lemma_expr_parts, lemma_for_parts, lemma_form, lemma_if_parts, lemma_piece_step,
    lemma_print_parts, lemma_program_pieces, lemma_var_parts, lemma_while_parts, loop_parts,
    program_cuts, program_of, stmt_wanted, then_want, width_of,
};
use crate::lox_model::{
    block_model, cond_model, else_model, for_model, head_model, if_model, init_model, plain_model,
    print_model, program_model, semi_model, stated, step_model, until_model, var_model,
    while_model, Went,
};
use crate::lox_scanner::{Token, TT};
use crate::lox_unique::{law_one_program, lemma_one_expr};
use crate::scanner::Scanner;
use crate::text::{decimal, decimal_text, quoted, quoted_text};
use vstd::pervasive::unreached;
use vstd::prelude::*;
use vstd::string::*;

verus! {

/// A Lox expression. A number is kept as the digits that were written.
#[derive(Debug)]
pub enum Expr {
    Logical(Box<Expr>, Token, Box<Expr>),
    Binary(Box<Expr>, Token, Box<Expr>),
    Unary(Token, Box<Expr>),
    Bool(bool),
    Nil,
    Num(String),
    Str(String),
    Grouping(Box<Expr>),
    Var(String),
    Assign(String, Box<Expr>),
}

/// A Lox statement. A `for` loop is written as the `while` loop it stands
/// for.
#[derive(Debug)]
pub enum Stmt {
    Print(Expr),
    Expr(Expr),
    Var(String, Expr),
    Block(Vec<Stmt>),
    If(Expr, Box<Stmt>, Option<Box<Stmt>>),
    While(Expr, Box<Stmt>),
}

/// The mathematical value of a [`Stmt`]: the statements of a block are a
/// sequence.
pub enum StmtView {
    Print(Expr),
    Expr(Expr),
    Var(String, Expr),
    Block(Seq<StmtView>),
    If(Expr, Box<StmtView>, Option<Box<StmtView>>),
    While(Expr, Box<StmtView>),
}

impl Stmt {
    /// The statement's mathematical value.
    pub open spec fn shape(self) -> StmtView
        decreases self,
    {
        match self {
            Stmt::Print(e) => StmtView::Print(e),
            Stmt::Expr(e) => StmtView::Expr(e),
            Stmt::Var(name, e) => StmtView::Var(name, e),
            Stmt::Block(items) => StmtView::Block(
                Seq::new(
                    items.len() as nat,
                    |i: int|
                        if 0 <= i < items.len() {
                            items[i].shape()
                        } else {
                            StmtView::Expr(Expr::Nil)
                        },
                ),
            ),
            Stmt::If(cond, then, other) => StmtView::If(
                cond,
                Box::new(then.shape()),
                match other {
                    Some(el) => Some(Box::new(el.shape())),
                    None => None,
                },
            ),
            Stmt::While(cond, inner) => StmtView::While(cond, Box::new(inner.shape())),
        }
    }
}

/// The values of a sequence of statements, element by element.
pub open spec fn shapes(items: Seq<Stmt>) -> Seq<StmtView> {
    Seq::new(items.len(), |i: int| items[i].shape())
}

/// The value of a block is the block of the values of its statements.
pub proof fn lemma_block_shape(items: Vec<Stmt>)
    ensures
        Stmt::Block(items).shape() == StmtView::Block(shapes(items@)),
{
    let s = Stmt::Block(items);
    assert(s.shape()->Block_0 =~= shapes(items@));
}

/// The value of a statement that may be missing.
pub open spec fn opt_shape(s: Option<Stmt>) -> Option<StmtView> {
    match s {
        Some(s) => Some(s.shape()),
        None => None,
    }
}

/// Whether one of `kinds` is of the kind of `token`.
pub open spec fn kind_in(kinds: Seq<TT>, token: TT) -> bool {
    exists|i: int| 0 <= i < kinds.len() && (#[trigger] kinds[i]).kind() == token.kind()
}

/// The message of a parse error: at a token, its quoted text and its line;
/// at the end of the input, `EOF`.
pub open spec fn error_text(token: Option<Token>, msg: Seq<char>) -> Seq<char> {
    match token {
        Some(t) => message(Some((quoted(t.lexeme@), t.line as nat)), msg),
        None => message(None, msg),
    }
}

/// How many tokens an expression is written with.
pub open spec fn width(e: Expr) -> nat
    decreases e,
{
    match e {
        Expr::Logical(lhs, _, rhs) => width(*lhs) + 1 + width(*rhs),
        Expr::Binary(lhs, _, rhs) => width(*lhs) + 1 + width(*rhs),
        Expr::Unary(_, rhs) => 1 + width(*rhs),
        Expr::Bool(_) => 1,
        Expr::Nil => 1,
        Expr::Num(_) => 1,
        Expr::Str(_) => 1,
        Expr::Grouping(inner) => width(*inner) + 2,
        Expr::Var(_) => 1,
        Expr::Assign(_, value) => 2 + width(*value),
    }
}

/// Whether `toks` are the tokens that the expression is written with: the
/// operands in order with the operator's token between or before them,
/// parentheses around a grouping, an identifier and `=` before the value
/// of an assignment, and one token of the fitting kind and text for a
/// literal or a variable.
pub open spec fn reads(e: Expr, toks: Seq<Token>) -> bool
    decreases e,
{
    &&& toks.len() == width(e)
    &&& match e {
        Expr::Logical(lhs, op, rhs) => {
            &&& reads(*lhs, toks.subrange(0, width(*lhs) as int))
            &&& toks[width(*lhs) as int] == op
            &&& reads(*rhs, toks.subrange(width(*lhs) as int + 1, toks.len() as int))
        },
        Expr::Binary(lhs, op, rhs) => {
            &&& reads(*lhs, toks.subrange(0, width(*lhs) as int))
            &&& toks[width(*lhs) as int] == op
            &&& reads(*rhs, toks.subrange(width(*lhs) as int + 1, toks.len() as int))
        },
        Expr::Unary(op, rhs) => toks[0] == op && reads(*rhs, toks.subrange(1, toks.len() as int)),
        Expr::Bool(value) => toks[0].token == if value {
            TT::TRUE
        } else {
            TT::FALSE
        },
        Expr::Nil => toks[0].token == TT::NIL,
        Expr::Num(digits) => toks[0].token == TT::Num(digits),
        Expr::Str(text) => toks[0].token == TT::Str(text),
        Expr::Grouping(inner) => {
            &&& toks[0].token == TT::OPAREN
            &&& toks[toks.len() - 1].token == TT::CPAREN
            &&& reads(*inner, toks.subrange(1, toks.len() - 1))
        },
        Expr::Var(name) => toks[0].token == TT::Id(name),
        Expr::Assign(name, value) => {
            &&& toks[0].token == TT::Id(name)
            &&& toks[1].token == TT::ASSIGN
            &&& reads(*value, toks.subrange(2, toks.len() as int))
        },
    }
}

/// Whether `op` is an operator of the binary level `level`: 2 for `/` and
/// `*`, 3 for `-` and `+`, 4 for the comparisons, 5 for `==` and `!=`, 6
/// for `and`, 7 for `or`.
pub open spec fn is_op(level: nat, op: TT) -> bool {
    if level == 2 {
        op == TT::SLASH || op == TT::STAR
    } else if level == 3 {
        op == TT::MINUS || op == TT::PLUS
    } else if level == 4 {
        op == TT::GT || op == TT::GE || op == TT::LT || op == TT::LE
    } else if level == 5 {
        op == TT::EQ || op == TT::NE
    } else if level == 6 {
        op == TT::AND
    } else if level == 7 {
        op == TT::OR
    } else {
        false
    }
}

/// Whether the expression has the shape of grammar level `level`: 0 for
/// `primary`, 1 for `unary`, 2 to 7 for the binary levels from
/// `multiplication` up to `logic_or`, whose operators take an operand of
/// their own level on the left and of the level below on the right, and 8
/// for `assignment`. Every level holds the shapes of the levels below.
pub open spec fn fits(e: Expr, level: nat) -> bool
    decreases e, level,
{
    if level == 0 {
        match e {
            Expr::Bool(_) => true,
            Expr::Nil => true,
            Expr::Num(_) => true,
            Expr::Str(_) => true,
            Expr::Var(_) => true,
            Expr::Grouping(inner) => fits(*inner, 8),
            _ => false,
        }
    } else if level == 1 {
        ||| fits(e, 0)
        ||| match e {
            Expr::Unary(op, rhs) => (op.token == TT::BANG || op.token == TT::MINUS || op.token
                == TT::DOLLAR) && fits(*rhs, 1),
            _ => false,
        }
    } else if level <= 5 {
        ||| fits(e, (level - 1) as nat)
        ||| match e {
            Expr::Binary(lhs, op, rhs) => is_op(level, op.token) && fits(*lhs, level) && fits(
                *rhs,
                (level - 1) as nat,
            ),
            _ => false,
        }
    } else if level <= 7 {
        ||| fits(e, (level - 1) as nat)
        ||| match e {
            Expr::Logical(lhs, op, rhs) => is_op(level, op.token) && fits(*lhs, level) && fits(
                *rhs,
                (level - 1) as nat,
            ),
            _ => false,
        }
    } else {
        ||| fits(e, 7)
        ||| match e {
            Expr::Assign(_, value) => fits(*value, 8),
            _ => false,
        }
    }
}

/// Whether `toks` are an expression and a semicolon behind it.
pub open spec fn expr_semi(e: Expr, toks: Seq<Token>) -> bool {
    &&& toks.len() == width(e) + 1
    &&& reads(e, toks.subrange(0, toks.len() - 1))
    &&& fits(e, 8)
    &&& toks[toks.len() - 1].token == TT::SEMICOLON
}

/// Whether `toks` are what stands behind `var` in the declaration of the
/// variable `name`: its identifier, then `=` with the initializer `init`,
/// or nothing where `init` is `nil`, then a semicolon.
pub open spec fn var_reads(name: String, init: Expr, toks: Seq<Token>) -> bool {
    &&& toks.len() >= 2
    &&& toks[0].token is Id
    &&& toks[0].lexeme == name
    &&& if toks[1].token == TT::ASSIGN {
        expr_semi(init, toks.subrange(2, toks.len() as int))
    } else {
        init == Expr::Nil && toks.len() == 2 && toks[1].token == TT::SEMICOLON
    }
}

/// Where the condition of a `for` loop with this initializer begins in
/// `toks`, or the semicolon in its place.
pub open spec fn init_end(init: Option<Stmt>, toks: Seq<Token>) -> int {
    match init {
        None => 3,
        Some(Stmt::Var(_, e)) => if toks.len() > 4 && toks[4].token == TT::ASSIGN {
            6 + width(e) as int
        } else {
            5
        },
        Some(Stmt::Expr(e)) => 3 + width(e) as int,
        Some(_) => 3,
    }
}

/// Where the semicolon behind the condition of such a loop stands.
pub open spec fn cond_end(init: Option<Stmt>, cond: Expr, toks: Seq<Token>) -> int {
    let b = init_end(init, toks);
    if b < toks.len() && toks[b].token != TT::SEMICOLON {
        b + width(cond) as int
    } else {
        b
    }
}

/// Where the closing parenthesis of such a loop stands.
pub open spec fn inc_end(init: Option<Stmt>, cond: Expr, inc: Option<Expr>, toks: Seq<Token>) -> int {
    match inc {
        None => cond_end(init, cond, toks) + 1,
        Some(i) => cond_end(init, cond, toks) + 1 + width(i) as int,
    }
}

/// Whether the initializer of a `for` loop stands behind `for (` in
/// `toks`: a semicolon, a variable declaration, or an expression
/// statement.
pub open spec fn init_reads(init: Option<Stmt>, toks: Seq<Token>) -> bool {
    match init {
        None => toks[2].token == TT::SEMICOLON,
        Some(Stmt::Var(name, e)) => toks[2].token == TT::VAR && var_reads(
            name,
            e,
            toks.subrange(3, init_end(init, toks)),
        ),
        Some(Stmt::Expr(e)) => toks[2].token != TT::SEMICOLON && toks[2].token != TT::VAR
            && expr_semi(e, toks.subrange(2, init_end(init, toks))),
        Some(_) => false,
    }
}

/// Where the statement of a `for` loop begins in `toks`, if `toks` begin
/// with the head of a `for` loop with this initializer, condition and
/// increment: `for`, `(`, then a semicolon, a variable declaration or an
/// expression statement, then the condition, which is `true` where none is
/// written, a semicolon, the increment if there is one, and `)`.
pub open spec fn for_head(
    init: Option<Stmt>,
    cond: Expr,
    inc: Option<Expr>,
    toks: Seq<Token>,
) -> Option<int> {
    let b = init_end(init, toks);
    let c = cond_end(init, cond, toks);
    let d = inc_end(init, cond, inc, toks);
    if {
        &&& d < toks.len()
        &&& toks[0].token == TT::FOR
        &&& toks[1].token == TT::OPAREN
        &&& init_reads(init, toks)
        &&& if c > b {
            reads(cond, toks.subrange(b, c)) && fits(cond, 8)
        } else {
            cond == Expr::Bool(true)
        }
        &&& toks[c].token == TT::SEMICOLON
        &&& match inc {
            None => true,
            Some(i) => toks[c + 1].token != TT::CPAREN && reads(i, toks.subrange(c + 1, d)) && fits(
                i,
                8,
            ),
        }
        &&& toks[d].token == TT::CPAREN
    } {
        Some(d + 1)
    } else {
        None
    }
}

/// Whether `cuts` cut `toks` into as many pieces as there are statements.
pub open spec fn cuts_ok(cuts: Seq<int>, count: int, toks: Seq<Token>) -> bool {
    &&& cuts.len() == count + 1
    &&& cuts[0] == 0
    &&& cuts[count] == toks.len()
    &&& forall|i: int| 0 <= i < count ==> 0 <= #[trigger] cuts[i] <= cuts[i + 1] <= toks.len()
}

/// The token at position `at`, if there is one.
pub open spec fn after(toks: Seq<Token>, at: int) -> Option<Token> {
    if 0 <= at < toks.len() {
        Some(toks[at])
    } else {
        None
    }
}

/// Whether `next` is an `else`.
pub open spec fn is_else(next: Option<Token>) -> bool {
    next matches Some(t) && t.token == TT::ELSE
}

/// Whether `toks` are the tokens that the statement is written with,
/// according to the grammar; `decl` says whether a variable declaration
/// may stand here, and `next` is the token behind the statement, if there
/// is one: an `if` without `else` is not followed by an `else`. A `while`
/// statement may be written as a `for` loop without initializer, and a
/// block of an initializer and a `while` statement as a `for` loop with
/// one; the body of such a loop is then the loop's statement, or a block
/// of it and the increment.
#[verifier::opaque]
pub open spec fn stmt_reads(s: Stmt, toks: Seq<Token>, decl: bool, next: Option<Token>) -> bool
    decreases s, 0nat,
{
    toks.len() >= 1 && match s {
        Stmt::Print(e) => toks[0].token == TT::PRINT && expr_semi(
            e,
            toks.subrange(1, toks.len() as int),
        ),
        Stmt::Expr(e) => expr_semi(e, toks),
        Stmt::Var(name, init) => decl && toks[0].token == TT::VAR && var_reads(
            name,
            init,
            toks.subrange(1, toks.len() as int),
        ),
        Stmt::If(cond, then, other) => {
            let after = 3 + width(cond) as int;
            &&& toks.len() > after
            &&& toks[0].token == TT::IF
            &&& toks[1].token == TT::OPAREN
            &&& reads(cond, toks.subrange(2, after - 1))
            &&& fits(cond, 8)
            &&& toks[after - 1].token == TT::CPAREN
            &&& match other {
                None => !is_else(next) && stmt_reads(
                    *then,
                    toks.subrange(after, toks.len() as int),
                    false,
                    next,
                ),
                Some(el) => exists|m: int|
                    #![trigger toks[m]]
                    {
                        &&& after < m < toks.len() - 1
                        &&& toks[m].token == TT::ELSE
                        &&& stmt_reads(*then, toks.subrange(after, m), false, Some(toks[m]))
                        &&& stmt_reads(*el, toks.subrange(m + 1, toks.len() as int), false, next)
                    },
            }
        },
        Stmt::While(cond, inner) => if toks[0].token == TT::WHILE {
            let after = 3 + width(cond) as int;
            &&& toks.len() > after
            &&& toks[1].token == TT::OPAREN
            &&& reads(cond, toks.subrange(2, after - 1))
            &&& fits(cond, 8)
            &&& toks[after - 1].token == TT::CPAREN
            &&& stmt_reads(*inner, toks.subrange(after, toks.len() as int), false, next)
        } else {
            for_reads(None, cond, *inner, toks, next)
        },
        Stmt::Block(items) => if toks[0].token == TT::OBRACE {
            &&& toks.len() >= 2
            &&& toks[toks.len() - 1].token == TT::CBRACE
            &&& exists|cuts: Seq<int>|
                #![trigger cuts_ok(cuts, items.len() as int, toks.subrange(1, toks.len() - 1))]
                {
                    &&& cuts_ok(cuts, items.len() as int, toks.subrange(1, toks.len() - 1))
                    &&& forall|i: int|
                        0 <= i < items.len() ==> stmt_reads(
                            #[trigger] items[i],
                            toks.subrange(1 + cuts[i], 1 + cuts[i + 1]),
                            true,
                            Some(toks[1 + cuts[i + 1]]),
                        )
                }
        } else {
            items.len() == 2 && match items[1] {
                Stmt::While(cond, inner) => for_reads(Some(items[0]), cond, *inner, toks, next),
                _ => false,
            }
        },
    }
}

/// Whether `toks` are a `for` loop with this initializer and condition
/// whose `while` form has the body `inner`.
#[verifier::opaque]
pub open spec fn for_reads(
    init: Option<Stmt>,
    cond: Expr,
    inner: Stmt,
    toks: Seq<Token>,
    next: Option<Token>,
) -> bool
    decreases inner, 1nat,
{
    match for_head(init, cond, None, toks) {
        Some(at) => stmt_reads(inner, toks.subrange(at, toks.len() as int), false, next),
        None => match inner {
            Stmt::Block(both) => both.len() == 2 && match both[1] {
                Stmt::Expr(inc) => match for_head(init, cond, Some(inc), toks) {
                    Some(at) => stmt_reads(
                        both[0],
                        toks.subrange(at, toks.len() as int),
                        false,
                        next,
                    ),
                    None => false,
                },
                _ => false,
            },
            _ => false,
        },
    }
}

/// Whether `toks` are the tokens of the declarations `items`, one after
/// another.
pub open spec fn program_reads(items: Seq<Stmt>, toks: Seq<Token>) -> bool {
    exists|cuts: Seq<int>|
        #![trigger cuts_ok(cuts, items.len() as int, toks)]
        {
            &&& cuts_ok(cuts, items.len() as int, toks)
            &&& forall|i: int|
                0 <= i < items.len() ==> stmt_reads(
                    #[trigger] items[i],
                    toks.subrange(cuts[i], cuts[i + 1]),
                    true,
                    after(toks, cuts[i + 1]),
                )
        }
}

/// The message of a parse error at a place: `shown` is the text of the
/// token there as it is to be shown, with the token's line; there is none
/// at the end of the input.
pub open spec fn message(shown: Option<(Seq<char>, nat)>, msg: Seq<char>) -> Seq<char> {
    match shown {
        Some((text, line)) => "LoxParser error: "@ + text + " at line "@ + decimal(line) + ", "@
            + msg,
        None => "LoxParser error: EOF, "@ + msg,
    }
}

/// Writes the message of a parse error.
pub fn write_error(shown: Option<(&String, usize)>, msg: &str) -> (r: String)
    ensures
        r@ == message(
            match shown {
                Some((text, line)) => Some((text@, line as nat)),
                None => None,
            },
            msg@,
        ),
{
    match shown {
        Some((shown, line)) => {
            let mut text = String::from_str("LoxParser error: ");
            text.append(shown.as_str());
            text.append(" at line ");
            let line = decimal_text(line);
            text.append(line.as_str());
            text.append(", ");
            text.append(msg);
            text
        },
        None => {
            let mut text = String::from_str("LoxParser error: EOF, ");
            text.append(msg);
            text
        },
    }
}

/// The parser: a scanner over the tokens, and whether an error was met.
pub struct LoxParser {
    pub(crate) scanner: Scanner<Token>,
    pub(crate) errors: bool,
}

impl LoxParser {
    /// The parser's scanner.
    pub open(crate) spec fn scanner(&self) -> Scanner<Token> {
        self.scanner
    }

    /// Whether the parser has met an error.
    pub open(crate) spec fn errors(&self) -> bool {
        self.errors
    }

    /// The tokens that are left.
    pub open spec fn rest(&self) -> Seq<Token> {
        self.scanner().remaining()
    }

    /// Whether no token is pending in the scanner.
    pub open spec fn clean(&self) -> bool {
        self.scanner().valid() && self.scanner().mark() == self.scanner().taken()
    }

    /// The token at the cursor, if there is one.
    pub open spec fn ahead(&self) -> Option<Token> {
        after(self.scanner().tokens(), self.scanner().taken())
    }

    /// What came of reading an expression since the parser was `before`:
    /// the result, and the number of tokens taken.
    pub open spec fn came(&self, before: &LoxParser, r: Result<Expr, String>) -> Outcome {
        match r {
            Ok(e) => Outcome::Parsed(e, self.scanner().taken() - before.scanner().taken()),
            Err(text) => Outcome::Failed(
                text@,
                self.scanner().taken() - before.scanner().taken(),
            ),
        }
    }

    /// Whether the token before the cursor is of the kind `kind`, which is
    /// one that carries no text.
    pub open spec fn behind(&self, kind: TT) -> bool {
        self.scanner().taken() >= 1 && self.scanner().tokens()[self.scanner().taken()
            - 1].token == kind
    }

    /// How many tokens the parser took since it was `before`.
    pub open spec fn gone(&self, before: &LoxParser) -> int {
        self.scanner().taken() - before.scanner().taken()
    }

    /// What came of reading a statement since the parser was `before`.
    pub open spec fn told(&self, before: &LoxParser, r: Result<Stmt, String>) -> Went<StmtView> {
        match r {
            Ok(s) => Went::Parsed(s.shape(), self.gone(before)),
            Err(text) => Went::Failed(text@, self.gone(before)),
        }
    }

    /// What came of reading statements since the parser was `before`.
    pub open spec fn told_all(&self, before: &LoxParser, r: Result<Vec<Stmt>, String>) -> Went<
        Seq<StmtView>,
    > {
        match r {
            Ok(items) => Went::Parsed(shapes(items@), self.gone(before)),
            Err(text) => Went::Failed(text@, self.gone(before)),
        }
    }

    /// What came of reading the initializer of a `for` loop.
    pub open spec fn told_init(&self, before: &LoxParser, r: Result<Option<Stmt>, String>) -> Went<
        Option<StmtView>,
    > {
        match r {
            Ok(init) => Went::Parsed(opt_shape(init), self.gone(before)),
            Err(text) => Went::Failed(text@, self.gone(before)),
        }
    }

    /// What came of reading an expression and the token behind it.
    pub open spec fn told_expr(&self, before: &LoxParser, r: Result<Expr, String>) -> Went<Expr> {
        match r {
            Ok(e) => Went::Parsed(e, self.gone(before)),
            Err(text) => Went::Failed(text@, self.gone(before)),
        }
    }

    /// What came of reading the increment of a `for` loop.
    pub open spec fn told_step(&self, before: &LoxParser, r: Result<Option<Expr>, String>) -> Went<
        Option<Expr>,
    > {
        match r {
            Ok(e) => Went::Parsed(e, self.gone(before)),
            Err(text) => Went::Failed(text@, self.gone(before)),
        }
    }

    /// What came of reading the head of a `for` loop.
    pub open spec fn told_head(
        &self,
        before: &LoxParser,
        r: Result<(Option<Stmt>, Expr, Option<Expr>, Ghost<(int, int)>), String>,
    ) -> Went<(Option<StmtView>, Expr, Option<Expr>)> {
        match r {
            Ok(head) => Went::Parsed((opt_shape(head.0), head.1, head.2), self.gone(before)),
            Err(text) => Went::Failed(text@, self.gone(before)),
        }
    }

    /// Whether the tokens that are left are those of `rest` from where the
    /// parser stands, counted from `start`.
    pub open spec fn aligned(&self, rest: Seq<Token>, start: int) -> bool {
        let n = self.scanner().taken() - start;
        &&& 0 <= n <= rest.len()
        &&& self.rest() == rest.subrange(n, rest.len() as int)
        &&& self.rest().len() == rest.len() - n
        &&& n < rest.len() ==> self.rest()[0] == rest[n]
        &&& (if self.rest().len() > 0 {
            Some(self.rest()[0])
        } else {
            None
        }) == after(rest, n)
    }

    /// The tokens that are left are those of an earlier rest from where
    /// the parser stands.
    pub proof fn lemma_aligned(&self, rest: Seq<Token>, start: int)
        requires
            self.scanner().valid(),
            0 <= start <= self.scanner().taken(),
            rest == self.scanner().tokens().subrange(start, self.scanner().tokens().len() as int),
        ensures
            self.aligned(rest, start),
    {
        let n = self.scanner().taken() - start;
        assert(self.rest() =~= rest.subrange(n, rest.len() as int));
    }

    /// The tokens that the parser took since it was `before`.
    pub open spec fn took(&self, before: &LoxParser) -> Seq<Token> {
        self.scanner().tokens().subrange(before.scanner().taken(), self.scanner().taken())
    }

    /// Whether the parser came from `before` by taking tokens: the tokens
    /// are the same, none is pending, the cursor did not go back, and an
    /// error that was met stays met.
    pub open spec fn follows(&self, before: &LoxParser) -> bool {
        &&& self.scanner().tokens() == before.scanner().tokens()
        &&& self.clean()
        &&& before.scanner().taken() <= self.scanner().taken()
        &&& before.errors() ==> self.errors()
    }

    /// A parser over the tokens of `scanner` that has met no error.
    pub fn new(scanner: Scanner<Token>) -> (r: LoxParser)
        ensures
            r.scanner() == scanner,
            !r.errors(),
    {
        LoxParser { scanner, errors: false }
    }

    /// Takes the next token if it is of one of the kinds `token_types`;
    /// the token is then pending. Otherwise nothing changes.
    pub fn accept(&mut self, token_types: Vec<TT>) -> (r: bool)
        ensures
            final(self).scanner().tokens() == old(self).scanner().tokens(),
            final(self).scanner().mark() == old(self).scanner().mark(),
            final(self).scanner().valid(),
            old(self).scanner().valid(),
            final(self).errors() == old(self).errors(),
            r == (old(self).rest().len() > 0 && kind_in(token_types@, old(self).rest()[0].token)),
            token_types.len() == 1 ==> r == (old(self).rest().len() > 0 && old(
                self,
            ).rest()[0].token.kind() == token_types[0].kind()),
            r ==> final(self).scanner().taken() == old(self).scanner().taken() + 1,
            !r ==> final(self).scanner().taken() == old(self).scanner().taken(),
    {
        let backtrack = self.scanner.pos();
        if let Some(token) = self.scanner.next() {
            let mut i: usize = 0;
            while i < token_types.len()
                invariant
                    i <= token_types.len(),
                    self.scanner().tokens() == old(self).scanner().tokens(),
                    self.scanner().mark() == old(self).scanner().mark(),
                    self.scanner().valid(),
                    old(self).scanner().valid(),
                    self.errors() == old(self).errors(),
                    self.scanner().taken() == old(self).scanner().taken() + 1,
                    old(self).rest().len() > 0,
                    token == old(self).rest()[0],
                    backtrack == old(self).scanner().taken(),
                    forall|j: int| 0 <= j < i ==> (#[trigger] token_types[j]).kind() != token.token.kind(),
                decreases token_types.len() - i,
            {
                if token.token.same_kind(&token_types[i]) {
                    return true;
                }
                i += 1;
            }
        }
        self.scanner.set_pos(backtrack);
        false
    }

    /// Takes the next token and forgets it if it is of one of the kinds
    /// `token_types`. Otherwise nothing is taken, and the error is the
    /// message `err` at the next token.
    pub fn consume(&mut self, token_types: Vec<TT>, err: &str) -> (r: Result<(), String>)
        ensures
            final(self).scanner().tokens() == old(self).scanner().tokens(),
            old(self).scanner().valid(),
            r is Ok == (old(self).rest().len() > 0 && kind_in(
                token_types@,
                old(self).rest()[0].token,
            )),
            token_types.len() == 1 ==> r is Ok == (old(self).rest().len() > 0 && old(
                self,
            ).rest()[0].token.kind() == token_types[0].kind()),
            r is Ok ==> final(self).scanner().taken() == old(self).scanner().taken() + 1
                && final(self).clean() && final(self).errors() == old(self).errors(),
            r matches Err(text) ==> {
                &&& final(self).scanner().taken() == old(self).scanner().taken()
                &&& final(self).scanner().mark() == old(self).scanner().mark()
                &&& final(self).errors()
                &&& text@ == error_text(
                    if old(self).rest().len() > 0 {
                        Some(old(self).rest()[0])
                    } else {
                        None
                    },
                    err@,
                )
            },
    {
        if self.accept(token_types) {
            self.scanner.ignore();
            Ok(())
        } else {
            let bad_token = self.scanner.peek();
            Err(self.error(bad_token, err))
        }
    }

    /// Remembers that an error was met, and writes its message.
    pub fn error(&mut self, token: Option<Token>, msg: &str) -> (r: String)
        ensures
            final(self).scanner() == old(self).scanner(),
            final(self).errors(),
            r@ == error_text(token, msg@),
    {
        self.errors = true;
        match token {
            Some(t) => {
                let shown = quoted_text(&t.lexeme);
                write_error(Some((&shown, t.line)), msg)
            },
            None => write_error(None, msg),
        }
    }

    /// The first of the pending tokens; all of them are then forgotten.
    /// There must be one.
    fn take(&mut self) -> (r: Token)
        requires
            old(self).scanner().mark() < old(self).scanner().taken(),
        ensures
            final(self).scanner().tokens() == old(self).scanner().tokens(),
            final(self).scanner().taken() == old(self).scanner().taken(),
            final(self).scanner().valid(),
            final(self).clean(),
            final(self).errors() == old(self).errors(),
            r == old(self).scanner().tokens()[old(self).scanner().mark()],
    {
        let mut taken = self.scanner.extract();
        taken.swap_remove(0)
    }
}

/// A binary level of the grammar of expressions.
#[derive(Clone, Copy, Debug)]
pub enum Level {
    Multiplication,
    Addition,
    Comparison,
    Equality,
    LogicAnd,
    LogicOr,
}

impl Level {
    /// The number of the level: 2 for `multiplication`, up to 7 for
    /// `logic_or`.
    pub open spec fn number(self) -> nat {
        match self {
            Level::Multiplication => 2,
            Level::Addition => 3,
            Level::Comparison => 4,
            Level::Equality => 5,
            Level::LogicAnd => 6,
            Level::LogicOr => 7,
        }
    }

    /// The binary level below, if there is one; below `multiplication`
    /// stands `unary`.
    pub fn below(self) -> (r: Option<Level>)
        ensures
            match r {
                Some(level) => level.number() + 1 == self.number(),
                None => self.number() == 2,
            },
    {
        match self {
            Level::Multiplication => None,
            Level::Addition => Some(Level::Multiplication),
            Level::Comparison => Some(Level::Addition),
            Level::Equality => Some(Level::Comparison),
            Level::LogicAnd => Some(Level::Equality),
            Level::LogicOr => Some(Level::LogicAnd),
        }
    }

    /// The operators of the level.
    pub fn operators(self) -> (r: Vec<TT>)
        ensures
            forall|t: TT| kind_in(r@, t) == is_op(self.number(), t),
    {
        let kinds = match self {
            Level::Multiplication => vec![TT::SLASH, TT::STAR],
            Level::Addition => vec![TT::MINUS, TT::PLUS],
            Level::Comparison => vec![TT::GT, TT::GE, TT::LT, TT::LE],
            Level::Equality => vec![TT::EQ, TT::NE],
            Level::LogicAnd => vec![TT::AND],
            Level::LogicOr => vec![TT::OR],
        };
        proof {
            assert forall|t: TT| kind_in(kinds@, t) == is_op(self.number(), t) by {
                if is_op(self.number(), t) {
                    if t == kinds@[0] {
                        assert(kinds@[0].kind() == t.kind());
                    } else if kinds.len() > 1 && t == kinds@[1] {
                        assert(kinds@[1].kind() == t.kind());
                    } else if kinds.len() > 2 && t == kinds@[2] {
                        assert(kinds@[2].kind() == t.kind());
                    } else if kinds.len() > 3 {
                        assert(kinds@[3].kind() == t.kind());
                    }
                }
            }
        }
        kinds
    }

    /// Whether an operation of the level gives a value from two values:
    /// the levels below `logic_and` do, and the logical levels decide by
    /// their left operand.
    pub fn joins_values(self) -> (r: bool)
        ensures
            r == (self.number() <= 5),
    {
        match self {
            Level::LogicAnd => false,
            Level::LogicOr => false,
            _ => true,
        }
    }
}

/// Whether a token `t` behind an expression of level `level` belongs to
/// the expression: it is an operator of a binary level up to `level`, or
/// `=` behind an expression of the level of assignments.
pub open spec fn goes_on(level: nat, t: TT) -> bool {
    ||| level >= 2 && is_op(2, t)
    ||| level >= 3 && is_op(3, t)
    ||| level >= 4 && is_op(4, t)
    ||| level >= 5 && is_op(5, t)
    ||| level >= 6 && is_op(6, t)
    ||| level >= 7 && is_op(7, t)
    ||| level >= 8 && t == TT::ASSIGN
}

/// Whether an expression of level `level` ends at position `at` of
/// `rest`: the tokens end there, or the token there does not go on with
/// it.
pub open spec fn stops(level: nat, rest: Seq<Token>, at: int) -> bool {
    at >= rest.len() || !goes_on(level, rest[at].token)
}

/// Whether `rest` begins with the tokens of `e`, an expression of level
/// `level`.
pub open spec fn heads(e: Expr, level: nat, rest: Seq<Token>) -> bool {
    width(e) <= rest.len() && reads(e, rest.subrange(0, width(e) as int)) && fits(e, level)
}

/// Whether `e` is the expression of level `level` that `rest` begins
/// with: its tokens stand there, and it ends behind them.
pub open spec fn expected(e: Expr, level: nat, rest: Seq<Token>) -> bool {
    heads(e, level, rest) && stops(level, rest, width(e) as int)
}

/// Whether `want` names the expression of level `level` that `rest`
/// begins with.
pub open spec fn wanted(want: Option<Expr>, level: nat, rest: Seq<Token>) -> bool {
    want matches Some(e) && expected(e, level, rest)
}

/// Whether a primary expression may begin with the token.
pub open spec fn begins_primary(t: TT) -> bool {
    ||| t == TT::TRUE
    ||| t == TT::FALSE
    ||| t == TT::NIL
    ||| t is Num
    ||| t is Str
    ||| t is Id
    ||| t == TT::OPAREN
}

/// Whether `rest` begins with `(` and the expression `e`, and no `)`
/// stands behind them: a group that is not closed.
pub open spec fn open_group(e: Expr, rest: Seq<Token>) -> bool {
    &&& rest.len() > 0
    &&& rest[0].token == TT::OPAREN
    &&& expected(e, 8, rest.subrange(1, rest.len() as int))
    &&& !(1 + width(e) < rest.len() && rest[1 + width(e) as int].token == TT::CPAREN)
}

/// Whether `rest` begins with `l`, which is no variable, then `=`, then the
/// value `v`: an assignment to what cannot be assigned to.
pub open spec fn bad_target(l: Expr, v: Expr, rest: Seq<Token>) -> bool {
    &&& expected(l, 7, rest)
    &&& !(l is Var)
    &&& width(l) < rest.len()
    &&& rest[width(l) as int].token == TT::ASSIGN
    &&& expected(v, 8, rest.subrange(width(l) as int + 1, rest.len() as int))
}

/// The expression of level `level` that `rest` begins with and that ends
/// behind its tokens, if there is one.
pub open spec fn pick(level: nat, rest: Seq<Token>) -> Option<Expr> {
    if exists|e: Expr| expected(e, level, rest) {
        Some(choose|e: Expr| expected(e, level, rest))
    } else {
        None
    }
}

/// What comes of reading an expression.
pub enum Outcome {
    /// The expression, and the number of tokens that were taken.
    Parsed(Expr, int),
    /// The message of the failure, and the number of tokens that were
    /// taken before it.
    Failed(Seq<char>, int),
}

/// The operation of the binary level `level` on two operands.
pub open spec fn join(level: nat, lhs: Expr, op: Token, rhs: Expr) -> Expr {
    if level <= 5 {
        Expr::Binary(Box::new(lhs), op, Box::new(rhs))
    } else {
        Expr::Logical(Box::new(lhs), op, Box::new(rhs))
    }
}

/// The outcome `out`, with `by` more tokens taken before it.
pub open spec fn later(out: Outcome, by: int) -> Outcome {
    match out {
        Outcome::Parsed(e, n) => Outcome::Parsed(e, n + by),
        Outcome::Failed(text, n) => Outcome::Failed(text, n + by),
    }
}

/// What comes of reading an expression of level `level` from the front of
/// `rest`, token by token and without looking back.
///
/// A primary is a literal, a variable, or an expression in parentheses;
/// without the closing parenthesis it fails at the token in its place, and
/// a token that begins no primary fails where it stands. A unary
/// operation is an operator before a unary operation. A binary level
/// reads an operand of the level below and goes on as `more` says. An
/// assignment reads a `logic_or`, and behind `=` a value; it fails at the
/// `=` where the left side is no variable.
pub open spec fn descend(level: nat, rest: Seq<Token>) -> Outcome
    decreases rest.len(), level, 1nat, 0nat,
{
    if level == 0 {
        if rest.len() == 0 {
            Outcome::Failed(error_text(None, "expected expression"@), 0)
        } else {
            match rest[0].token {
                TT::TRUE => Outcome::Parsed(Expr::Bool(true), 1),
                TT::FALSE => Outcome::Parsed(Expr::Bool(false), 1),
                TT::NIL => Outcome::Parsed(Expr::Nil, 1),
                TT::Num(n) => Outcome::Parsed(Expr::Num(n), 1),
                TT::Str(s) => Outcome::Parsed(Expr::Str(s), 1),
                TT::Id(v) => Outcome::Parsed(Expr::Var(v), 1),
                TT::OPAREN => match descend(8, rest.subrange(1, rest.len() as int)) {
                    Outcome::Parsed(inner, n) => if 0 <= 1 + n < rest.len() && rest[1
                        + n].token == TT::CPAREN {
                        Outcome::Parsed(Expr::Grouping(Box::new(inner)), n + 2)
                    } else {
                        Outcome::Failed(
                            error_text(after(rest, 1 + n), "expect ')' after expression"@),
                            1 + n,
                        )
                    },
                    Outcome::Failed(text, n) => Outcome::Failed(text, 1 + n),
                },
                _ => Outcome::Failed(error_text(Some(rest[0]), "expected expression"@), 0),
            }
        }
    } else if level == 1 {
        if rest.len() > 0 && (rest[0].token == TT::BANG || rest[0].token == TT::MINUS
            || rest[0].token == TT::DOLLAR) {
            match descend(1, rest.subrange(1, rest.len() as int)) {
                Outcome::Parsed(rhs, n) => Outcome::Parsed(
                    Expr::Unary(rest[0], Box::new(rhs)),
                    1 + n,
                ),
                Outcome::Failed(text, n) => Outcome::Failed(text, 1 + n),
            }
        } else {
            descend(0, rest)
        }
    } else if level <= 7 {
        match descend((level - 1) as nat, rest) {
            Outcome::Parsed(lhs, n) => more(level, lhs, n, rest),
            Outcome::Failed(text, n) => Outcome::Failed(text, n),
        }
    } else {
        match descend(7, rest) {
            Outcome::Parsed(lhs, n) => if 0 <= n < rest.len() && rest[n].token == TT::ASSIGN {
                match descend(8, rest.subrange(n + 1, rest.len() as int)) {
                    Outcome::Parsed(value, m) => match lhs {
                        Expr::Var(name) => Outcome::Parsed(
                            Expr::Assign(name, Box::new(value)),
                            n + 1 + m,
                        ),
                        _ => Outcome::Failed(
                            error_text(Some(rest[n]), "invalid assignment target"@),
                            n + 1 + m,
                        ),
                    },
                    Outcome::Failed(text, m) => Outcome::Failed(text, n + 1 + m),
                }
            } else {
                Outcome::Parsed(lhs, n)
            },
            Outcome::Failed(text, n) => Outcome::Failed(text, n),
        }
    }
}

/// What comes of reading a group behind its opening parenthesis: an
/// expression and the closing parenthesis.
pub open spec fn group_model(rest: Seq<Token>) -> Outcome {
    match descend(8, rest) {
        Outcome::Parsed(inner, n) => if 0 <= n < rest.len() && rest[n].token == TT::CPAREN {
            Outcome::Parsed(Expr::Grouping(Box::new(inner)), n + 1)
        } else {
            Outcome::Failed(error_text(after(rest, n), "expect ')' after expression"@), n)
        },
        Outcome::Failed(text, n) => Outcome::Failed(text, n),
    }
}

/// Whether `rest` begins with the expression `e` and no `)` stands behind
/// it.
pub open spec fn unclosed(e: Expr, rest: Seq<Token>) -> bool {
    expected(e, 8, rest) && !(width(e) < rest.len() && rest[width(e) as int].token == TT::CPAREN)
}

/// How an expression of the binary level `level` goes on behind the
/// operand `lhs`, which was read from the first `n` tokens of `rest`: with
/// an operator of the level and an operand of the level below, as often as
/// an operator of the level follows. The bound on the tokens of the
/// operand is there for the definition to end; an operand that was read
/// always meets it.
pub open spec fn more(level: nat, lhs: Expr, n: int, rest: Seq<Token>) -> Outcome
    decreases rest.len(), level, 0nat, rest.len() - n,
{
    if 2 <= level <= 7 && 0 <= n < rest.len() && is_op(level, rest[n].token) {
        match descend((level - 1) as nat, rest.subrange(n + 1, rest.len() as int)) {
            Outcome::Parsed(rhs, m) => if 0 <= m <= rest.len() - n - 1 {
                more(level, join(level, lhs, rest[n], rhs), n + 1 + m, rest)
            } else {
                Outcome::Parsed(lhs, n)
            },
            Outcome::Failed(text, m) => Outcome::Failed(text, n + 1 + m),
        }
    } else {
        Outcome::Parsed(lhs, n)
    }
}

/// Whether `e` is an operation of the binary level `level`.
pub open spec fn splits(e: Expr, level: nat) -> bool {
    match e {
        Expr::Binary(_, op, _) => 2 <= level <= 5 && is_op(level, op.token),
        Expr::Logical(_, op, _) => 6 <= level <= 7 && is_op(level, op.token),
        _ => false,
    }
}

/// The left operand of an operation.
pub open spec fn left_of(e: Expr) -> Expr {
    match e {
        Expr::Binary(lhs, _, _) => *lhs,
        Expr::Logical(lhs, _, _) => *lhs,
        _ => e,
    }
}

/// The right operand of an operation.
pub open spec fn right_of(e: Expr) -> Expr {
    match e {
        Expr::Binary(_, _, rhs) => *rhs,
        Expr::Logical(_, _, rhs) => *rhs,
        _ => e,
    }
}

/// The operator's token of an operation.
pub open spec fn op_of(e: Expr) -> Token {
    match e {
        Expr::Binary(_, op, _) => op,
        Expr::Logical(_, op, _) => op,
        Expr::Unary(op, _) => op,
        _ => arbitrary(),
    }
}

/// The first operand of the operations of level `level` that `e` is made
/// of from the left.
pub open spec fn first_operand(e: Expr, level: nat) -> Expr
    decreases e,
{
    match e {
        Expr::Binary(lhs, _, _) => if splits(e, level) {
            first_operand(*lhs, level)
        } else {
            e
        },
        Expr::Logical(lhs, _, _) => if splits(e, level) {
            first_operand(*lhs, level)
        } else {
            e
        },
        _ => e,
    }
}

/// Whether `sub` is `e`, or the left operand of an operation of level
/// `level` on the way from `e` to its first operand.
pub open spec fn on_spine(e: Expr, sub: Expr, level: nat) -> bool
    decreases e,
{
    sub == e || match e {
        Expr::Binary(lhs, _, _) => splits(e, level) && on_spine(*lhs, sub, level),
        Expr::Logical(lhs, _, _) => splits(e, level) && on_spine(*lhs, sub, level),
        _ => false,
    }
}

/// The operation on the way from `e` to its first operand whose left
/// operand is `sub`.
pub open spec fn parent_on(e: Expr, sub: Expr, level: nat) -> Expr
    decreases e,
{
    match e {
        Expr::Binary(lhs, _, _) => if *lhs == sub {
            e
        } else {
            parent_on(*lhs, sub, level)
        },
        Expr::Logical(lhs, _, _) => if *lhs == sub {
            e
        } else {
            parent_on(*lhs, sub, level)
        },
        _ => e,
    }
}

/// An operation of a binary level has the shape of no level below.
pub proof fn lemma_split_level(e: Expr, level: nat, below: nat)
    requires
        splits(e, level),
        below < level,
    ensures
        !fits(e, below),
    decreases below,
{
    if below > 0 {
        lemma_split_level(e, level, (below - 1) as nat);
    }
}

/// A variable has the shape of every level.
pub proof fn lemma_var_fits(e: Expr, level: nat)
    requires
        e is Var,
    ensures
        fits(e, level),
    decreases level,
{
    if level > 0 {
        lemma_var_fits(e, (level - 1) as nat);
    }
}

/// An assignment has the shape of no level below that of assignments, and
/// an operation with one operand that of no level below its own.
pub proof fn lemma_own_level(e: Expr, below: nat)
    requires
        (e is Assign && below < 8) || (e is Unary && below < 1),
    ensures
        !fits(e, below),
    decreases below,
{
    if below > 0 {
        lemma_own_level(e, (below - 1) as nat);
    }
}

/// What follows for the right operand of the operation above `here`, an
/// operand on the way from the expected expression `goal` to its first
/// operand: the operator stands behind `here`, and behind it the tokens
/// begin with the right operand, which ends there for the level below.
pub proof fn lemma_right_expected(goal: Expr, here: Expr, level: nat, rest: Seq<Token>)
    requires
        2 <= level <= 7,
        expected(goal, level, rest),
        on_spine(goal, here, level),
        here != goal,
    ensures
        splits(parent_on(goal, here, level), level),
        left_of(parent_on(goal, here, level)) == here,
        on_spine(goal, parent_on(goal, here, level), level),
        width(here) < rest.len(),
        rest[width(here) as int] == op_of(parent_on(goal, here, level)),
        is_op(level, rest[width(here) as int].token),
        expected(
            right_of(parent_on(goal, here, level)),
            (level - 1) as nat,
            rest.subrange(width(here) as int + 1, rest.len() as int),
        ),
{
    let parent = parent_on(goal, here, level);
    lemma_parent(goal, here, level, rest);
    lemma_left_heads(parent, level, rest);
    let at = width(here) as int;
    let rhs = right_of(parent);
    let tail = rest.subrange(at + 1, rest.len() as int);
    assert(tail.subrange(0, width(rhs) as int) =~= rest.subrange(at + 1, width(parent) as int));
    if parent == goal {
        lemma_stops_below(level, (level - 1) as nat, rest, width(goal) as int);
    } else {
        lemma_op_goes_on(level, rest[width(parent) as int].token);
    }
    if width(rhs) < tail.len() {
        assert(tail[width(rhs) as int] == rest[width(parent) as int]);
    }
}

/// The expected expression is reached where no operator of its level
/// follows.
pub proof fn lemma_spine_end(goal: Expr, here: Expr, level: nat, rest: Seq<Token>)
    requires
        2 <= level <= 7,
        expected(goal, level, rest),
        on_spine(goal, here, level),
        width(here) >= rest.len() || !is_op(level, rest[width(here) as int].token),
    ensures
        here == goal,
{
    if here != goal {
        lemma_right_expected(goal, here, level, rest);
    }
}

/// No operator of its level follows the expected expression.
pub proof fn lemma_spine_on(goal: Expr, here: Expr, level: nat, rest: Seq<Token>)
    requires
        2 <= level <= 7,
        expected(goal, level, rest),
        on_spine(goal, here, level),
        width(here) < rest.len(),
        is_op(level, rest[width(here) as int].token),
    ensures
        here != goal,
{
    lemma_op_goes_on(level, rest[width(here) as int].token);
}

/// A token that is an operator of a binary level goes on with the
/// expressions of that level and above, and with none below.
pub proof fn lemma_op_goes_on(level: nat, t: TT)
    requires
        2 <= level <= 7,
        is_op(level, t),
    ensures
        goes_on(level, t),
        !goes_on((level - 1) as nat, t),
        t != TT::ASSIGN,
{
}

/// An expression that ends for a level ends for the levels below.
pub proof fn lemma_stops_below(level: nat, below: nat, rest: Seq<Token>, at: int)
    requires
        stops(level, rest, at),
        below <= level,
    ensures
        stops(below, rest, at),
{
}

/// The tokens of a left operand are the first of the tokens of the
/// operation.
pub proof fn lemma_left_heads(e: Expr, level: nat, rest: Seq<Token>)
    requires
        heads(e, level, rest),
        splits(e, level),
    ensures
        heads(left_of(e), level, rest),
        fits(right_of(e), (level - 1) as nat),
        width(left_of(e)) + 1 + width(right_of(e)) == width(e),
        rest[width(left_of(e)) as int] == op_of(e),
        is_op(level, op_of(e).token),
        reads(
            right_of(e),
            rest.subrange(width(left_of(e)) as int + 1, width(e) as int),
        ),
{
    lemma_split_level(e, level, (level - 1) as nat);
    let seg = rest.subrange(0, width(e) as int);
    let lhs = left_of(e);
    assert(seg.subrange(0, width(lhs) as int) =~= rest.subrange(0, width(lhs) as int));
    assert(seg.subrange(width(lhs) as int + 1, seg.len() as int) =~= rest.subrange(
        width(lhs) as int + 1,
        width(e) as int,
    ));
    assert(seg[width(lhs) as int] == rest[width(lhs) as int]);
}

/// What holds of the first operand of an expression of a binary level:
/// it is on the way from the expression to itself, the tokens begin with
/// it as an expression of the level below, and it ends for that level.
pub proof fn lemma_first_operand(e: Expr, level: nat, rest: Seq<Token>)
    requires
        2 <= level <= 7,
        expected(e, level, rest),
    ensures
        on_spine(e, first_operand(e, level), level),
        expected(first_operand(e, level), (level - 1) as nat, rest),
    decreases e,
{
    if splits(e, level) {
        lemma_left_heads(e, level, rest);
        lemma_op_goes_on(level, op_of(e).token);
        let lhs = left_of(e);
        lemma_first_inner(lhs, level, rest);
    } else {
        lemma_stops_below(level, (level - 1) as nat, rest, width(e) as int);
    }
}

/// The same of the first operand of a left operand, behind which an
/// operator of the level stands.
pub proof fn lemma_first_inner(e: Expr, level: nat, rest: Seq<Token>)
    requires
        2 <= level <= 7,
        heads(e, level, rest),
        width(e) < rest.len(),
        is_op(level, rest[width(e) as int].token),
    ensures
        on_spine(e, first_operand(e, level), level),
        expected(first_operand(e, level), (level - 1) as nat, rest),
    decreases e,
{
    lemma_op_goes_on(level, rest[width(e) as int].token);
    if splits(e, level) {
        lemma_left_heads(e, level, rest);
        lemma_op_goes_on(level, op_of(e).token);
        lemma_first_inner(left_of(e), level, rest);
    }
}

/// What holds of the operation above an operand on the way from an
/// expression to its first operand.
pub proof fn lemma_parent(e: Expr, sub: Expr, level: nat, rest: Seq<Token>)
    requires
        2 <= level <= 7,
        heads(e, level, rest),
        on_spine(e, sub, level),
        sub != e,
    ensures
        splits(parent_on(e, sub, level), level),
        left_of(parent_on(e, sub, level)) == sub,
        on_spine(e, parent_on(e, sub, level), level),
        heads(parent_on(e, sub, level), level, rest),
        width(parent_on(e, sub, level)) <= width(e),
        parent_on(e, sub, level) != e ==> width(parent_on(e, sub, level)) < rest.len() && is_op(
            level,
            rest[width(parent_on(e, sub, level)) as int].token,
        ),
    decreases e,
{
    lemma_left_heads(e, level, rest);
    let lhs = left_of(e);
    if lhs != sub {
        lemma_parent(lhs, sub, level, rest);
    }
}

impl LoxParser {
    /// `assignment := IDENTIFIER "=" assignment | logic_or`
    #[verifier::rlimit(100)]
    fn assignment(&mut self, Ghost(want): Ghost<Option<Expr>>) -> (r: Result<Expr, String>)
        requires
            old(self).clean(),
        ensures
            final(self).follows(old(self)),
            r is Ok ==> old(self).scanner().taken() < final(self).scanner().taken()
                && final(self).errors() == old(self).errors(),
            r matches Ok(e) ==> reads(e, final(self).took(old(self))) && fits(e, 8),
            r is Err ==> final(self).errors(),
            wanted(want, 8, old(self).rest()) ==> r == Ok::<Expr, String>(want.unwrap()),
            r matches Ok(e) ==> expected(e, 8, old(self).rest()),
            final(self).came(old(self), r) == descend(8, old(self).rest()),
            forall|l: Expr, v: Expr|
                #![trigger
                    expected(l, 7, old(self).rest()),
                    expected(v, 8, old(self).rest().subrange(width(l) as int + 1, old(self).rest().len() as int))
                ]
                bad_target(l, v, old(self).rest()) ==> (r matches Err(text) && text@ == error_text(
                    Some(old(self).rest()[width(l) as int]),
                    "invalid assignment target"@,
                )),
        decreases old(self).rest().len(), 8nat,
    {
        let ghost start = self.scanner().taken();
        let ghost toks = self.scanner().tokens();
        let ghost rest = self.rest();
        let ghost known = wanted(want, 8, rest);
        let ghost goal = want.unwrap();
        let ghost first = if known {
            Some(
                match goal {
                    Expr::Assign(name, _) => Expr::Var(name),
                    _ => goal,
                },
            )
        } else {
            pick(7, rest)
        };
        proof {
            if known {
                match goal {
                    Expr::Assign(name, value) => {
                        let target = Expr::Var(name);
                        let seg = rest.subrange(0, width(goal) as int);
                        assert(rest.subrange(0, 1)[0] == seg[0]);
                        assert(rest[1] == seg[1]);
                        lemma_var_fits(target, 7);
                        assert(expected(target, 7, rest));
                    },
                    _ => {
                        lemma_stops_below(8, 7, rest, width(goal) as int);
                    },
                }
            }
        }
        let expr = self.binary(Level::LogicOr, Ghost(first))?;
        proof {
            if known && goal is Assign {
                lemma_own_level(goal, 7);
            }
        }
        let ghost mid = self.scanner().taken();
        let ghost at = mid - start;
        proof {
            assert(toks.subrange(start, mid) =~= rest.subrange(0, width(expr) as int));
            if mid < toks.len() {
                assert(self.rest()[0] == toks[mid]);
                assert(rest[at] == toks[mid]);
            }
            assert forall|l: Expr| #[trigger] expected(l, 7, rest) implies l == expr by {
                lemma_one_expr(l, expr, 7, rest);
            }
        }
        let kinds = vec![TT::ASSIGN];
        proof {
            assert(kinds@[0] == TT::ASSIGN);
        }
        if self.accept(kinds) {
            let sign = self.take();
            let maybe_bad = Some(sign);
            let ghost tail = self.rest();
            let ghost next = if known {
                match goal {
                    Expr::Assign(_, value) => Some(*value),
                    _ => None,
                }
            } else {
                pick(8, tail)
            };
            proof {
                assert(tail =~= rest.subrange(at + 1, rest.len() as int));
                assert(sign == rest[at]);
                if known {
                    match goal {
                        Expr::Assign(_, value) => {
                            let seg = rest.subrange(0, width(goal) as int);
                            assert(tail.subrange(0, width(*value) as int) =~= seg.subrange(
                                2,
                                seg.len() as int,
                            ));
                            if width(*value) < tail.len() {
                                assert(tail[width(*value) as int] == rest[width(goal) as int]);
                            }
                            assert(expected(*value, 8, tail));
                        },
                        _ => {},
                    }
                }
            }
            let value = self.assignment(Ghost(next))?;
            proof {
                let end = self.scanner().taken();
                assert(toks.subrange(mid + 1, end) =~= tail.subrange(0, width(value) as int));
                if end < toks.len() {
                    assert(tail[width(value) as int] == rest[end - start]);
                }
            }
            return match expr {
                Expr::Var(name) => {
                    proof {
                        let end = self.scanner().taken();
                        let seg = toks.subrange(start, end);
                        assert(toks.subrange(start, mid)[0] == seg[0]);
                        assert(seg.subrange(2, seg.len() as int) =~= toks.subrange(mid + 1, end));
                        assert(seg[1] == sign);
                        let whole = Expr::Assign(name, Box::new(value));
                        assert(seg =~= rest.subrange(0, width(whole) as int));
                    }
                    Ok(Expr::Assign(name, Box::new(value)))
                },
                _ => Err(self.error(maybe_bad, "invalid assignment target")),
            };
        }
        Ok(expr)
    }

    /// `expression := assignment`
    fn expression(&mut self, Ghost(want): Ghost<Option<Expr>>) -> (r: Result<Expr, String>)
        requires
            old(self).clean(),
        ensures
            final(self).follows(old(self)),
            r is Ok ==> old(self).scanner().taken() < final(self).scanner().taken()
                && final(self).errors() == old(self).errors(),
            r matches Ok(e) ==> reads(e, final(self).took(old(self))) && fits(e, 8),
            r is Err ==> final(self).errors(),
            wanted(want, 8, old(self).rest()) ==> r == Ok::<Expr, String>(want.unwrap()),
            r matches Ok(e) ==> expected(e, 8, old(self).rest()),
            final(self).came(old(self), r) == descend(8, old(self).rest()),
        decreases old(self).rest().len(), 9nat,
    {
        self.assignment(Ghost(want))
    }

    /// The binary levels, from `multiplication` (2) up to `logic_or` (7):
    ///
    /// ```text
    /// logic_or       := logic_and { "or" logic_and }
    /// logic_and      := equality { "and" equality }
    /// equality       := comparison { ( "!=" | "==" ) comparison }
    /// comparison     := addition { ( ">" | ">=" | "<" | "<=" ) addition }
    /// addition       := multiplication { ( "-" | "+" ) multiplication }
    /// multiplication := unary { ( "/" | "*" ) unary }
    /// ```
    ///
    /// An operand is an expression of the level below, and the operations
    /// of a level lean to the left.
    fn binary(&mut self, level: Level, Ghost(want): Ghost<Option<Expr>>) -> (r: Result<
        Expr,
        String,
    >)
        requires
            old(self).clean(),
        ensures
            final(self).follows(old(self)),
            r is Ok ==> old(self).scanner().taken() < final(self).scanner().taken()
                && final(self).errors() == old(self).errors(),
            r matches Ok(e) ==> reads(e, final(self).took(old(self))) && fits(e, level.number()),
            r is Err ==> final(self).errors(),
            wanted(want, level.number(), old(self).rest()) ==> r == Ok::<Expr, String>(want.unwrap()),
            r matches Ok(e) ==> expected(e, level.number(), old(self).rest()),
            final(self).came(old(self), r) == descend(level.number(), old(self).rest()),
        decreases old(self).rest().len(), level.number(),
    {
        let ghost lv = level.number();
        let ghost start = self.scanner().taken();
        let ghost toks = self.scanner().tokens();
        let ghost rest = self.rest();
        let ghost known = wanted(want, lv, rest);
        let ghost goal = want.unwrap();
        let ghost first = if known {
            Some(first_operand(goal, lv))
        } else {
            None
        };
        proof {
            if known {
                lemma_first_operand(goal, lv, rest);
            }
        }
        let mut expr = match level.below() {
            None => self.unary(Ghost(first))?,
            Some(below) => self.binary(below, Ghost(first))?,
        };
        proof {
            assert(toks.subrange(start, self.scanner().taken()) =~= rest.subrange(
                0,
                width(expr) as int,
            ));
        }
        loop
            invariant
                old(self).clean(),
                lv == level.number(),
                self.follows(old(self)),
                self.errors() == old(self).errors(),
                old(self).scanner().taken() < self.scanner().taken(),
                start == old(self).scanner().taken(),
                toks == self.scanner().tokens(),
                rest == old(self).rest(),
                known == wanted(want, lv, rest),
                goal == want.unwrap(),
                reads(expr, toks.subrange(start, self.scanner().taken())),
                fits(expr, lv),
                known ==> on_spine(goal, expr, lv),
                stops((lv - 1) as nat, rest, self.scanner().taken() - start),
                descend(lv, rest) == more(lv, expr, self.scanner().taken() - start, rest),
            ensures
                self.follows(old(self)),
                self.errors() == old(self).errors(),
                old(self).scanner().taken() < self.scanner().taken(),
                reads(expr, toks.subrange(start, self.scanner().taken())),
                fits(expr, lv),
                known ==> expr == goal,
                stops(lv, rest, self.scanner().taken() - start),
                descend(lv, rest) == Outcome::Parsed(expr, self.scanner().taken() - start),
            decreases self.rest().len(),
        {
            let ghost mid = self.scanner().taken();
            let ghost here = expr;
            let ghost at = mid - start;
            let kinds = level.operators();
            proof {
                assert(at == width(here));
                if mid < toks.len() {
                    assert(self.rest()[0] == toks[mid]);
                    assert(rest[at] == toks[mid]);
                }
            }
            if !self.accept(kinds) {
                proof {
                    if known {
                        lemma_spine_end(goal, here, lv, rest);
                    }
                }
                break ;
            }
            let op = self.take();
            let ghost parent = parent_on(goal, here, lv);
            let ghost next = if known {
                Some(right_of(parent))
            } else {
                None
            };
            proof {
                assert(is_op(lv, op.token));
                assert(self.rest() =~= rest.subrange(at + 1, rest.len() as int));
                assert(op == rest[at]);
                if known {
                    lemma_spine_on(goal, here, lv, rest);
                    lemma_right_expected(goal, here, lv, rest);
                }
            }
            let rhs = match level.below() {
                None => self.unary(Ghost(next))?,
                Some(below) => self.binary(below, Ghost(next))?,
            };
            expr = if level.joins_values() {
                Expr::Binary(Box::new(expr), op, Box::new(rhs))
            } else {
                Expr::Logical(Box::new(expr), op, Box::new(rhs))
            };
            proof {
                let end = self.scanner().taken();
                let seg = toks.subrange(start, end);
                assert(seg.subrange(0, width(here) as int) =~= toks.subrange(start, mid));
                assert(seg.subrange(width(here) as int + 1, seg.len() as int) =~= toks.subrange(
                    mid + 1,
                    end,
                ));
                assert(seg[width(here) as int] == op);
                assert(expr == join(lv, here, rest[at], rhs));
                if known {
                    assert(expr == parent);
                }
                let tail = rest.subrange(at + 1, rest.len() as int);
                assert(toks.subrange(mid + 1, end) =~= tail.subrange(0, width(rhs) as int));
                if end < toks.len() {
                    assert(tail[width(rhs) as int] == rest[end - start]);
                }
            }
        }
        proof {
            assert(toks.subrange(start, self.scanner().taken()) =~= rest.subrange(
                0,
                width(expr) as int,
            ));
        }
        Ok(expr)
    }

    /// `unary := ( "!" | "-" | "$" ) unary | primary`
    fn unary(&mut self, Ghost(want): Ghost<Option<Expr>>) -> (r: Result<Expr, String>)
        requires
            old(self).clean(),
        ensures
            final(self).follows(old(self)),
            r is Ok ==> old(self).scanner().taken() < final(self).scanner().taken()
                && final(self).errors() == old(self).errors(),
            r matches Ok(e) ==> reads(e, final(self).took(old(self))) && fits(e, 1),
            r is Err ==> final(self).errors(),
            wanted(want, 1, old(self).rest()) ==> r == Ok::<Expr, String>(want.unwrap()),
            r matches Ok(e) ==> expected(e, 1, old(self).rest()),
            final(self).came(old(self), r) == descend(1, old(self).rest()),
        decreases old(self).rest().len(), 1nat,
    {
        let ghost start = self.scanner().taken();
        let ghost toks = self.scanner().tokens();
        let ghost rest = self.rest();
        let ghost known = wanted(want, 1, rest);
        let ghost goal = want.unwrap();
        let kinds = vec![TT::BANG, TT::MINUS, TT::DOLLAR];
        proof {
            assert(kinds@[0] == TT::BANG);
            assert(kinds@[1] == TT::MINUS);
            assert(kinds@[2] == TT::DOLLAR);
            if start < toks.len() {
                assert(rest[0] == toks[start]);
            }
            if known {
                assert(rest.subrange(0, width(goal) as int)[0] == rest[0]);
                if goal is Unary {
                    lemma_own_level(goal, 0);
                    assert(kind_in(kinds@, rest[0].token));
                } else {
                    assert(fits(goal, 0));
                    assert(!kind_in(kinds@, rest[0].token)) by {
                        reveal_with_fuel(fits, 2);
                    }
                }
            }
        }
        if self.accept(kinds) {
            let op = self.take();
            let ghost tail = self.rest();
            let ghost next = if known {
                match goal {
                    Expr::Unary(_, rhs) => Some(*rhs),
                    _ => None,
                }
            } else {
                None
            };
            proof {
                assert(tail =~= rest.subrange(1, rest.len() as int));
                assert(op == rest[0]);
                if known {
                    match goal {
                        Expr::Unary(_, rhs) => {
                            let seg = rest.subrange(0, width(goal) as int);
                            assert(tail.subrange(0, width(*rhs) as int) =~= seg.subrange(
                                1,
                                seg.len() as int,
                            ));
                            lemma_own_level(goal, 0);
                            assert(expected(*rhs, 1, tail));
                        },
                        _ => {},
                    }
                }
            }
            let rhs = self.unary(Ghost(next))?;
            proof {
                let end = self.scanner().taken();
                let seg = toks.subrange(start, end);
                assert(seg.subrange(1, seg.len() as int) =~= toks.subrange(start + 1, end));
                assert(seg[0] == op);
                assert(seg =~= rest.subrange(0, 1 + width(rhs) as int));
            }
            return Ok(Expr::Unary(op, Box::new(rhs)));
        }
        proof {
            if known {
                assert(expected(goal, 0, rest));
            }
        }
        self.primary(Ghost(want))
    }

    /// `primary := NUMBER | STRING | "false" | "true" | "nil" | "(" expression ")" | IDENTIFIER`
    #[verifier::rlimit(100)]
    fn primary(&mut self, Ghost(want): Ghost<Option<Expr>>) -> (r: Result<Expr, String>)
        requires
            old(self).clean(),
        ensures
            final(self).follows(old(self)),
            r is Ok ==> old(self).scanner().taken() < final(self).scanner().taken()
                && final(self).errors() == old(self).errors(),
            r matches Ok(e) ==> reads(e, final(self).took(old(self))) && fits(e, 0),
            r is Err ==> final(self).errors(),
            wanted(want, 0, old(self).rest()) ==> r == Ok::<Expr, String>(want.unwrap()),
            r matches Ok(e) ==> expected(e, 0, old(self).rest()),
            final(self).came(old(self), r) == descend(0, old(self).rest()),
            old(self).rest().len() == 0 || !begins_primary(old(self).rest()[0].token) ==> (
            r matches Err(text) && text@ == error_text(old(self).ahead(), "expected expression"@)
                && final(self).scanner().taken() == old(self).scanner().taken()),
            forall|e: Expr|
                #[trigger] open_group(e, old(self).rest()) ==> (
                r matches Err(text) && text@ == error_text(
                    after(old(self).rest(), 1 + width(e) as int),
                    "expect ')' after expression"@,
                )),
        decreases old(self).rest().len(), 0nat,
    {
        let ghost start = self.scanner().taken();
        let ghost toks = self.scanner().tokens();
        let ghost rest = self.rest();
        let ghost known = wanted(want, 0, rest);
        let ghost goal = want.unwrap();
        proof {
            if known {
                assert(rest.subrange(0, width(goal) as int)[0] == rest[0]);
            }
            if start < toks.len() {
                assert(rest[0] == toks[start]);
                assert(rest.subrange(0, 1) =~= toks.subrange(start, start + 1));
            }
        }
        let truth = vec![TT::FALSE, TT::TRUE];
        proof {
            assert(truth@[0] == TT::FALSE);
            assert(truth@[1] == TT::TRUE);
        }
        if self.accept(truth) {
            let token = self.take();
            assert(toks.subrange(start, start + 1)[0] == token);
            return Ok(
                match token.token {
                    TT::TRUE => Expr::Bool(true),
                    _ => Expr::Bool(false),
                },
            );
        }
        if self.accept(vec![TT::NIL]) {
            self.scanner.ignore();
            assert(toks.subrange(start, start + 1)[0] == toks[start]);
            return Ok(Expr::Nil);
        }
        if self.accept(vec![TT::Num(String::new())]) {
            let token = self.take();
            assert(toks.subrange(start, start + 1)[0] == token);
            return Ok(
                match token.token {
                    TT::Num(n) => Expr::Num(n),
                    _ => unreached(),
                },
            );
        }
        if self.accept(vec![TT::Str(String::new())]) {
            let token = self.take();
            assert(toks.subrange(start, start + 1)[0] == token);
            return Ok(
                match token.token {
                    TT::Str(s) => Expr::Str(s),
                    _ => unreached(),
                },
            );
        }
        if self.accept(vec![TT::Id(String::new())]) {
            let token = self.take();
            assert(toks.subrange(start, start + 1)[0] == token);
            return Ok(
                match token.token {
                    TT::Id(v) => Expr::Var(v),
                    _ => unreached(),
                },
            );
        }
        let kinds = vec![TT::OPAREN];
        proof {
            assert(kinds@[0] == TT::OPAREN);
        }
        if self.accept(kinds) {
            self.scanner.ignore();
            let ghost tail = self.rest();
            proof {
                assert(tail =~= rest.subrange(1, rest.len() as int));
                if known {
                    match goal {
                        Expr::Grouping(inner) => {
                            let seg = rest.subrange(0, width(goal) as int);
                            assert(tail.subrange(0, width(*inner) as int) =~= seg.subrange(
                                1,
                                seg.len() - 1,
                            ));
                            assert(tail[width(*inner) as int] == seg[seg.len() - 1]);
                            assert(expected(*inner, 8, tail));
                        },
                        _ => {},
                    }
                }
                assert forall|e: Expr| #[trigger] open_group(e, rest) implies unclosed(e, tail) by {
                    if 1 + width(e) < rest.len() {
                        assert(tail[width(e) as int] == rest[1 + width(e) as int]);
                    }
                }
            }
            let r = self.group(Ghost(want));
            let ghost got = r;
            proof {
                let end = self.scanner().taken();
                let seg = toks.subrange(start, end);
                match got {
                    Ok(e) => {
                        assert(seg.subrange(1, seg.len() - 1) =~= toks.subrange(start + 1, end - 1));
                        assert(seg[0] == toks[start]);
                        assert(seg[seg.len() - 1] == toks[end - 1]);
                        assert(seg =~= rest.subrange(0, width(e) as int));
                    },
                    Err(_) => {},
                }
                assert forall|e: Expr| #[trigger] open_group(e, rest) implies after(
                    tail,
                    width(e) as int,
                ) == after(rest, 1 + width(e) as int) by {
                    if 1 + width(e) < rest.len() {
                        assert(tail[width(e) as int] == rest[1 + width(e) as int]);
                    }
                }
                match descend(8, tail) {
                    Outcome::Parsed(inner, n) => {
                        if 0 <= n < tail.len() {
                            assert(tail[n] == rest[1 + n]);
                        }
                    },
                    _ => {},
                }
            }
            return r;
        }
        let bad_token = self.scanner.peek();
        Err(self.error(bad_token, "expected expression"))
    }

    /// What stands behind the opening parenthesis of a group: an
    /// expression and the closing parenthesis.
    fn group(&mut self, Ghost(want): Ghost<Option<Expr>>) -> (r: Result<Expr, String>)
        requires
            old(self).clean(),
        ensures
            final(self).follows(old(self)),
            r is Ok ==> old(self).scanner().taken() < final(self).scanner().taken()
                && final(self).errors() == old(self).errors(),
            r matches Ok(e) ==> e matches Expr::Grouping(inner) && {
                let toks = old(self).scanner().tokens();
                let from = old(self).scanner().taken();
                let to = final(self).scanner().taken();
                &&& to - from == width(*inner) + 1
                &&& reads(*inner, toks.subrange(from, to - 1))
                &&& fits(*inner, 8)
                &&& toks[to - 1].token == TT::CPAREN
            },
            r is Err ==> final(self).errors(),
            want matches Some(Expr::Grouping(inner)) && expected(*inner, 8, old(self).rest())
                && width(*inner) < old(self).rest().len() && old(self).rest()[width(
                *inner,
            ) as int].token == TT::CPAREN ==> r == Ok::<Expr, String>(want.unwrap()),
            final(self).came(old(self), r) == group_model(old(self).rest()),
            forall|e: Expr|
                #[trigger] unclosed(e, old(self).rest()) ==> (r matches Err(text) && text@
                    == error_text(
                    after(old(self).rest(), width(e) as int),
                    "expect ')' after expression"@,
                )),
        decreases old(self).rest().len(), 10nat,
    {
        let ghost start = self.scanner().taken();
        let ghost toks = self.scanner().tokens();
        let ghost rest = self.rest();
        let expr = self.expression(Ghost(pick(8, rest)))?;
        let ghost mid = self.scanner().taken();
        proof {
            assert(toks.subrange(start, mid) =~= rest.subrange(0, width(expr) as int));
            if mid < toks.len() {
                assert(self.rest()[0] == toks[mid]);
                assert(rest[mid - start] == toks[mid]);
            }
            assert forall|e: Expr| #[trigger] expected(e, 8, rest) implies e == expr by {
                lemma_one_expr(e, expr, 8, rest);
            }
        }
        self.consume(vec![TT::CPAREN], "expect ')' after expression")?;
        Ok(Expr::Grouping(Box::new(expr)))
    }
}

/// A statement that may stand where no declaration may, may stand where
/// one may.
pub proof fn lemma_stmt_is_decl(s: Stmt, toks: Seq<Token>, next: Option<Token>)
    requires
        stmt_reads(s, toks, false, next),
    ensures
        stmt_reads(s, toks, true, next),
{
    reveal(stmt_reads);
}

/// Whether the parser walked over the head of a `for` loop from position
/// `start`, behind the `for`: the condition, or the semicolon in its
/// place, stands at `pb`, the semicolon behind it at `pc`, and the closing
/// parenthesis at `pd`.
pub open spec fn head_walked(
    toks: Seq<Token>,
    start: int,
    pb: int,
    pc: int,
    pd: int,
    init: Option<Stmt>,
    cond: Expr,
    inc: Option<Expr>,
) -> bool {
    &&& 1 <= start
    &&& start + 1 < pb <= pc < pd < toks.len()
    &&& toks[start - 1].token == TT::FOR
    &&& toks[start].token == TT::OPAREN
    &&& match init {
        None => pb == start + 2 && toks[start + 1].token == TT::SEMICOLON,
        Some(s) => toks[start + 1].token != TT::SEMICOLON && if toks[start + 1].token == TT::VAR {
            s is Var && stmt_reads(s, toks.subrange(start + 1, pb), true, after(toks, pb))
        } else {
            s is Expr && stmt_reads(s, toks.subrange(start + 1, pb), false, after(toks, pb))
        },
    }
    &&& if toks[pb].token.kind() != TT::SEMICOLON.kind() {
        pb < pc && reads(cond, toks.subrange(pb, pc)) && fits(cond, 8)
    } else {
        pb == pc && cond == Expr::Bool(true)
    }
    &&& toks[pc].token == TT::SEMICOLON
    &&& match inc {
        Some(i) => toks[pc + 1].token.kind() != TT::CPAREN.kind() && reads(
            i,
            toks.subrange(pc + 1, pd),
        ) && fits(i, 8),
        None => pd == pc + 1,
    }
    &&& toks[pd].token == TT::CPAREN
}

/// The initializer of a `for` loop, as the parser walks over it, is one
/// in the sense of `init_reads`, and it ends where the parser stood.
proof fn lemma_head_init(
    toks: Seq<Token>,
    start: int,
    pb: int,
    pc: int,
    pd: int,
    end: int,
    init: Option<Stmt>,
    cond: Expr,
    inc: Option<Expr>,
)
    requires
        head_walked(toks, start, pb, pc, pd, init, cond, inc),
        pd < end <= toks.len(),
    ensures
        init_end(init, toks.subrange(start - 1, end)) == pb - (start - 1),
        init_reads(init, toks.subrange(start - 1, end)),
{
    reveal(stmt_reads);
    let seg = toks.subrange(start - 1, end);
    let b = pb - (start - 1);
    assert(seg[2] == toks[start + 1]);
    match init {
        None => {},
        Some(Stmt::Var(name, e)) => {
            let decl = toks.subrange(start + 1, pb);
            assert(seg.subrange(3, b) =~= decl.subrange(1, decl.len() as int));
            assert(seg[4] == decl[2]);
            assert(seg.subrange(3, b)[1] == seg[4]);
        },
        Some(Stmt::Expr(e)) => {
            assert(seg.subrange(2, b) =~= toks.subrange(start + 1, pb));
        },
        Some(_) => {},
    }
}

/// The head of a `for` loop, as the parser walks over it, is a head in
/// the sense of `for_head`.
proof fn lemma_for_head(
    toks: Seq<Token>,
    start: int,
    pb: int,
    pc: int,
    pd: int,
    end: int,
    init: Option<Stmt>,
    cond: Expr,
    inc: Option<Expr>,
)
    requires
        head_walked(toks, start, pb, pc, pd, init, cond, inc),
        pd < end <= toks.len(),
    ensures
        for_head(init, cond, inc, toks.subrange(start - 1, end)) == Some(pd + 1 - (start - 1)),
        inc is Some ==> for_head(init, cond, None, toks.subrange(start - 1, end)) is None,
{
    lemma_head_init(toks, start, pb, pc, pd, end, init, cond, inc);
    let seg = toks.subrange(start - 1, end);
    let b = pb - (start - 1);
    let c = pc - (start - 1);
    let d = pd - (start - 1);
    assert(seg[0] == toks[start - 1]);
    assert(seg[1] == toks[start]);
    assert(seg[b] == toks[pb]);
    assert(seg[c] == toks[pc]);
    assert(seg[c + 1] == toks[pc + 1]);
    assert(seg[d] == toks[pd]);
    assert(seg.subrange(b, c) =~= toks.subrange(pb, pc));
    assert(seg.subrange(c + 1, d) =~= toks.subrange(pc + 1, pd));
    assert(cond_end(init, cond, seg) == c);
    assert(inc_end(init, cond, inc, seg) == d);
}

/// A `for` loop with a head in the sense of `for_head` and a statement
/// behind it reads as the statement that the parser makes of it.
proof fn lemma_for_whole(
    init: Option<Stmt>,
    cond: Expr,
    inc: Option<Expr>,
    body: Stmt,
    inner: Stmt,
    whole: Stmt,
    seg: Seq<Token>,
    at: int,
    next: Option<Token>,
)
    requires
        seg.len() >= 1,
        seg[0].token == TT::FOR,
        for_head(init, cond, inc, seg) == Some(at),
        inc is Some ==> for_head(init, cond, None, seg) is None,
        stmt_reads(body, seg.subrange(at, seg.len() as int), false, next),
        match inc {
            Some(i) => inner matches Stmt::Block(both) && both.len() == 2 && both[0] == body
                && both[1] == Stmt::Expr(i),
            None => inner == body,
        },
        match init {
            Some(s) => whole matches Stmt::Block(both) && both.len() == 2 && both[0] == s
                && both[1] == Stmt::While(cond, Box::new(inner)),
            None => whole == Stmt::While(cond, Box::new(inner)),
        },
    ensures
        stmt_reads(whole, seg, false, next),
{
    assert(for_reads(init, cond, inner, seg, next)) by {
        reveal(for_reads);
        reveal(stmt_reads);
        match inc {
            Some(i) => {
                let both = inner->Block_0;
                assert(both[1] == Stmt::Expr(i));
                assert(both[0] == body);
                assert(for_head(init, cond, None, seg) is None);
                assert(for_head(init, cond, Some(i), seg) == Some(at));
                assert(for_reads(init, cond, inner, seg, next));
            },
            None => {
                assert(for_head(init, cond, None, seg) == Some(at));
                assert(inner == body);
                assert(for_reads(init, cond, inner, seg, next));
            },
        }
    }
    assert(stmt_reads(whole, seg, false, next)) by {
        reveal(for_reads);
        reveal(stmt_reads);
        match init {
            Some(s) => {
                let both = whole->Block_0;
                assert(both[1] == Stmt::While(cond, Box::new(inner)));
                assert(both[0] == s);
            },
            None => {},
        }
    }
}

/// Whether `items` are read one after another from `toks`, from position
/// `start` on, in the pieces that `cuts` give.
pub open spec fn pieces_read(items: Seq<Stmt>, toks: Seq<Token>, start: int, cuts: Seq<int>) -> bool {
    &&& cuts.len() == items.len() + 1
    &&& cuts[0] == 0
    &&& forall|i: int| 0 <= i < items.len() ==> 0 <= #[trigger] cuts[i] <= cuts[i + 1]
    &&& forall|i: int|
        0 <= i < items.len() ==> stmt_reads(
            #[trigger] items[i],
            toks.subrange(start + cuts[i], start + cuts[i + 1]),
            true,
            after(toks, start + cuts[i + 1]),
        )
}

/// One more statement, read behind the last piece, makes one more piece.
proof fn lemma_piece_added(
    items: Seq<Stmt>,
    toks: Seq<Token>,
    start: int,
    cuts: Seq<int>,
    item: Stmt,
    end: int,
)
    requires
        pieces_read(items, toks, start, cuts),
        cuts[items.len() as int] <= end,
        stmt_reads(
            item,
            toks.subrange(start + cuts[items.len() as int], start + end),
            true,
            after(toks, start + end),
        ),
    ensures
        pieces_read(items.push(item), toks, start, cuts.push(end)),
{
    let more = items.push(item);
    let next = cuts.push(end);
    lemma_cuts_rise(items, toks, start, cuts, items.len() as int);
    assert forall|i: int| 0 <= i < more.len() implies 0 <= #[trigger] next[i] <= next[i + 1] by {
        if i < items.len() {
            assert(next[i] == cuts[i] && next[i + 1] == cuts[i + 1]);
        }
    }
    assert forall|i: int| 0 <= i < more.len() implies stmt_reads(
        #[trigger] more[i],
        toks.subrange(start + next[i], start + next[i + 1]),
        true,
        after(toks, start + next[i + 1]),
    ) by {
        if i < items.len() {
            assert(more[i] == items[i]);
            assert(next[i] == cuts[i] && next[i + 1] == cuts[i + 1]);
        }
    }
}

/// Pieces that end where `toks` end cut `toks` into statements.
proof fn lemma_pieces_cut(items: Seq<Stmt>, toks: Seq<Token>, start: int, end: int, cuts: Seq<int>)
    requires
        0 <= start <= end <= toks.len(),
        pieces_read(items, toks, start, cuts),
        cuts[items.len() as int] == end - start,
    ensures
        cuts_ok(cuts, items.len() as int, toks.subrange(start, end)),
        forall|i: int|
            0 <= i < items.len() ==> stmt_reads(
                #[trigger] items[i],
                toks.subrange(start, end).subrange(cuts[i], cuts[i + 1]),
                true,
                after(toks, start + cuts[i + 1]),
            ),
    decreases items.len(),
{
    lemma_cuts_rise(items, toks, start, cuts, items.len() as int);
    assert forall|i: int| 0 <= i < items.len() implies 0 <= #[trigger] cuts[i] <= cuts[i + 1]
        <= end - start by {
        lemma_cuts_rise(items, toks, start, cuts, i + 1);
    }
    assert forall|i: int| 0 <= i < items.len() implies stmt_reads(
        #[trigger] items[i],
        toks.subrange(start, end).subrange(cuts[i], cuts[i + 1]),
        true,
        after(toks, start + cuts[i + 1]),
    ) by {
        lemma_cuts_rise(items, toks, start, cuts, i + 1);
        assert(toks.subrange(start, end).subrange(cuts[i], cuts[i + 1]) =~= toks.subrange(
            start + cuts[i],
            start + cuts[i + 1],
        ));
    }
}

/// No cut lies behind the last.
proof fn lemma_cuts_rise(items: Seq<Stmt>, toks: Seq<Token>, start: int, cuts: Seq<int>, i: int)
    requires
        pieces_read(items, toks, start, cuts),
        0 <= i <= items.len(),
    ensures
        0 <= cuts[i] <= cuts[items.len() as int],
    decreases items.len() - i,
{
    if i < items.len() {
        lemma_cuts_rise(items, toks, start, cuts, i + 1);
    } else if i > 0 {
        assert(0 <= cuts[i - 1] <= cuts[i - 1 + 1]);
    }
}

/// What makes an `if` statement of its tokens `seg`: the condition in
/// parentheses behind `if`, the statement up to `cut`, and from there the
/// `else` with its statement, or nothing.
pub open spec fn if_parts(whole: Stmt, seg: Seq<Token>, cut: int, next: Option<Token>) -> bool {
    whole matches Stmt::If(cond, then, other) && {
        let after = 3 + width(cond) as int;
        &&& seg.len() > after
        &&& seg[0].token == TT::IF
        &&& seg[1].token == TT::OPAREN
        &&& reads(cond, seg.subrange(2, after - 1))
        &&& fits(cond, 8)
        &&& seg[after - 1].token == TT::CPAREN
        &&& match other {
            None => cut == seg.len() && !is_else(next) && stmt_reads(
                *then,
                seg.subrange(after, seg.len() as int),
                false,
                next,
            ),
            Some(el) => {
                &&& after < cut < seg.len() - 1
                &&& seg[cut].token == TT::ELSE
                &&& stmt_reads(*then, seg.subrange(after, cut), false, Some(seg[cut]))
                &&& stmt_reads(*el, seg.subrange(cut + 1, seg.len() as int), false, next)
            },
        }
    }
}

/// The parts of an `if` statement make the statement.
proof fn lemma_if_made(whole: Stmt, seg: Seq<Token>, cut: int, next: Option<Token>)
    requires
        if_parts(whole, seg, cut, next),
    ensures
        stmt_reads(whole, seg, false, next),
{
    reveal(stmt_reads);
}

/// An `if` statement, as the parser walks over it, reads as the statement
/// that the parser makes of it.
proof fn lemma_if_reads(
    toks: Seq<Token>,
    start: int,
    a: int,
    m: int,
    end: int,
    whole: Stmt,
)
    requires
        1 <= start,
        start + 1 < a,
        a + 1 < m <= end <= toks.len(),
        toks[start - 1].token == TT::IF,
        toks[start].token == TT::OPAREN,
        toks[a].token == TT::CPAREN,
        whole matches Stmt::If(cond, then, other) && {
            &&& reads(cond, toks.subrange(start + 1, a))
            &&& fits(cond, 8)
            &&& stmt_reads(*then, toks.subrange(a + 1, m), false, after(toks, m))
            &&& match other {
                None => m == end && !is_else(after(toks, m)),
                Some(el) => m + 1 < end && toks[m].token == TT::ELSE && stmt_reads(
                    *el,
                    toks.subrange(m + 1, end),
                    false,
                    after(toks, end),
                ),
            }
        },
    ensures
        stmt_reads(whole, toks.subrange(start - 1, end), false, after(toks, end)),
{
    let seg = toks.subrange(start - 1, end);
    let cond = whole->If_0;
    let after = 3 + width(cond) as int;
    let cut = m - (start - 1);
    assert(seg.subrange(2, after - 1) =~= toks.subrange(start + 1, a));
    assert(seg[0] == toks[start - 1]);
    assert(seg[1] == toks[start]);
    assert(seg[after - 1] == toks[a]);
    match whole->If_2 {
        None => {
            assert(seg.subrange(after, seg.len() as int) =~= toks.subrange(a + 1, end));
        },
        Some(el) => {
            assert(seg[cut] == toks[m]);
            assert(seg.subrange(after, cut) =~= toks.subrange(a + 1, m));
            assert(seg.subrange(cut + 1, seg.len() as int) =~= toks.subrange(m + 1, end));
        },
    }
    lemma_if_made(whole, seg, cut, crate::lox_parser::after(toks, end));
}

/// A `while` statement, as the parser walks over it, reads as the
/// statement that the parser makes of it.
proof fn lemma_while_reads(toks: Seq<Token>, start: int, a: int, end: int, whole: Stmt)
    requires
        1 <= start,
        start + 1 < a,
        a + 1 < end <= toks.len(),
        toks[start - 1].token == TT::WHILE,
        toks[start].token == TT::OPAREN,
        toks[a].token == TT::CPAREN,
        whole matches Stmt::While(cond, body) && {
            &&& reads(cond, toks.subrange(start + 1, a))
            &&& fits(cond, 8)
            &&& stmt_reads(*body, toks.subrange(a + 1, end), false, after(toks, end))
        },
    ensures
        stmt_reads(whole, toks.subrange(start - 1, end), false, after(toks, end)),
{
    reveal(stmt_reads);
    let seg = toks.subrange(start - 1, end);
    let cond = whole->While_0;
    let after = 3 + width(cond) as int;
    assert(seg.subrange(2, after - 1) =~= toks.subrange(start + 1, a));
    assert(seg[0] == toks[start - 1]);
    assert(seg[1] == toks[start]);
    assert(seg[after - 1] == toks[a]);
    assert(seg.subrange(after, seg.len() as int) =~= toks.subrange(a + 1, end));
}

impl LoxParser {
    /// Whether `want` names the statement that begins `back` tokens
    /// before the cursor.
    pub open spec fn owed(&self, want: Option<(Stmt, int)>, back: int, decl: bool) -> bool {
        stmt_wanted(want, self.scanner().tokens(), self.scanner().taken() - back, decl)
    }

    /// Whether the cursor stands behind the statement that `want` names,
    /// which began `back` tokens before the cursor of `before`.
    pub open spec fn passed(&self, before: &LoxParser, want: Option<(Stmt, int)>, back: int) -> bool {
        self.scanner().taken() == before.scanner().taken() - back + want.unwrap().1
    }

    /// `printStmt := "print" expression ";"`, behind the `print`.
    fn print_stmt(&mut self, Ghost(want): Ghost<Option<(Stmt, int)>>) -> (r: Result<Stmt, String>)
        requires
            old(self).clean(),
        ensures
            final(self).follows(old(self)),
            r is Ok ==> old(self).scanner().taken() < final(self).scanner().taken()
                && final(self).errors() == old(self).errors(),
            old(self).behind(TT::PRINT) ==> (r matches Ok(s) ==> stmt_reads(
                s,
                final(self).scanner().tokens().subrange(
                    old(self).scanner().taken() - 1,
                    final(self).scanner().taken(),
                ),
                false,
                final(self).ahead(),
            )),
            r is Err ==> final(self).errors(),
            old(self).behind(TT::PRINT) && old(self).owed(want, 1, false) ==> r is Ok && final(self).passed(old(self), want, 1),
            final(self).told(old(self), r) == print_model(old(self).rest()),
        decreases old(self).rest().len(), 12nat,
    {
        proof {
            reveal(print_model);
            reveal(semi_model);
        }
        let ghost start = self.scanner().taken();
        let ghost toks = self.scanner().tokens();
        let ghost rest = self.rest();
        proof {
            if self.behind(TT::PRINT) && self.owed(want, 1, false) {
                lemma_form(want, toks, start - 1, false);
                lemma_print_parts(want, toks, start - 1, false);
            }
        }
        proof {
            self.lemma_aligned(rest, start);
        }
        let expr = self.expression(Ghost(expr_of(want)))?;
        let ghost mid = self.scanner().taken();
        proof {
            if mid < toks.len() {
                assert(self.rest()[0] == toks[mid]);
            }
        }
        proof {
            self.lemma_aligned(rest, start);
        }
        self.consume(vec![TT::SEMICOLON], "expect ';' after value")?;
        proof {
            if old(self).behind(TT::PRINT) {
                reveal(stmt_reads);
                let end = self.scanner().taken();
                let seg = toks.subrange(start - 1, end);
                let tail = seg.subrange(1, seg.len() as int);
                assert(tail.subrange(0, tail.len() - 1) =~= toks.subrange(start, mid));
                assert(tail[tail.len() - 1] == toks[mid]);
                assert(seg[0] == toks[start - 1]);
            }
        }
        Ok(Stmt::Print(expr))
    }

    /// `exprStmt := expression ";"`
    fn expr_stmt(&mut self, Ghost(want): Ghost<Option<(Stmt, int)>>) -> (r: Result<Stmt, String>)
        requires
            old(self).clean(),
        ensures
            final(self).follows(old(self)),
            r is Ok ==> old(self).scanner().taken() < final(self).scanner().taken()
                && final(self).errors() == old(self).errors(),
            r matches Ok(s) ==> stmt_reads(
                s,
                final(self).scanner().tokens().subrange(
                    old(self).scanner().taken(),
                    final(self).scanner().taken(),
                ),
                false,
                final(self).ahead(),
            ) && s is Expr,
            r is Err ==> final(self).errors(),
            old(self).owed(want, 0, false) && want.unwrap().0 is Expr ==> r is Ok
                && final(self).passed(old(self), want, 0),
            final(self).told(old(self), r) == plain_model(old(self).rest()),
        decreases old(self).rest().len(), 12nat,
    {
        proof {
            reveal(plain_model);
            reveal(semi_model);
        }
        let ghost start = self.scanner().taken();
        let ghost toks = self.scanner().tokens();
        let ghost rest = self.rest();
        proof {
            if self.owed(want, 0, false) && want.unwrap().0 is Expr {
                lemma_expr_parts(want, toks, start, false);
            }
        }
        proof {
            self.lemma_aligned(rest, start);
        }
        let expr = self.expression(Ghost(expr_of(want)))?;
        let ghost mid = self.scanner().taken();
        proof {
            if mid < toks.len() {
                assert(self.rest()[0] == toks[mid]);
            }
        }
        proof {
            self.lemma_aligned(rest, start);
        }
        self.consume(vec![TT::SEMICOLON], "expect ';' after value")?;
        proof {
            reveal(stmt_reads);
            let end = self.scanner().taken();
            let seg = toks.subrange(start, end);
            assert(seg.subrange(0, seg.len() - 1) =~= toks.subrange(start, mid));
            assert(seg[seg.len() - 1] == toks[mid]);
        }
        Ok(Stmt::Expr(expr))
    }

    /// `block := "{" { declaration } "}"`, behind the opening brace.
    #[verifier::rlimit(100)]
    fn block_stmt(&mut self, Ghost(want): Ghost<Option<(Stmt, int)>>) -> (r: Result<
        Vec<Stmt>,
        String,
    >)
        requires
            old(self).clean(),
        ensures
            final(self).follows(old(self)),
            r is Ok ==> old(self).scanner().taken() < final(self).scanner().taken()
                && final(self).errors() == old(self).errors(),
            old(self).behind(TT::OBRACE) ==> (r matches Ok(items) ==> stmt_reads(
                Stmt::Block(items),
                final(self).scanner().tokens().subrange(
                    old(self).scanner().taken() - 1,
                    final(self).scanner().taken(),
                ),
                false,
                final(self).ahead(),
            )),
            r is Err ==> final(self).errors(),
            old(self).behind(TT::OBRACE) && old(self).owed(want, 1, false) ==> r is Ok && final(self).passed(old(self), want, 1),
            final(self).told_all(old(self), r) == block_model(old(self).rest(), 0, Seq::empty()),
        decreases old(self).rest().len(), 15nat,
    {
        let ghost start = self.scanner().taken();
        let ghost toks = self.scanner().tokens();
        let ghost rest = self.rest();
        let ghost mut cuts: Seq<int> = seq![0int];
        let ghost known = self.behind(TT::OBRACE) && self.owed(want, 1, false);
        let ghost goal = items_of(want);
        let ghost marks = cuts_of(want, toks, start - 1);
        let ghost last = start + want.unwrap().1 - 2;
        proof {
            if known {
                lemma_form(want, toks, start - 1, false);
                lemma_block_parts(want, toks, start - 1, false);
            }
        }
        let mut statements: Vec<Stmt> = Vec::new();
        proof {
            assert(shapes(statements@) =~= Seq::<StmtView>::empty());
            assert(rest =~= toks.subrange(start, toks.len() as int));
        }
        loop
            invariant
                old(self).clean(),
                self.follows(old(self)),
                self.errors() == old(self).errors(),
                start == old(self).scanner().taken(),
                toks == self.scanner().tokens(),
                pieces_read(statements@, toks, start, cuts),
                cuts[statements.len() as int] == self.scanner().taken() - start,
                known == (old(self).behind(TT::OBRACE) && old(self).owed(want, 1, false)),
                rest == toks.subrange(start, toks.len() as int),
                block_model(rest, 0, Seq::empty()) == block_model(
                    rest,
                    self.scanner().taken() - start,
                    shapes(statements@),
                ),
                known ==> {
                    &&& pieces_read(goal, toks, start, marks)
                    &&& start + marks[goal.len() as int] == last
                    &&& start <= last < toks.len()
                    &&& toks[last].token == TT::CBRACE
                    &&& statements.len() <= goal.len()
                    &&& self.scanner().taken() == start + marks[statements.len() as int]
                },
            ensures
                known ==> self.scanner().taken() == last,
                !(self.rest().len() > 0 && self.rest()[0].token.kind() != TT::CBRACE.kind()),
            decreases self.rest().len(),
        {
            proof {
                self.lemma_aligned(rest, start);
                if self.scanner().taken() < toks.len() {
                    assert(self.rest()[0] == toks[self.scanner().taken() as int]);
                }
                if known {
                    lemma_piece_step(goal, toks, start, marks, statements.len() as int);
                    assert(self.rest()[0] == toks[self.scanner().taken() as int]);
                }
            }
            match self.scanner.peek() {
                Some(maybe_cbrace) => {
                    if maybe_cbrace.token.same_kind(&TT::CBRACE) {
                        break ;
                    }
                },
                None => {
                    break ;
                },
            }
            let ghost seen = statements@;
            let ghost at = statements.len() as int;
            let ghost sub = if known {
                Some((goal[at], marks[at + 1] - marks[at]))
            } else {
                None
            };
            proof {
                self.lemma_aligned(rest, start);
            }
            let stmt = self.declaration(Ghost(sub))?;
            proof {
                lemma_piece_added(seen, toks, start, cuts, stmt, self.scanner().taken() - start);
                cuts = cuts.push(self.scanner().taken() - start);
            }
            statements.push(stmt);
            proof {
                assert(shapes(statements@) =~= shapes(seen).push(stmt.shape()));
            }
        }
        let ghost mid = self.scanner().taken();
        proof {
            if mid < toks.len() {
                assert(self.rest()[0] == toks[mid]);
            }
        }
        proof {
            self.lemma_aligned(rest, start);
        }
        self.consume(vec![TT::CBRACE], "expect '}' after value")?;
        proof {
            if old(self).behind(TT::OBRACE) {
                reveal(stmt_reads);
                let end = self.scanner().taken();
                let seg = toks.subrange(start - 1, end);
                let inner = seg.subrange(1, seg.len() - 1);
                assert(inner =~= toks.subrange(start, mid));
                assert(seg[seg.len() - 1] == toks[mid]);
                assert(seg[0] == toks[start - 1]);
                lemma_pieces_cut(statements@, toks, start, mid, cuts);
                assert forall|i: int| 0 <= i < statements.len() implies stmt_reads(
                    #[trigger] statements[i],
                    seg.subrange(1 + cuts[i], 1 + cuts[i + 1]),
                    true,
                    Some(seg[1 + cuts[i + 1]]),
                ) by {
                    assert(seg.subrange(1 + cuts[i], 1 + cuts[i + 1]) =~= inner.subrange(
                        cuts[i],
                        cuts[i + 1],
                    ));
                    assert(seg[1 + cuts[i + 1]] == toks[start + cuts[i + 1]]);
                }
            }
        }
        Ok(statements)
    }

    /// A condition in parentheses: `(`, an expression, `)`. `open` and
    /// `close` are the messages where a parenthesis is missing.
    fn condition(&mut self, Ghost(want): Ghost<Option<Expr>>, open: &str, close: &str) -> (r:
        Result<Expr, String>)
        requires
            old(self).clean(),
        ensures
            final(self).follows(old(self)),
            r is Ok ==> final(self).errors() == old(self).errors(),
            r matches Ok(e) ==> {
                let toks = old(self).scanner().tokens();
                let from = old(self).scanner().taken();
                let to = final(self).scanner().taken();
                &&& from + 2 < to <= toks.len()
                &&& toks[from].token == TT::OPAREN
                &&& toks[to - 1].token == TT::CPAREN
                &&& reads(e, toks.subrange(from + 1, to - 1))
                &&& fits(e, 8)
            },
            r is Err ==> final(self).errors(),
            ({
                let rest = old(self).rest();
                &&& rest.len() > 0
                &&& rest[0].token == TT::OPAREN
                &&& wanted(want, 8, rest.subrange(1, rest.len() as int))
                &&& 1 + width(want.unwrap()) < rest.len()
                &&& rest[1 + width(want.unwrap()) as int].token == TT::CPAREN
            }) ==> r == Ok::<Expr, String>(want.unwrap()),
            final(self).told_expr(old(self), r) == cond_model(old(self).rest(), open@, close@),
        decreases old(self).rest().len(), 14nat,
    {
        proof {
            reveal(cond_model);
        }
        let ghost start = self.scanner().taken();
        let ghost toks = self.scanner().tokens();
        let ghost rest = self.rest();
        proof {
            self.lemma_aligned(rest, start);
        }
        self.consume(vec![TT::OPAREN], open)?;
        proof {
            self.lemma_aligned(rest, start);
            assert(rest[0] == toks[start]);
        }
        let e = self.expression(Ghost(want))?;
        let ghost a = self.scanner().taken();
        proof {
            self.lemma_aligned(rest, start);
            if a < toks.len() {
                assert(rest[a - start] == toks[a]);
            }
            assert(toks.subrange(start + 1, a).len() == width(e));
        }
        self.consume(vec![TT::CPAREN], close)?;
        Ok(e)
    }

    /// What stands behind the first statement of an `if` statement: `else`
    /// and a statement, or nothing.
    fn otherwise(&mut self, Ghost(want): Ghost<Option<(Stmt, int)>>) -> (r: Result<
        Option<Stmt>,
        String,
    >)
        requires
            old(self).clean(),
        ensures
            final(self).follows(old(self)),
            r is Ok ==> final(self).errors() == old(self).errors(),
            r matches Ok(other) ==> match other {
                None => final(self).scanner().taken() == old(self).scanner().taken() && !is_else(
                    old(self).ahead(),
                ),
                Some(el) => {
                    &&& old(self).scanner().taken() + 1 < final(self).scanner().taken()
                    &&& is_else(old(self).ahead())
                    &&& stmt_reads(
                        el,
                        final(self).scanner().tokens().subrange(
                            old(self).scanner().taken() + 1,
                            final(self).scanner().taken(),
                        ),
                        false,
                        final(self).ahead(),
                    )
                },
            },
            r is Err ==> final(self).errors(),
            !is_else(old(self).ahead()) ==> r is Ok,
            stmt_wanted(
                want,
                old(self).scanner().tokens(),
                old(self).scanner().taken() + 1,
                false,
            ) ==> r is Ok && (is_else(old(self).ahead()) ==> final(self).scanner().taken() == old(
                self,
            ).scanner().taken() + 1 + want.unwrap().1),
            final(self).told_init(old(self), r) == else_model(old(self).rest()),
        decreases old(self).rest().len(), 14nat,
    {
        let ghost start = self.scanner().taken();
        let ghost rest = self.rest();
        proof {
            self.lemma_aligned(rest, start);
            if start < self.scanner().tokens().len() {
                assert(self.rest()[0] == self.scanner().tokens()[start]);
            }
        }
        if self.accept(vec![TT::ELSE]) {
            self.scanner.ignore();
            proof {
                self.lemma_aligned(rest, start);
            }
            let other = self.statement(Ghost(want))?;
            return Ok(Some(other));
        }
        Ok(None)
    }

    /// `ifStmt := "if" "(" expression ")" statement [ "else" statement ]`,
    /// behind the `if`.
    #[verifier::rlimit(100)]
    fn if_stmt(&mut self, Ghost(want): Ghost<Option<(Stmt, int)>>) -> (r: Result<Stmt, String>)
        requires
            old(self).clean(),
        ensures
            final(self).follows(old(self)),
            r is Ok ==> old(self).scanner().taken() < final(self).scanner().taken()
                && final(self).errors() == old(self).errors(),
            old(self).behind(TT::IF) ==> (r matches Ok(s) ==> stmt_reads(
                s,
                final(self).scanner().tokens().subrange(
                    old(self).scanner().taken() - 1,
                    final(self).scanner().taken(),
                ),
                false,
                final(self).ahead(),
            )),
            r is Err ==> final(self).errors(),
            old(self).behind(TT::IF) && old(self).owed(want, 1, false) ==> r is Ok && final(self).passed(old(self), want, 1),
            final(self).told(old(self), r) == if_model(old(self).rest()),
        decreases old(self).rest().len(), 15nat,
    {
        let ghost start = self.scanner().taken();
        let ghost toks = self.scanner().tokens();
        let ghost rest = self.rest();
        let ghost known = self.behind(TT::IF) && self.owed(want, 1, false);
        proof {
            self.lemma_aligned(rest, start);
            if known {
                lemma_form(want, toks, start - 1, false);
                lemma_if_parts(want, toks, start - 1, false);
                assert(rest.subrange(1, rest.len() as int) =~= toks.subrange(
                    start + 1,
                    toks.len() as int,
                ));
                assert(rest[1 + width_of(want)] == toks[start + 1 + width_of(want)]);
            }
        }
        let condition = self.condition(
            Ghost(expr_of(want)),
            "expect '(' after 'if'",
            "expect ')' after 'if' condition",
        )?;
        let ghost a = self.scanner().taken() - 1;
        proof {
            self.lemma_aligned(rest, start);
        }
        let then_branch = self.statement(Ghost(then_want(want, toks, start - 1)))?;
        let ghost m = self.scanner().taken();
        proof {
            self.lemma_aligned(rest, start);
        }
        let other = self.otherwise(Ghost(else_want(want, toks, start - 1)))?;
        let whole = match other {
            Some(el) => Stmt::If(condition, Box::new(then_branch), Some(Box::new(el))),
            None => Stmt::If(condition, Box::new(then_branch), None),
        };
        proof {
            if old(self).behind(TT::IF) {
                lemma_if_reads(toks, start, a, m, self.scanner().taken(), whole);
            }
        }
        Ok(whole)
    }

    /// `whileStmt := "while" "(" expression ")" statement`, behind the
    /// `while`.
    #[verifier::rlimit(100)]
    fn while_stmt(&mut self, Ghost(want): Ghost<Option<(Stmt, int)>>) -> (r: Result<Stmt, String>)
        requires
            old(self).clean(),
        ensures
            final(self).follows(old(self)),
            r is Ok ==> old(self).scanner().taken() < final(self).scanner().taken()
                && final(self).errors() == old(self).errors(),
            old(self).behind(TT::WHILE) ==> (r matches Ok(s) ==> stmt_reads(
                s,
                final(self).scanner().tokens().subrange(
                    old(self).scanner().taken() - 1,
                    final(self).scanner().taken(),
                ),
                false,
                final(self).ahead(),
            )),
            r is Err ==> final(self).errors(),
            old(self).behind(TT::WHILE) && old(self).owed(want, 1, false) ==> r is Ok && final(self).passed(old(self), want, 1),
            final(self).told(old(self), r) == while_model(old(self).rest()),
        decreases old(self).rest().len(), 15nat,
    {
        let ghost start = self.scanner().taken();
        let ghost toks = self.scanner().tokens();
        let ghost rest = self.rest();
        proof {
            self.lemma_aligned(rest, start);
            if self.behind(TT::WHILE) && self.owed(want, 1, false) {
                lemma_form(want, toks, start - 1, false);
                lemma_while_parts(want, toks, start - 1, false);
                assert(rest.subrange(1, rest.len() as int) =~= toks.subrange(
                    start + 1,
                    toks.len() as int,
                ));
                assert(rest[1 + width_of(want)] == toks[start + 1 + width_of(want)]);
            }
        }
        let condition = self.condition(
            Ghost(expr_of(want)),
            "expect '(' after 'while'",
            "expect ')' after 'if' condition",
        )?;
        let ghost a = self.scanner().taken() - 1;
        proof {
            self.lemma_aligned(rest, start);
        }
        let body = self.statement(Ghost(then_want(want, toks, start - 1)))?;
        let whole = Stmt::While(condition, Box::new(body));
        proof {
            if old(self).behind(TT::WHILE) {
                lemma_while_reads(toks, start, a, self.scanner().taken(), whole);
            }
        }
        Ok(whole)
    }

    /// Whether a token is left and is not of the kind of `stop`.
    fn more_before(&self, stop: &TT) -> (r: bool)
        ensures
            self.scanner().valid(),
            r == (self.rest().len() > 0 && self.rest()[0].token.kind() != stop.kind()),
    {
        match self.scanner.peek() {
            Some(t) => !t.token.same_kind(stop),
            None => false,
        }
    }

    /// The initializer of a `for` loop: a semicolon, a variable
    /// declaration, or an expression statement.
    fn for_init(&mut self, Ghost(want): Ghost<Option<(Stmt, int)>>) -> (r: Result<
        Option<Stmt>,
        String,
    >)
        requires
            old(self).clean(),
        ensures
            final(self).follows(old(self)),
            r is Ok ==> old(self).scanner().taken() < final(self).scanner().taken()
                && final(self).errors() == old(self).errors(),
            r matches Ok(init) ==> match init {
                None => final(self).scanner().taken() == old(self).scanner().taken() + 1
                    && old(self).scanner().tokens()[old(self).scanner().taken()].token
                    == TT::SEMICOLON,
                Some(s) => old(self).scanner().tokens()[old(self).scanner().taken()].token
                    != TT::SEMICOLON && if old(self).scanner().tokens()[old(
                    self,
                ).scanner().taken()].token == TT::VAR {
                    s is Var && stmt_reads(s, final(self).took(old(self)), true, final(self).ahead())
                } else {
                    s is Expr && stmt_reads(
                        s,
                        final(self).took(old(self)),
                        false,
                        final(self).ahead(),
                    )
                },
            },
            r is Err ==> final(self).errors(),
            old(self).rest().len() > 0 && old(self).rest()[0].token == TT::SEMICOLON ==> r is Ok,
            old(self).owed(want, 0, true) && (want.unwrap().0 is Var || want.unwrap().0 is Expr)
                ==> r is Ok && final(self).passed(old(self), want, 0),
            final(self).told_init(old(self), r) == init_model(old(self).rest()),
        decreases old(self).rest().len(), 16nat,
    {
        proof {
            reveal(init_model);
        }
        let ghost start = self.scanner().taken();
        let ghost rest = self.rest();
        proof {
            let toks = self.scanner().tokens();
            let start = self.scanner().taken();
            if start < toks.len() {
                assert(self.rest()[0] == toks[start]);
            }
            if self.owed(want, 0, true) && !(want.unwrap().0 is Var) {
                lemma_decl_stmt(
                    want.unwrap().0,
                    toks.subrange(start, start + want.unwrap().1),
                    after(toks, start + want.unwrap().1),
                );
            }
            if self.owed(want, 0, true) {
                lemma_form(want, toks, start, true);
            }
        }
        proof {
            self.lemma_aligned(rest, start);
        }
        if self.accept(vec![TT::SEMICOLON]) {
            self.scanner.ignore();
            Ok(None)
        } else if self.accept(vec![TT::VAR]) {
            self.scanner.ignore();
            proof {
                self.lemma_aligned(rest, start);
            }
            Ok(Some(self.var_declaration(Ghost(want))?))
        } else {
            proof {
                self.lemma_aligned(rest, start);
            }
            Ok(Some(self.expr_stmt(Ghost(want))?))
        }
    }

    /// The condition of a `for` loop, `true` where none is written, and the
    /// semicolon behind it.
    fn for_cond(&mut self, Ghost(want): Ghost<Option<Expr>>) -> (r: Result<Expr, String>)
        requires
            old(self).clean(),
        ensures
            final(self).follows(old(self)),
            r is Ok ==> old(self).scanner().taken() < final(self).scanner().taken()
                && final(self).errors() == old(self).errors(),
            r matches Ok(cond) ==> {
                let toks = old(self).scanner().tokens();
                let from = old(self).scanner().taken();
                let to = final(self).scanner().taken() - 1;
                &&& toks[to].token == TT::SEMICOLON
                &&& if toks[from].token.kind() != TT::SEMICOLON.kind() {
                    from < to && reads(cond, toks.subrange(from, to)) && fits(cond, 8)
                } else {
                    from == to && cond == Expr::Bool(true)
                }
            },
            r is Err ==> final(self).errors(),
            old(self).rest().len() > 0 && old(self).rest()[0].token == TT::SEMICOLON ==> r is Ok,
            wanted(want, 8, old(self).rest()) && width(want.unwrap()) < old(self).rest().len()
                && old(self).rest()[width(want.unwrap()) as int].token == TT::SEMICOLON ==> r
                == Ok::<Expr, String>(want.unwrap()),
            final(self).told_expr(old(self), r) == until_model(old(self).rest()),
        decreases old(self).rest().len(), 16nat,
    {
        proof {
            reveal(until_model);
            reveal(semi_model);
        }
        let ghost toks = self.scanner().tokens();
        let ghost from = self.scanner().taken();
        let ghost start = from;
        let ghost rest = self.rest();
        proof {
            if from < toks.len() {
                assert(self.rest()[0] == toks[from]);
            }
            if wanted(want, 8, self.rest()) && width(want.unwrap()) < self.rest().len() {
                let e = want.unwrap();
                let head = self.rest().subrange(0, width(e) as int);
                lemma_expr_first(e, 8, head);
                assert(head[0] == self.rest()[0]);
                assert(self.rest()[width(e) as int] == toks[from + width(e)]);
            }
        }
        proof {
            self.lemma_aligned(rest, start);
        }
        let condition = if self.more_before(&TT::SEMICOLON) {
            proof {
                self.lemma_aligned(rest, start);
            }
            self.expression(Ghost(want))?
        } else {
            Expr::Bool(true)
        };
        let ghost to = self.scanner().taken();
        proof {
            if to < toks.len() {
                assert(self.rest()[0] == toks[to]);
            }
        }
        proof {
            self.lemma_aligned(rest, start);
        }
        self.consume(vec![TT::SEMICOLON], "expect ';' loop condition")?;
        Ok(condition)
    }

    /// The increment of a `for` loop, if one is written, and the closing
    /// parenthesis behind it.
    fn for_inc(&mut self, Ghost(want): Ghost<Option<Expr>>) -> (r: Result<Option<Expr>, String>)
        requires
            old(self).clean(),
        ensures
            final(self).follows(old(self)),
            r is Ok ==> old(self).scanner().taken() < final(self).scanner().taken()
                && final(self).errors() == old(self).errors(),
            r matches Ok(inc) ==> {
                let toks = old(self).scanner().tokens();
                let from = old(self).scanner().taken();
                let to = final(self).scanner().taken() - 1;
                &&& toks[to].token == TT::CPAREN
                &&& match inc {
                    Some(i) => toks[from].token.kind() != TT::CPAREN.kind() && reads(
                        i,
                        toks.subrange(from, to),
                    ) && fits(i, 8),
                    None => from == to,
                }
            },
            r is Err ==> final(self).errors(),
            old(self).rest().len() > 0 && old(self).rest()[0].token == TT::CPAREN ==> r is Ok,
            wanted(want, 8, old(self).rest()) && width(want.unwrap()) < old(self).rest().len()
                && old(self).rest()[width(want.unwrap()) as int].token == TT::CPAREN ==> r
                == Ok::<Option<Expr>, String>(want),
            final(self).told_step(old(self), r) == step_model(old(self).rest()),
        decreases old(self).rest().len(), 16nat,
    {
        proof {
            reveal(step_model);
        }
        let ghost toks = self.scanner().tokens();
        let ghost from = self.scanner().taken();
        let ghost start = from;
        let ghost rest = self.rest();
        proof {
            if from < toks.len() {
                assert(self.rest()[0] == toks[from]);
            }
            if wanted(want, 8, self.rest()) && width(want.unwrap()) < self.rest().len() {
                let e = want.unwrap();
                let head = self.rest().subrange(0, width(e) as int);
                lemma_expr_first(e, 8, head);
                assert(head[0] == self.rest()[0]);
                assert(self.rest()[width(e) as int] == toks[from + width(e)]);
            }
        }
        proof {
            self.lemma_aligned(rest, start);
        }
        let increment = if self.more_before(&TT::CPAREN) {
            Some(self.expression(Ghost(want))?)
        } else {
            None
        };
        let ghost to = self.scanner().taken();
        proof {
            if to < toks.len() {
                assert(self.rest()[0] == toks[to]);
            }
        }
        proof {
            self.lemma_aligned(rest, start);
        }
        self.consume(vec![TT::CPAREN], "expect ')' after 'for' clause")?;
        Ok(increment)
    }

    /// The head of a `for` loop behind the `for`: `(`, the initializer, the
    /// condition and the increment, and `)`; and where the condition and
    /// the semicolon behind it stand.
    #[verifier::rlimit(100)]
    fn for_clauses(&mut self, Ghost(want): Ghost<Option<(Stmt, int)>>) -> (r: Result<
        (Option<Stmt>, Expr, Option<Expr>, Ghost<(int, int)>),
        String,
    >)
        requires
            old(self).clean(),
        ensures
            final(self).follows(old(self)),
            r is Ok ==> old(self).scanner().taken() < final(self).scanner().taken()
                && final(self).errors() == old(self).errors(),
            old(self).behind(TT::FOR) ==> (r matches Ok(head) ==> head_walked(
                old(self).scanner().tokens(),
                old(self).scanner().taken(),
                head.3@.0,
                head.3@.1,
                final(self).scanner().taken() - 1,
                head.0,
                head.1,
                head.2,
            )),
            r is Err ==> final(self).errors(),
            old(self).behind(TT::FOR) && old(self).owed(want, 1, false) ==> r is Ok && final(self).scanner().taken()
                == loop_parts(
                want,
                old(self).scanner().tokens(),
                old(self).scanner().taken() - 1,
            ).d + 1,
            final(self).told_head(old(self), r) == head_model(old(self).rest()),
        decreases old(self).rest().len(), 17nat,
    {
        proof {
            reveal(head_model);
        }
        let ghost start = self.scanner().taken();
        let ghost toks = self.scanner().tokens();
        let ghost rest = self.rest();
        let ghost known = self.behind(TT::FOR) && self.owed(want, 1, false);
        let ghost parts = loop_parts(want, toks, start - 1);
        proof {
            if known {
                lemma_for_parts(want, toks, start - 1, false);
            }
            if start < toks.len() {
                assert(self.rest()[0] == toks[start]);
            }
        }
        proof {
            self.lemma_aligned(rest, start);
        }
        self.consume(vec![TT::OPAREN], "expect '(' after 'for'")?;
        proof {
            if start + 1 < toks.len() {
                assert(self.rest()[0] == toks[start + 1]);
            }
        }
        proof {
            self.lemma_aligned(rest, start);
        }
        let init = self.for_init(Ghost(parts.init))?;
        let ghost pb = self.scanner().taken();
        proof {
            if known {
                assert(pb == parts.b);
                assert(self.rest()[0] == toks[pb]);
                if parts.cond is Some {
                    assert(self.rest()[width(parts.cond.unwrap()) as int] == toks[parts.c]);
                }
            }
        }
        proof {
            self.lemma_aligned(rest, start);
        }
        let condition = self.for_cond(Ghost(parts.cond))?;
        let ghost pc = self.scanner().taken() - 1;
        proof {
            if known {
                assert(pc == parts.c);
                assert(self.rest()[0] == toks[pc + 1]);
                if parts.inc is Some {
                    assert(self.rest()[width(parts.inc.unwrap()) as int] == toks[parts.d]);
                }
            }
        }
        proof {
            self.lemma_aligned(rest, start);
        }
        let increment = self.for_inc(Ghost(parts.inc))?;
        Ok((init, condition, increment, Ghost((pb, pc))))
    }

    /// `forStmt := "for" "(" ( varDecl | exprStmt | ";" ) [ expression ] ";"
    /// [ expression ] ")" statement`, behind the `for`. The loop is written
    /// as a `while` loop: the increment follows the body in a block, the
    /// initializer goes before the loop in a block around it, and a missing
    /// condition is `true`.
    fn for_stmt(&mut self, Ghost(want): Ghost<Option<(Stmt, int)>>) -> (r: Result<Stmt, String>)
        requires
            old(self).clean(),
        ensures
            final(self).follows(old(self)),
            r is Ok ==> old(self).scanner().taken() < final(self).scanner().taken()
                && final(self).errors() == old(self).errors(),
            old(self).behind(TT::FOR) ==> (r matches Ok(s) ==> stmt_reads(
                s,
                final(self).scanner().tokens().subrange(
                    old(self).scanner().taken() - 1,
                    final(self).scanner().taken(),
                ),
                false,
                final(self).ahead(),
            )),
            r is Err ==> final(self).errors(),
            old(self).behind(TT::FOR) && old(self).owed(want, 1, false) ==> r is Ok && final(self).passed(old(self), want, 1),
            final(self).told(old(self), r) == for_model(old(self).rest()),
        decreases old(self).rest().len(), 18nat,
    {
        let ghost start = self.scanner().taken();
        let ghost toks = self.scanner().tokens();
        let ghost rest = self.rest();
        let ghost parts = loop_parts(want, toks, start - 1);
        proof {
            if self.behind(TT::FOR) && self.owed(want, 1, false) {
                lemma_for_parts(want, toks, start - 1, false);
            }
        }
        proof {
            self.lemma_aligned(rest, start);
        }
        let (init, condition, increment, Ghost(at)) = self.for_clauses(Ghost(want))?;
        let ghost pd = self.scanner().taken() - 1;
        proof {
            self.lemma_aligned(rest, start);
        }
        let body = self.statement(Ghost(parts.body))?;
        let ghost end = self.scanner().taken();
        let ghost seg = toks.subrange(start - 1, end);
        let ghost d = pd - (start - 1);
        let ghost ginit = init;
        let ghost ginc = increment;
        let ghost gbody = body;
        proof {
            if old(self).behind(TT::FOR) {
                lemma_for_head(toks, start, at.0, at.1, pd, end, init, condition, increment);
            }
        }
        let inner = match increment {
            Some(inc) => {
                let mut both: Vec<Stmt> = Vec::new();
                both.push(body);
                both.push(Stmt::Expr(inc));
                proof {
                    assert(both[0] == body);
                    assert(both[1] == Stmt::Expr(inc));
                    lemma_block_shape(both);
                    assert(shapes(both@) =~= seq![body.shape(), StmtView::Expr(inc)]);
                }
                Stmt::Block(both)
            },
            None => body,
        };
        let ghost ginner = inner;
        let whole = Stmt::While(condition, Box::new(inner));
        let r = match init {
            Some(init) => {
                let mut both: Vec<Stmt> = Vec::new();
                both.push(init);
                both.push(whole);
                proof {
                    assert(both[0] == init);
                    assert(both[1] == whole);
                    lemma_block_shape(both);
                    assert(shapes(both@) =~= seq![init.shape(), whole.shape()]);
                }
                Stmt::Block(both)
            },
            None => whole,
        };
        proof {
            if old(self).behind(TT::FOR) {
                assert(seg.subrange(d + 1, seg.len() as int) =~= toks.subrange(pd + 1, end));
                assert(seg[0] == toks[start - 1]);
                lemma_for_whole(ginit, condition, ginc, gbody, ginner, r, seg, d + 1, self.ahead());
            }
        }
        Ok(r)
    }

    /// `statement := exprStmt | forStmt | ifStmt | printStmt | whileStmt | block`
    fn statement(&mut self, Ghost(want): Ghost<Option<(Stmt, int)>>) -> (r: Result<Stmt, String>)
        requires
            old(self).clean(),
        ensures
            final(self).follows(old(self)),
            r is Ok ==> old(self).scanner().taken() < final(self).scanner().taken()
                && final(self).errors() == old(self).errors(),
            r matches Ok(s) ==> stmt_reads(
                s,
                final(self).scanner().tokens().subrange(
                    old(self).scanner().taken(),
                    final(self).scanner().taken(),
                ),
                false,
                final(self).ahead(),
            ),
            r is Err ==> final(self).errors(),
            old(self).owed(want, 0, false) ==> r is Ok && final(self).passed(old(self), want, 0),
            final(self).told(old(self), r) == stated(false, old(self).rest()),
        decreases old(self).rest().len(), 13nat,
    {
        let ghost start = self.scanner().taken();
        let ghost rest = self.rest();
        proof {
            let toks = self.scanner().tokens();
            let start = self.scanner().taken();
            if start < toks.len() {
                assert(self.rest()[0] == toks[start]);
            }
            if self.owed(want, 0, false) {
                lemma_form(want, toks, start, false);
            }
        }
        proof {
            self.lemma_aligned(rest, start);
        }
        if self.accept(vec![TT::PRINT]) {
            self.scanner.ignore();
            proof {
                self.lemma_aligned(rest, start);
            }
            return self.print_stmt(Ghost(want));
        }
        proof {
            self.lemma_aligned(rest, start);
        }
        if self.accept(vec![TT::OBRACE]) {
            self.scanner.ignore();
            proof {
                self.lemma_aligned(rest, start);
            }
            let items = self.block_stmt(Ghost(want))?;
            proof {
                lemma_block_shape(items);
            }
            return Ok(Stmt::Block(items));
        }
        proof {
            self.lemma_aligned(rest, start);
        }
        if self.accept(vec![TT::IF]) {
            self.scanner.ignore();
            proof {
                self.lemma_aligned(rest, start);
            }
            return self.if_stmt(Ghost(want));
        }
        proof {
            self.lemma_aligned(rest, start);
        }
        if self.accept(vec![TT::WHILE]) {
            self.scanner.ignore();
            proof {
                self.lemma_aligned(rest, start);
            }
            return self.while_stmt(Ghost(want));
        }
        proof {
            self.lemma_aligned(rest, start);
        }
        if self.accept(vec![TT::FOR]) {
            self.scanner.ignore();
            proof {
                self.lemma_aligned(rest, start);
            }
            return self.for_stmt(Ghost(want));
        }
        proof {
            self.lemma_aligned(rest, start);
        }
        self.expr_stmt(Ghost(want))
    }

    /// `varDecl := "var" IDENTIFIER [ "=" expression ] ";"`, behind the
    /// `var`. A variable without an initializer is `nil`.
    #[verifier::rlimit(100)]
    fn var_declaration(&mut self, Ghost(want): Ghost<Option<(Stmt, int)>>) -> (r: Result<
        Stmt,
        String,
    >)
        requires
            old(self).clean(),
        ensures
            final(self).follows(old(self)),
            r is Ok ==> old(self).scanner().taken() < final(self).scanner().taken()
                && final(self).errors() == old(self).errors(),
            r matches Ok(s) ==> s is Var,
            old(self).behind(TT::VAR) ==> (r matches Ok(s) ==> stmt_reads(
                s,
                final(self).scanner().tokens().subrange(
                    old(self).scanner().taken() - 1,
                    final(self).scanner().taken(),
                ),
                true,
                final(self).ahead(),
            )),
            r is Err ==> final(self).errors(),
            old(self).behind(TT::VAR) && old(self).owed(want, 1, true) ==> r is Ok && final(self).passed(old(self), want, 1),
            final(self).told(old(self), r) == var_model(old(self).rest()),
        decreases old(self).rest().len(), 15nat,
    {
        proof {
            reveal(var_model);
            reveal(semi_model);
        }
        let ghost start = self.scanner().taken();
        let ghost toks = self.scanner().tokens();
        let ghost rest = self.rest();
        let ghost known = self.behind(TT::VAR) && self.owed(want, 1, true);
        proof {
            if start < toks.len() {
                assert(self.rest()[0] == toks[start]);
            }
            if known {
                lemma_form(want, toks, start - 1, true);
                lemma_var_parts(want, toks, start - 1, true);
            }
        }
        proof {
            self.lemma_aligned(rest, start);
        }
        if !self.accept(vec![TT::Id(String::new())]) {
            let bad_token = self.scanner.peek();
            return Err(self.error(bad_token, "expect variable name"));
        }
        let name = self.take().lexeme;
        proof {
            if start + 1 < toks.len() {
                assert(self.rest()[0] == toks[start + 1]);
            }
        }
        let mut init = Expr::Nil;
        proof {
            self.lemma_aligned(rest, start);
        }
        let assigned = self.accept(vec![TT::ASSIGN]);
        if assigned {
            self.scanner.ignore();
            proof {
                self.lemma_aligned(rest, start);
            }
            init = self.expression(Ghost(expr_of(want)))?;
        }
        let ghost mid = self.scanner().taken();
        proof {
            if mid < toks.len() {
                assert(self.rest()[0] == toks[mid]);
            }
        }
        proof {
            self.lemma_aligned(rest, start);
        }
        self.consume(vec![TT::SEMICOLON], "expect ';' after variable decl")?;
        proof {
            if old(self).behind(TT::VAR) {
                reveal(stmt_reads);
                let end = self.scanner().taken();
                let seg = toks.subrange(start - 1, end);
                let tail = seg.subrange(1, seg.len() as int);
                assert(seg[0] == toks[start - 1]);
                assert(tail[0] == toks[start]);
                assert(tail[1] == toks[start + 1]);
                if assigned {
                    let rest = tail.subrange(2, tail.len() as int);
                    assert(rest.subrange(0, rest.len() - 1) =~= toks.subrange(start + 2, mid));
                    assert(rest[rest.len() - 1] == toks[mid]);
                }
            }
        }
        Ok(Stmt::Var(name, init))
    }

    /// `declaration := varDecl | statement`
    fn declaration(&mut self, Ghost(want): Ghost<Option<(Stmt, int)>>) -> (r: Result<Stmt, String>)
        requires
            old(self).clean(),
        ensures
            final(self).follows(old(self)),
            r is Ok ==> old(self).scanner().taken() < final(self).scanner().taken()
                && final(self).errors() == old(self).errors(),
            r matches Ok(s) ==> stmt_reads(
                s,
                final(self).scanner().tokens().subrange(
                    old(self).scanner().taken(),
                    final(self).scanner().taken(),
                ),
                true,
                final(self).ahead(),
            ),
            r is Err ==> final(self).errors(),
            old(self).owed(want, 0, true) ==> r is Ok && final(self).passed(old(self), want, 0),
            final(self).told(old(self), r) == stated(true, old(self).rest()),
        decreases old(self).rest().len(), 14nat,
    {
        let ghost start = self.scanner().taken();
        let ghost rest = self.rest();
        proof {
            let toks = self.scanner().tokens();
            let start = self.scanner().taken();
            if start < toks.len() {
                assert(self.rest()[0] == toks[start]);
            }
            if self.owed(want, 0, true) {
                lemma_form(want, toks, start, true);
                if !(want.unwrap().0 is Var) {
                    lemma_decl_stmt(
                        want.unwrap().0,
                        toks.subrange(start, start + want.unwrap().1),
                        after(toks, start + want.unwrap().1),
                    );
                }
            }
        }
        proof {
            self.lemma_aligned(rest, start);
        }
        if self.accept(vec![TT::VAR]) {
            self.scanner.ignore();
            proof {
                self.lemma_aligned(rest, start);
            }
            return self.var_declaration(Ghost(want));
        }
        proof {
            self.lemma_aligned(rest, start);
        }
        let r = self.statement(Ghost(want));
        let ghost seen = r;
        proof {
            if let Ok(s) = seen {
                lemma_stmt_is_decl(
                    s,
                    self.scanner().tokens().subrange(
                        old(self).scanner().taken(),
                        self.scanner().taken(),
                    ),
                    self.ahead(),
                );
            }
        }
        r
    }

    /// Parses declarations until the tokens are used up or one fails.
    /// Tokens that were pending in the scanner are forgotten first. The
    /// parser succeeds if and only if the tokens from the cursor on are a
    /// program of the grammar. The statements that come back are then
    /// written with exactly these tokens, and they are the only ones that
    /// are. Where the tokens are no program, the error is the message of
    /// the first failure, and the cursor stays where the failure was met:
    /// `program_model` tells both.
    #[verifier::rlimit(100)]
    pub fn parse(&mut self) -> (r: Result<Vec<Stmt>, String>)
        ensures
            final(self).scanner().tokens() == old(self).scanner().tokens(),
            final(self).clean(),
            old(self).scanner().taken() <= final(self).scanner().taken(),
            old(self).errors() ==> final(self).errors(),
            r is Ok <==> exists|items: Seq<Stmt>| program_reads(items, old(self).rest()),
            forall|items: Seq<Stmt>| #[trigger]
                program_reads(items, old(self).rest()) ==> (r matches Ok(got) && shapes(got@)
                    == shapes(items)),
            r matches Ok(items) ==> final(self).rest().len() == 0 && final(self).errors() == old(
                self,
            ).errors() && program_reads(items@, old(self).rest()),
            r is Err ==> final(self).errors(),
            old(self).rest().len() == 0 ==> (r matches Ok(items) && items.len() == 0),
            final(self).told_all(old(self), r) == program_model(
                old(self).rest(),
                0,
                Seq::empty(),
            ),
    {
        self.scanner.ignore();
        let ghost start = self.scanner().taken();
        let ghost toks = self.scanner().tokens();
        let ghost rest = self.rest();
        let ghost mut cuts: Seq<int> = seq![0int];
        let ghost known = exists|items: Seq<Stmt>| program_reads(items, old(self).rest());
        let ghost goal = program_of(toks, start);
        let ghost marks = program_cuts(goal, toks.subrange(start, toks.len() as int));
        proof {
            if known {
                lemma_program_pieces(goal, toks, start);
            }
        }
        let mut statements: Vec<Stmt> = Vec::new();
        proof {
            assert(shapes(statements@) =~= Seq::<StmtView>::empty());
            assert(rest =~= toks.subrange(start, toks.len() as int));
        }
        loop
            invariant
                self.scanner().tokens() == old(self).scanner().tokens(),
                self.clean(),
                old(self).scanner().taken() <= self.scanner().taken(),
                self.errors() == old(self).errors(),
                start == old(self).scanner().taken(),
                toks == self.scanner().tokens(),
                old(self).scanner().valid(),
                old(self).rest().len() == 0 ==> statements.len() == 0 && self.rest().len() == 0,
                pieces_read(statements@, toks, start, cuts),
                cuts[statements.len() as int] == self.scanner().taken() - start,
                known == exists|items: Seq<Stmt>| program_reads(items, old(self).rest()),
                rest == old(self).rest(),
                rest == toks.subrange(start, toks.len() as int),
                program_model(rest, 0, Seq::empty()) == program_model(
                    rest,
                    self.scanner().taken() - start,
                    shapes(statements@),
                ),
                known ==> {
                    &&& pieces_read(goal, toks, start, marks)
                    &&& start + marks[goal.len() as int] == toks.len()
                    &&& statements.len() <= goal.len()
                    &&& self.scanner().taken() == start + marks[statements.len() as int]
                },
            ensures
                self.rest().len() == 0,
            decreases self.rest().len(),
        {
            proof {
                self.lemma_aligned(rest, start);
                if known {
                    lemma_piece_step(goal, toks, start, marks, statements.len() as int);
                }
            }
            if self.scanner.peek().is_none() {
                break ;
            }
            let ghost seen = statements@;
            let ghost at = statements.len() as int;
            let ghost sub = if known {
                Some((goal[at], marks[at + 1] - marks[at]))
            } else {
                None
            };
            let stmt = self.declaration(Ghost(sub))?;
            proof {
                lemma_piece_added(seen, toks, start, cuts, stmt, self.scanner().taken() - start);
                cuts = cuts.push(self.scanner().taken() - start);
            }
            statements.push(stmt);
            proof {
                assert(shapes(statements@) =~= shapes(seen).push(stmt.shape()));
            }
        }
        proof {
            lemma_pieces_cut(statements@, toks, start, toks.len() as int, cuts);
            let rest = old(self).rest();
            assert forall|i: int| 0 <= i < statements.len() implies stmt_reads(
                #[trigger] statements@[i],
                rest.subrange(cuts[i], cuts[i + 1]),
                true,
                after(rest, cuts[i + 1]),
            ) by {
                assert(after(rest, cuts[i + 1]) == after(toks, start + cuts[i + 1]));
            }
            assert(program_reads(statements@, rest));
            assert forall|items: Seq<Stmt>| #[trigger]
                program_reads(items, rest) implies shapes(statements@) == shapes(items) by {
                law_one_program(statements@, items, rest);
            }
        }
        Ok(statements)
    }
}

} // verus!
