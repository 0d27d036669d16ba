//! The tokens of the Lox language, and the scanner that reads them from
//! source text.
use crate::pattern::chars_of;
use crate::scanner::Scanner;
use vstd::prelude::*;
use vstd::string::*;

verus! {

/// The kinds of Lox tokens. An identifier and a string carry their text, a
/// number carries its digits as they were written.
#[allow(non_camel_case_types)]
#[derive(Debug, PartialEq)]
pub enum TT {
    OPAREN,
    CPAREN,
    OBRACE,
    CBRACE,
    MINUS,
    PLUS,
    SEMICOLON,
    SLASH,
    STAR,
    BANG,
    NE,
    ASSIGN,
    EQ,
    GT,
    GE,
    LT,
    LE,
    DOLLAR,
    Id(String),
    Str(String),
    Num(String),
    AND,
    ELSE,
    FALSE,
    FOR,
    IF,
    NIL,
    OR,
    PRINT,
    TRUE,
    VAR,
    WHILE,
}

impl TT {
    /// A number for the kind, the same for all identifiers, for all
    /// strings and for all numbers.
    pub open spec fn kind(&self) -> nat {
        match self {
            TT::OPAREN => 0,
            TT::CPAREN => 1,
            TT::OBRACE => 2,
            TT::CBRACE => 3,
            TT::MINUS => 4,
            TT::PLUS => 5,
            TT::SEMICOLON => 6,
            TT::SLASH => 7,
            TT::STAR => 8,
            TT::BANG => 9,
            TT::NE => 10,
            TT::ASSIGN => 11,
            TT::EQ => 12,
            TT::GT => 13,
            TT::GE => 14,
            TT::LT => 15,
            TT::LE => 16,
            TT::DOLLAR => 17,
            TT::Id(_) => 18,
            TT::Str(_) => 19,
            TT::Num(_) => 20,
            TT::AND => 21,
            TT::ELSE => 22,
            TT::FALSE => 23,
            TT::FOR => 24,
            TT::IF => 25,
            TT::NIL => 26,
            TT::OR => 27,
            TT::PRINT => 28,
            TT::TRUE => 29,
            TT::VAR => 30,
            TT::WHILE => 31,
        }
    }

    /// The number of the kind.
    pub fn kind_number(&self) -> (r: u8)
        ensures
            r == self.kind(),
    {
        match self {
            TT::OPAREN => 0,
            TT::CPAREN => 1,
            TT::OBRACE => 2,
            TT::CBRACE => 3,
            TT::MINUS => 4,
            TT::PLUS => 5,
            TT::SEMICOLON => 6,
            TT::SLASH => 7,
            TT::STAR => 8,
            TT::BANG => 9,
            TT::NE => 10,
            TT::ASSIGN => 11,
            TT::EQ => 12,
            TT::GT => 13,
            TT::GE => 14,
            TT::LT => 15,
            TT::LE => 16,
            TT::DOLLAR => 17,
            TT::Id(_) => 18,
            TT::Str(_) => 19,
            TT::Num(_) => 20,
            TT::AND => 21,
            TT::ELSE => 22,
            TT::FALSE => 23,
            TT::FOR => 24,
            TT::IF => 25,
            TT::NIL => 26,
            TT::OR => 27,
            TT::PRINT => 28,
            TT::TRUE => 29,
            TT::VAR => 30,
            TT::WHILE => 31,
        }
    }

    /// The text that an identifier, a string or a number carries; no text
    /// for the other kinds.
    pub open spec fn text(&self) -> Seq<char> {
        match self {
            TT::Id(text) => text@,
            TT::Str(text) => text@,
            TT::Num(text) => text@,
            _ => Seq::empty(),
        }
    }

    /// Whether both are of one kind, whatever text they carry.
    pub fn same_kind(&self, other: &TT) -> (r: bool)
        ensures
            r == (self.kind() == other.kind()),
    {
        self.kind_number() == other.kind_number()
    }
}

impl Clone for TT {
    fn clone(&self) -> (r: TT)
        ensures
            r == *self,
    {
        match self {
            TT::OPAREN => TT::OPAREN,
            TT::CPAREN => TT::CPAREN,
            TT::OBRACE => TT::OBRACE,
            TT::CBRACE => TT::CBRACE,
            TT::MINUS => TT::MINUS,
            TT::PLUS => TT::PLUS,
            TT::SEMICOLON => TT::SEMICOLON,
            TT::SLASH => TT::SLASH,
            TT::STAR => TT::STAR,
            TT::BANG => TT::BANG,
            TT::NE => TT::NE,
            TT::ASSIGN => TT::ASSIGN,
            TT::EQ => TT::EQ,
            TT::GT => TT::GT,
            TT::GE => TT::GE,
            TT::LT => TT::LT,
            TT::LE => TT::LE,
            TT::DOLLAR => TT::DOLLAR,
            TT::Id(text) => TT::Id(text.clone()),
            TT::Str(text) => TT::Str(text.clone()),
            TT::Num(text) => TT::Num(text.clone()),
            TT::AND => TT::AND,
            TT::ELSE => TT::ELSE,
            TT::FALSE => TT::FALSE,
            TT::FOR => TT::FOR,
            TT::IF => TT::IF,
            TT::NIL => TT::NIL,
            TT::OR => TT::OR,
            TT::PRINT => TT::PRINT,
            TT::TRUE => TT::TRUE,
            TT::VAR => TT::VAR,
            TT::WHILE => TT::WHILE,
        }
    }
}

/// A token: its kind, the text it was read from, and the line it stood on.
#[derive(Debug, PartialEq)]
pub struct Token {
    pub line: usize,
    pub token: TT,
    pub lexeme: String,
}

impl Clone for Token {
    fn clone(&self) -> (r: Token)
        ensures
            r == *self,
    {
        Token { line: self.line, token: self.token.clone(), lexeme: self.lexeme.clone() }
    }
}

/// The number of the kind of identifiers.
pub open spec fn id_kind() -> nat {
    18
}

/// The number of the kind of strings.
pub open spec fn str_kind() -> nat {
    19
}

/// The number of the kind of numbers.
pub open spec fn num_kind() -> nat {
    20
}

/// What the scanner reads as one token: the number of its kind, the text
/// that the token carries, the text it was read from, and its line.
pub struct Lexed {
    pub kind: nat,
    pub text: Seq<char>,
    pub lexeme: Seq<char>,
    pub line: nat,
}

impl Token {
    /// What the token shows of itself.
    pub open spec fn lexed(&self) -> Lexed {
        Lexed {
            kind: self.token.kind(),
            text: self.token.text(),
            lexeme: self.lexeme@,
            line: self.line as nat,
        }
    }
}

/// What the tokens show of themselves.
pub open spec fn lexed_all(tokens: Seq<Token>) -> Seq<Lexed> {
    Seq::new(tokens.len(), |i: int| tokens[i].lexed())
}

/// Whether `c` is a decimal digit.
pub open spec fn is_digit(c: char) -> bool {
    '0' <= c && c <= '9'
}

/// Whether `c` may begin a name: a letter of the Latin alphabet or `_`.
pub open spec fn is_letter(c: char) -> bool {
    ('a' <= c && c <= 'z') || ('A' <= c && c <= 'Z') || c == '_'
}

/// Whether `c` may stand in a name.
pub open spec fn is_word(c: char) -> bool {
    is_letter(c) || is_digit(c)
}

/// The classes of characters that make a run.
#[derive(Clone, Copy, Debug, PartialEq, Eq)]
pub enum Run {
    /// Decimal digits.
    Digits,
    /// The characters of a name.
    Word,
    /// Everything but a line feed.
    Line,
    /// Everything but a double quote.
    Text,
}

impl Run {
    /// Whether `c` is of the class.
    pub open spec fn has(self, c: char) -> bool {
        match self {
            Run::Digits => is_digit(c),
            Run::Word => is_word(c),
            Run::Line => c != '\n',
            Run::Text => c != '"',
        }
    }

    /// Whether `c` is of the class.
    pub fn takes(self, c: char) -> (r: bool)
        ensures
            r == self.has(c),
    {
        match self {
            Run::Digits => digit(c),
            Run::Word => letter(c) || digit(c),
            Run::Line => c != '\n',
            Run::Text => c != '"',
        }
    }
}

/// Whether `c` is a decimal digit.
pub fn digit(c: char) -> (r: bool)
    ensures
        r == is_digit(c),
{
    '0' <= c && c <= '9'
}

/// Whether `c` may begin a name.
pub fn letter(c: char) -> (r: bool)
    ensures
        r == is_letter(c),
{
    ('a' <= c && c <= 'z') || ('A' <= c && c <= 'Z') || c == '_'
}

/// The end of the run of characters of a class that begins at `at`.
pub open spec fn run_end(text: Seq<char>, at: int, run: Run) -> int
    decreases text.len() - at,
{
    if 0 <= at < text.len() && run.has(text[at]) {
        run_end(text, at + 1, run)
    } else {
        at
    }
}

/// A run ends where it begins or behind it, and within the text.
pub proof fn lemma_run_end(text: Seq<char>, at: int, run: Run)
    requires
        0 <= at <= text.len(),
    ensures
        at <= run_end(text, at, run) <= text.len(),
        at < text.len() && run.has(text[at]) ==> at < run_end(text, at, run),
    decreases text.len() - at,
{
    if at < text.len() && run.has(text[at]) {
        lemma_run_end(text, at + 1, run);
    }
}

/// Finds the end of the run of characters of a class that begins at `at`.
fn run_to(text: &Vec<char>, at: usize, run: Run) -> (end: usize)
    requires
        at <= text.len(),
    ensures
        end == run_end(text@, at as int, run),
        at <= end <= text.len(),
{
    let mut j = at;
    while j < text.len() && run.takes(text[j])
        invariant
            at <= j <= text.len(),
            run_end(text@, j as int, run) == run_end(text@, at as int, run),
        decreases text.len() - j,
    {
        j += 1;
    }
    j
}

/// The line after `line`; the count stops at the greatest number.
pub open spec fn next_line(line: nat) -> nat {
    if line < usize::MAX {
        line + 1
    } else {
        line
    }
}

/// The line at position `to`, if `line` is the line at position `from`.
pub open spec fn line_at(text: Seq<char>, from: int, to: int, line: nat) -> nat
    decreases to - from,
{
    if 0 <= from < to && from < text.len() {
        line_at(
            text,
            from + 1,
            to,
            if text[from] == '\n' {
                next_line(line)
            } else {
                line
            },
        )
    } else {
        line
    }
}

/// The kind of the word `word`: a keyword's, or an identifier's.
pub open spec fn word_kind(word: Seq<char>) -> nat {
    if word == "and"@ {
        TT::AND.kind()
    } else if word == "else"@ {
        TT::ELSE.kind()
    } else if word == "false"@ {
        TT::FALSE.kind()
    } else if word == "for"@ {
        TT::FOR.kind()
    } else if word == "if"@ {
        TT::IF.kind()
    } else if word == "nil"@ {
        TT::NIL.kind()
    } else if word == "or"@ {
        TT::OR.kind()
    } else if word == "print"@ {
        TT::PRINT.kind()
    } else if word == "true"@ {
        TT::TRUE.kind()
    } else if word == "var"@ {
        TT::VAR.kind()
    } else if word == "while"@ {
        TT::WHILE.kind()
    } else {
        id_kind()
    }
}

/// Where the token that begins at `at` ends, or what is skipped there: a
/// number is digits with an optional fraction, a name is letters, digits
/// and `_`, a string reaches to the next double quote or to the end of the
/// text, a comment begins with `//` and reaches to the end of the line,
/// `!`, `=`, `<` and `>` take a `=` behind them along, and everything else
/// is one character.
pub open spec fn piece_end(text: Seq<char>, at: int) -> int {
    let c = text[at];
    let two = at + 1 < text.len();
    if is_digit(c) {
        let whole = run_end(text, at, Run::Digits);
        if whole + 1 < text.len() && text[whole] == '.' && is_digit(text[whole + 1]) {
            run_end(text, whole + 1, Run::Digits)
        } else {
            whole
        }
    } else if is_letter(c) {
        run_end(text, at, Run::Word)
    } else if c == '"' {
        let close = run_end(text, at + 1, Run::Text);
        if close < text.len() {
            close + 1
        } else {
            close
        }
    } else if c == '/' && two && text[at + 1] == '/' {
        run_end(text, at, Run::Line)
    } else if (c == '!' || c == '=' || c == '<' || c == '>') && two && text[at + 1] == '=' {
        at + 2
    } else {
        at + 1
    }
}

/// The kind of the token that begins at `at` and ends at `end`; none for
/// white space, for a comment, and for a character that begins no token.
pub open spec fn piece_kind(text: Seq<char>, at: int, end: int) -> Option<nat> {
    let c = text[at];
    if is_digit(c) {
        Some(num_kind())
    } else if is_letter(c) {
        Some(word_kind(text.subrange(at, end)))
    } else if c == '"' {
        Some(str_kind())
    } else if c == '(' {
        Some(TT::OPAREN.kind())
    } else if c == ')' {
        Some(TT::CPAREN.kind())
    } else if c == '{' {
        Some(TT::OBRACE.kind())
    } else if c == '}' {
        Some(TT::CBRACE.kind())
    } else if c == '-' {
        Some(TT::MINUS.kind())
    } else if c == '+' {
        Some(TT::PLUS.kind())
    } else if c == ';' {
        Some(TT::SEMICOLON.kind())
    } else if c == '*' {
        Some(TT::STAR.kind())
    } else if c == '$' {
        Some(TT::DOLLAR.kind())
    } else if c == '/' {
        if end == at + 1 {
            Some(TT::SLASH.kind())
        } else {
            None
        }
    } else if c == '!' {
        Some(
            if end == at + 2 {
                TT::NE.kind()
            } else {
                TT::BANG.kind()
            },
        )
    } else if c == '=' {
        Some(
            if end == at + 2 {
                TT::EQ.kind()
            } else {
                TT::ASSIGN.kind()
            },
        )
    } else if c == '>' {
        Some(
            if end == at + 2 {
                TT::GE.kind()
            } else {
                TT::GT.kind()
            },
        )
    } else if c == '<' {
        Some(
            if end == at + 2 {
                TT::LE.kind()
            } else {
                TT::LT.kind()
            },
        )
    } else {
        None
    }
}

/// The text that the token from `at` to `end` carries: its own text for a
/// number and an identifier, the text between the quotes for a string.
pub open spec fn piece_text(text: Seq<char>, at: int, end: int) -> Seq<char> {
    let c = text[at];
    if is_digit(c) {
        text.subrange(at, end)
    } else if is_letter(c) {
        if word_kind(text.subrange(at, end)) == id_kind() {
            text.subrange(at, end)
        } else {
            Seq::empty()
        }
    } else if c == '"' {
        text.subrange(at + 1, run_end(text, at + 1, Run::Text))
    } else {
        Seq::empty()
    }
}

/// The tokens of `text` from position `at` on, where `line` is the line at
/// that position.
pub open spec fn lex(text: Seq<char>, at: int, line: nat) -> Seq<Lexed>
    decreases text.len() - at,
{
    if 0 <= at < text.len() {
        let end = piece_end(text, at);
        if at < end <= text.len() {
            let rest = lex(text, end, line_at(text, at, end, line));
            match piece_kind(text, at, end) {
                Some(kind) => seq![
                    Lexed {
                        kind,
                        text: piece_text(text, at, end),
                        lexeme: text.subrange(at, end),
                        line,
                    },
                ] + rest,
                None => rest,
            }
        } else {
            Seq::empty()
        }
    } else {
        Seq::empty()
    }
}

/// Finds where the token that begins at `at` ends, or what is skipped
/// there.
fn piece_to(text: &Vec<char>, at: usize) -> (end: usize)
    requires
        at < text.len(),
    ensures
        end == piece_end(text@, at as int),
        at < end <= text.len(),
{
    let c = text[at];
    let two = at + 1 < text.len();
    if digit(c) {
        let whole = run_to(text, at, Run::Digits);
        proof {
            lemma_run_end(text@, at as int, Run::Digits);
        }
        if whole < text.len() - 1 && text[whole] == '.' && digit(text[whole + 1]) {
            run_to(text, whole + 1, Run::Digits)
        } else {
            whole
        }
    } else if letter(c) {
        proof {
            lemma_run_end(text@, at as int, Run::Word);
        }
        run_to(text, at, Run::Word)
    } else if c == '"' {
        let close = run_to(text, at + 1, Run::Text);
        if close < text.len() {
            close + 1
        } else {
            close
        }
    } else if c == '/' && two && text[at + 1] == '/' {
        proof {
            lemma_run_end(text@, at as int, Run::Line);
        }
        run_to(text, at, Run::Line)
    } else if (c == '!' || c == '=' || c == '<' || c == '>') && two && text[at + 1] == '=' {
        at + 2
    } else {
        at + 1
    }
}

/// Counts the lines from position `from` to position `to`.
fn line_to(text: &Vec<char>, from: usize, to: usize, line: usize) -> (r: usize)
    requires
        from <= to <= text.len(),
    ensures
        r == line_at(text@, from as int, to as int, line as nat),
{
    let mut j = from;
    let mut now = line;
    while j < to
        invariant
            from <= j <= to <= text.len(),
            line_at(text@, j as int, to as int, now as nat) == line_at(
                text@,
                from as int,
                to as int,
                line as nat,
            ),
        decreases to - j,
    {
        if text[j] == '\n' && now < usize::MAX {
            now += 1;
        }
        j += 1;
    }
    now
}

/// The kind of a word, with the word for an identifier.
pub fn word_token(word: String) -> (r: TT)
    ensures
        r.kind() == word_kind(word@),
        r.text() == if word_kind(word@) == id_kind() {
            word@
        } else {
            Seq::empty()
        },
{
    if word == String::from_str("and") {
        TT::AND
    } else if word == String::from_str("else") {
        TT::ELSE
    } else if word == String::from_str("false") {
        TT::FALSE
    } else if word == String::from_str("for") {
        TT::FOR
    } else if word == String::from_str("if") {
        TT::IF
    } else if word == String::from_str("nil") {
        TT::NIL
    } else if word == String::from_str("or") {
        TT::OR
    } else if word == String::from_str("print") {
        TT::PRINT
    } else if word == String::from_str("true") {
        TT::TRUE
    } else if word == String::from_str("var") {
        TT::VAR
    } else if word == String::from_str("while") {
        TT::WHILE
    } else {
        TT::Id(word)
    }
}

/// The kind of the token that was found from `at` to `end` in `source`,
/// whose characters are `text`; none where something was skipped.
fn piece_token(source: &str, text: &Vec<char>, at: usize, end: usize) -> (r: Option<TT>)
    requires
        text@ == source@,
        at < text.len(),
        end == piece_end(text@, at as int),
        at < end <= text.len(),
    ensures
        match r {
            Some(token) => piece_kind(text@, at as int, end as int) == Some(token.kind())
                && token.text() == piece_text(text@, at as int, end as int),
            None => piece_kind(text@, at as int, end as int) is None,
        },
{
    let c = text[at];
    if digit(c) {
        Some(TT::Num(String::from_str(source.substring_char(at, end))))
    } else if letter(c) {
        Some(word_token(String::from_str(source.substring_char(at, end))))
    } else if c == '"' {
        let close = run_to(text, at + 1, Run::Text);
        Some(TT::Str(String::from_str(source.substring_char(at + 1, close))))
    } else if c == '(' {
        Some(TT::OPAREN)
    } else if c == ')' {
        Some(TT::CPAREN)
    } else if c == '{' {
        Some(TT::OBRACE)
    } else if c == '}' {
        Some(TT::CBRACE)
    } else if c == '-' {
        Some(TT::MINUS)
    } else if c == '+' {
        Some(TT::PLUS)
    } else if c == ';' {
        Some(TT::SEMICOLON)
    } else if c == '*' {
        Some(TT::STAR)
    } else if c == '$' {
        Some(TT::DOLLAR)
    } else if c == '/' {
        if end - at == 1 {
            Some(TT::SLASH)
        } else {
            None
        }
    } else if c == '!' {
        Some(
            if end - at == 2 {
                TT::NE
            } else {
                TT::BANG
            },
        )
    } else if c == '=' {
        Some(
            if end - at == 2 {
                TT::EQ
            } else {
                TT::ASSIGN
            },
        )
    } else if c == '>' {
        Some(
            if end - at == 2 {
                TT::GE
            } else {
                TT::GT
            },
        )
    } else if c == '<' {
        Some(
            if end - at == 2 {
                TT::LE
            } else {
                TT::LT
            },
        )
    } else {
        None
    }
}

/// The scanner of Lox source text.
pub struct LoxScanner {}

impl LoxScanner {
    /// A scanner over the tokens of `source`, lines counted from 1. White
    /// space, comments and characters that begin no token are skipped.
    pub fn scanner(source: String) -> (r: Scanner<Token>)
        ensures
            lexed_all(r.tokens()) == lex(source@, 0, 1),
            r.mark() == 0,
            r.taken() == 0,
    {
        let text = chars_of(&source);
        let n = text.len();
        let mut out: Vec<Token> = Vec::new();
        let mut at: usize = 0;
        let mut line: usize = 1;
        proof {
            assert(lexed_all(out@) + lex(text@, 0, 1) =~= lex(text@, 0, 1));
        }
        while at < n
            invariant
                at <= n,
                n == text.len(),
                text@ == source@,
                lexed_all(out@) + lex(text@, at as int, line as nat) == lex(text@, 0, 1),
            decreases n - at,
        {
            let end = piece_to(&text, at);
            let after = line_to(&text, at, end, line);
            let ghost before = lexed_all(out@);
            let ghost rest = lex(text@, end as int, after as nat);
            match piece_token(source.as_str(), &text, at, end) {
                Some(token) => {
                    let lexeme = String::from_str(source.as_str().substring_char(at, end));
                    let found = Token { line, token, lexeme };
                    out.push(found);
                    proof {
                        assert(lexed_all(out@) =~= before + seq![found.lexed()]);
                        assert(lexed_all(out@) + rest =~= before + (seq![found.lexed()] + rest));
                    }
                },
                None => {},
            }
            at = end;
            line = after;
        }
        proof {
            assert(lexed_all(out@) + lex(text@, n as int, line as nat) =~= lexed_all(out@));
        }
        Scanner::from_buf(out)
    }
}

} // verus!
