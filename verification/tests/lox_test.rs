use earlgrey::lox_parser::{write_error, Expr, LoxParser, Stmt};
use earlgrey::lox_scanner::{LoxScanner, Token, TT};
use earlgrey::scanner::Scanner;
use earlgrey::text::decimal_text;

fn tok(token: TT, lexeme: &str) -> Token {
    Token { line: 1, token, lexeme: lexeme.to_string() }
}

fn num(digits: &str) -> Token {
    tok(TT::Num(digits.to_string()), digits)
}

fn id(name: &str) -> Token {
    tok(TT::Id(name.to_string()), name)
}

fn parse(tokens: Vec<Token>) -> Result<Vec<Stmt>, String> {
    LoxParser::new(Scanner::from_buf(tokens)).parse()
}

fn show(tokens: Vec<Token>) -> String {
    format!("{:?}", parse(tokens))
}

fn expr(e: &Expr) -> String {
    match e {
        Expr::Logical(l, op, r) | Expr::Binary(l, op, r) => {
            format!("({} {} {})", expr(l), op.lexeme, expr(r))
        }
        Expr::Unary(op, r) => format!("({} {})", op.lexeme, expr(r)),
        Expr::Bool(b) => format!("{}", b),
        Expr::Nil => "nil".to_string(),
        Expr::Num(n) => n.clone(),
        Expr::Str(s) => format!("{:?}", s),
        Expr::Grouping(inner) => format!("[{}]", expr(inner)),
        Expr::Var(v) => v.clone(),
        Expr::Assign(v, value) => format!("({} = {})", v, expr(value)),
    }
}

fn stmt(s: &Stmt) -> String {
    match s {
        Stmt::Print(e) => format!("print {};", expr(e)),
        Stmt::Expr(e) => format!("{};", expr(e)),
        Stmt::Var(name, e) => format!("var {} = {};", name, expr(e)),
        Stmt::Block(items) => {
            format!("{{ {} }}", items.iter().map(stmt).collect::<Vec<_>>().join(" "))
        }
        Stmt::If(c, t, None) => format!("if {} {}", expr(c), stmt(t)),
        Stmt::If(c, t, Some(e)) => format!("if {} {} else {}", expr(c), stmt(t), stmt(e)),
        Stmt::While(c, b) => format!("while {} {}", expr(c), stmt(b)),
    }
}

fn program(tokens: Vec<Token>) -> String {
    parse(tokens).unwrap().iter().map(stmt).collect::<Vec<_>>().join(" ")
}

#[test]
fn operators_bind_by_level_and_to_the_left() {
    // 1 + 2 * 3 - 4 ;
    let tokens = vec![
        num("1"), tok(TT::PLUS, "+"), num("2"), tok(TT::STAR, "*"), num("3"),
        tok(TT::MINUS, "-"), num("4"), tok(TT::SEMICOLON, ";"),
    ];
    assert_eq!(program(tokens), "((1 + (2 * 3)) - 4);");
    // a or b and c == d < - e ;
    let tokens = vec![
        id("a"), tok(TT::OR, "or"), id("b"), tok(TT::AND, "and"), id("c"), tok(TT::EQ, "=="),
        id("d"), tok(TT::LT, "<"), tok(TT::MINUS, "-"), id("e"), tok(TT::SEMICOLON, ";"),
    ];
    assert_eq!(program(tokens), "(a or (b and (c == (d < (- e)))));");
}

#[test]
fn assignment_binds_to_the_right() {
    let tokens = vec![
        id("a"), tok(TT::ASSIGN, "="), id("b"), tok(TT::ASSIGN, "="),
        tok(TT::OPAREN, "("), tok(TT::TRUE, "true"), tok(TT::CPAREN, ")"),
        tok(TT::SEMICOLON, ";"),
    ];
    assert_eq!(program(tokens), "(a = (b = [true]));");
}

#[test]
fn literals_keep_their_text() {
    let tokens = vec![
        tok(TT::PRINT, "print"), tok(TT::Str("hi".to_string()), "\"hi\""), tok(TT::SEMICOLON, ";"),
        tok(TT::PRINT, "print"), num("3.25"), tok(TT::SEMICOLON, ";"),
        tok(TT::PRINT, "print"), tok(TT::NIL, "nil"), tok(TT::SEMICOLON, ";"),
        tok(TT::PRINT, "print"), tok(TT::FALSE, "false"), tok(TT::SEMICOLON, ";"),
    ];
    assert_eq!(program(tokens), "print \"hi\"; print 3.25; print nil; print false;");
}

#[test]
fn declarations_blocks_and_branches() {
    // var x ; var y = 1 ; { if ( x ) y = 2 ; else { } } while ( y ) print y ;
    let tokens = vec![
        tok(TT::VAR, "var"), id("x"), tok(TT::SEMICOLON, ";"),
        tok(TT::VAR, "var"), id("y"), tok(TT::ASSIGN, "="), num("1"), tok(TT::SEMICOLON, ";"),
        tok(TT::OBRACE, "{"),
        tok(TT::IF, "if"), tok(TT::OPAREN, "("), id("x"), tok(TT::CPAREN, ")"),
        id("y"), tok(TT::ASSIGN, "="), num("2"), tok(TT::SEMICOLON, ";"),
        tok(TT::ELSE, "else"), tok(TT::OBRACE, "{"), tok(TT::CBRACE, "}"),
        tok(TT::CBRACE, "}"),
        tok(TT::WHILE, "while"), tok(TT::OPAREN, "("), id("y"), tok(TT::CPAREN, ")"),
        tok(TT::PRINT, "print"), id("y"), tok(TT::SEMICOLON, ";"),
    ];
    assert_eq!(
        program(tokens),
        "var x = nil; var y = 1; { if x (y = 2); else {  } } while y print y;"
    );
}

#[test]
fn a_for_loop_becomes_a_while_loop() {
    // for ( var i = 0 ; i < 3 ; i = i + 1 ) print i ;
    let tokens = vec![
        tok(TT::FOR, "for"), tok(TT::OPAREN, "("),
        tok(TT::VAR, "var"), id("i"), tok(TT::ASSIGN, "="), num("0"), tok(TT::SEMICOLON, ";"),
        id("i"), tok(TT::LT, "<"), num("3"), tok(TT::SEMICOLON, ";"),
        id("i"), tok(TT::ASSIGN, "="), id("i"), tok(TT::PLUS, "+"), num("1"),
        tok(TT::CPAREN, ")"),
        tok(TT::PRINT, "print"), id("i"), tok(TT::SEMICOLON, ";"),
    ];
    assert_eq!(
        program(tokens),
        "{ var i = 0; while (i < 3) { print i; (i = (i + 1)); } }"
    );
    // for ( ; ; ) x ;
    let tokens = vec![
        tok(TT::FOR, "for"), tok(TT::OPAREN, "("), tok(TT::SEMICOLON, ";"),
        tok(TT::SEMICOLON, ";"), tok(TT::CPAREN, ")"), id("x"), tok(TT::SEMICOLON, ";"),
    ];
    assert_eq!(program(tokens), "while true x;");
    // for ( x ; y ; ) z ;
    let tokens = vec![
        tok(TT::FOR, "for"), tok(TT::OPAREN, "("), id("x"), tok(TT::SEMICOLON, ";"),
        id("y"), tok(TT::SEMICOLON, ";"), tok(TT::CPAREN, ")"), id("z"), tok(TT::SEMICOLON, ";"),
    ];
    assert_eq!(program(tokens), "{ x; while y z; }");
}

#[test]
fn errors_name_the_token_and_its_line() {
    let bad = Token { line: 12, token: TT::SEMICOLON, lexeme: ";".to_string() };
    assert_eq!(
        show(vec![tok(TT::PRINT, "print"), bad]),
        r#"Err("LoxParser error: \";\" at line 12, expected expression")"#
    );
    assert_eq!(
        show(vec![tok(TT::PRINT, "print"), num("1")]),
        r#"Err("LoxParser error: EOF, expect ';' after value")"#
    );
    let quote = Token { line: 3, token: TT::Str("a\"b".to_string()), lexeme: "\"a\\\"b\"".to_string() };
    assert_eq!(
        parse(vec![tok(TT::VAR, "var"), quote]).err(),
        Some(r#"LoxParser error: "\"a\\\"b\"" at line 3, expect variable name"#.to_string())
    );
    assert_eq!(
        show(vec![
            tok(TT::OPAREN, "("), id("a"), tok(TT::CPAREN, ")"),
            Token { line: 7, token: TT::ASSIGN, lexeme: "=".to_string() },
            num("1"), tok(TT::SEMICOLON, ";"),
        ]),
        r#"Err("LoxParser error: \"=\" at line 7, invalid assignment target")"#
    );
}

#[test]
fn accept_and_consume_look_at_the_kind_only() {
    let mut p = LoxParser::new(Scanner::from_buf(vec![id("a"), num("1"), tok(TT::PLUS, "+")]));
    assert!(!p.accept(vec![TT::Num(String::new()), TT::PLUS]));
    assert!(p.accept(vec![TT::PLUS, TT::Id(String::new())]));
    assert_eq!(p.consume(vec![TT::Num("7".to_string())], "a number"), Ok(()));
    assert_eq!(
        p.consume(vec![TT::MINUS], "expect '-'"),
        Err(r#"LoxParser error: "+" at line 1, expect '-'"#.to_string())
    );
    assert_eq!(p.consume(vec![TT::PLUS], "expect '+'"), Ok(()));
    assert!(!p.accept(vec![TT::PLUS]));
    assert_eq!(p.error(None, "done"), "LoxParser error: EOF, done");
}

#[test]
fn messages_of_errors() {
    let shown = "<if>".to_string();
    assert_eq!(write_error(Some((&shown, 40)), "no"), "LoxParser error: <if> at line 40, no");
    assert_eq!(write_error(None, "more"), "LoxParser error: EOF, more");
}

#[test]
fn an_empty_program_has_no_statements() {
    assert_eq!(show(vec![]), "Ok([])");
}

#[test]
fn numbers_in_decimal() {
    assert_eq!(decimal_text(0), "0");
    assert_eq!(decimal_text(7), "7");
    assert_eq!(decimal_text(10), "10");
    assert_eq!(decimal_text(4096), "4096");
    assert_eq!(decimal_text(usize::MAX), format!("{}", usize::MAX));
}

fn scan(source: &str) -> Vec<Token> {
    let mut scanner = LoxScanner::scanner(source.to_string());
    let mut tokens = Vec::new();
    while let Some(token) = scanner.next() {
        tokens.push(token);
    }
    tokens
}

#[test]
fn the_scanner_reads_tokens_and_counts_lines() {
    let tokens = scan("var x1 = 12.5;\n// nothing here\nprint \"a\nb\" + x1 >= 3. ;\n#!=!");
    let shown: Vec<(usize, TT, &str)> =
        tokens.iter().map(|t| (t.line, t.token.clone(), t.lexeme.as_str())).collect();
    assert_eq!(
        shown,
        vec![
            (1, TT::VAR, "var"),
            (1, TT::Id("x1".to_string()), "x1"),
            (1, TT::ASSIGN, "="),
            (1, TT::Num("12.5".to_string()), "12.5"),
            (1, TT::SEMICOLON, ";"),
            (3, TT::PRINT, "print"),
            (3, TT::Str("a\nb".to_string()), "\"a\nb\""),
            (4, TT::PLUS, "+"),
            (4, TT::Id("x1".to_string()), "x1"),
            (4, TT::GE, ">="),
            (4, TT::Num("3".to_string()), "3"),
            (4, TT::SEMICOLON, ";"),
            (5, TT::NE, "!="),
            (5, TT::BANG, "!"),
        ]
    );
}

#[test]
fn the_scanner_knows_the_keywords_and_the_signs() {
    let kinds: Vec<TT> = scan("and else false for if nil or print true var while android _ ( ) { } - + ; / * ! == = > < <= $")
        .into_iter()
        .map(|t| t.token)
        .collect();
    assert_eq!(
        kinds,
        vec![
            TT::AND, TT::ELSE, TT::FALSE, TT::FOR, TT::IF, TT::NIL, TT::OR, TT::PRINT, TT::TRUE,
            TT::VAR, TT::WHILE, TT::Id("android".to_string()), TT::Id("_".to_string()),
            TT::OPAREN, TT::CPAREN, TT::OBRACE, TT::CBRACE, TT::MINUS, TT::PLUS, TT::SEMICOLON,
            TT::SLASH, TT::STAR, TT::BANG, TT::EQ, TT::ASSIGN, TT::GT, TT::LT, TT::LE, TT::DOLLAR,
        ]
    );
    assert_eq!(scan(""), vec![]);
    assert_eq!(scan("  \t// only a comment"), vec![]);
    let open = scan("\"never closed");
    assert_eq!(open.len(), 1);
    assert_eq!(open[0].token, TT::Str("never closed".to_string()));
}

#[test]
fn scanned_source_parses() {
    let mut parser = LoxParser::new(LoxScanner::scanner(
        "for (var i = 0; i < 3; i = i + 1) { print i * (2 - 1); }".to_string(),
    ));
    let statements = parser.parse().unwrap();
    assert_eq!(
        statements.iter().map(stmt).collect::<Vec<_>>().join(" "),
        "{ var i = 0; while (i < 3) { { print (i * [(2 - 1)]); } (i = (i + 1)); } }"
    );
}

#[test]
fn an_else_belongs_to_the_nearest_if() {
    // if ( a ) if ( b ) x ; else y ;
    let tokens = vec![
        tok(TT::IF, "if"), tok(TT::OPAREN, "("), id("a"), tok(TT::CPAREN, ")"),
        tok(TT::IF, "if"), tok(TT::OPAREN, "("), id("b"), tok(TT::CPAREN, ")"),
        id("x"), tok(TT::SEMICOLON, ";"),
        tok(TT::ELSE, "else"), id("y"), tok(TT::SEMICOLON, ";"),
    ];
    assert_eq!(program(tokens), "if a if b x; else y;");
}

#[test]
fn tokens_that_are_no_program_fail() {
    // a block that is not closed
    assert!(parse(vec![tok(TT::OBRACE, "{"), id("x"), tok(TT::SEMICOLON, ";")]).is_err());
    // a declaration where only a statement may stand
    assert!(parse(vec![
        tok(TT::IF, "if"), tok(TT::OPAREN, "("), id("a"), tok(TT::CPAREN, ")"),
        tok(TT::VAR, "var"), id("x"), tok(TT::SEMICOLON, ";"),
    ])
    .is_err());
    // an `else` without an `if`
    assert!(parse(vec![tok(TT::ELSE, "else"), id("x"), tok(TT::SEMICOLON, ";")]).is_err());
    // an assignment to what is no variable
    assert!(parse(vec![num("1"), tok(TT::ASSIGN, "="), num("2"), tok(TT::SEMICOLON, ";")]).is_err());
    // a `for` loop without its second semicolon
    assert!(parse(vec![
        tok(TT::FOR, "for"), tok(TT::OPAREN, "("), tok(TT::SEMICOLON, ";"),
        tok(TT::CPAREN, ")"), id("x"), tok(TT::SEMICOLON, ";"),
    ])
    .is_err());
}

fn failure(tokens: Vec<Token>) -> String {
    parse(tokens).err().expect("a failure")
}

#[test]
fn a_group_that_is_not_closed_fails_behind_its_expression() {
    assert_eq!(
        failure(vec![tok(TT::OPAREN, "("), tok(TT::NIL, "nil")]),
        "LoxParser error: EOF, expect ')' after expression"
    );
    assert_eq!(
        failure(vec![tok(TT::OPAREN, "("), num("1"), tok(TT::PLUS, "+"), num("2"), tok(TT::SEMICOLON, ";")]),
        "LoxParser error: \";\" at line 1, expect ')' after expression"
    );
}

#[test]
fn a_token_that_begins_no_expression_fails_where_it_stands() {
    assert_eq!(
        failure(vec![num("1"), tok(TT::PLUS, "+"), tok(TT::STAR, "*"), num("2"), tok(TT::SEMICOLON, ";")]),
        "LoxParser error: \"*\" at line 1, expected expression"
    );
    assert_eq!(
        failure(vec![tok(TT::BANG, "!")]),
        "LoxParser error: EOF, expected expression"
    );
}

#[test]
fn only_a_variable_is_assigned_to() {
    assert_eq!(
        failure(vec![num("1"), tok(TT::ASSIGN, "="), num("2"), tok(TT::SEMICOLON, ";")]),
        "LoxParser error: \"=\" at line 1, invalid assignment target"
    );
    // the value is read before the target is refused
    assert_eq!(
        failure(vec![num("1"), tok(TT::ASSIGN, "="), tok(TT::SEMICOLON, ";")]),
        "LoxParser error: \";\" at line 1, expected expression"
    );
    assert_eq!(
        program(vec![id("a"), tok(TT::ASSIGN, "="), id("b"), tok(TT::ASSIGN, "="), num("2"), tok(TT::SEMICOLON, ";")]),
        "(a = (b = 2));"
    );
}

#[test]
fn the_first_failure_is_the_one_that_is_told() {
    // x ; print ; y = ;
    let at = |line: usize, token: TT, lexeme: &str| Token { line, token, lexeme: lexeme.to_string() };
    assert_eq!(
        failure(vec![
            at(1, TT::Id("x".to_string()), "x"), at(1, TT::SEMICOLON, ";"),
            at(2, TT::PRINT, "print"), at(2, TT::SEMICOLON, ";"),
            at(3, TT::Id("y".to_string()), "y"), at(3, TT::ASSIGN, "="), at(3, TT::SEMICOLON, ";"),
        ]),
        "LoxParser error: \";\" at line 2, expected expression"
    );
}

#[test]
fn every_statement_names_what_it_misses() {
    let semi = || tok(TT::SEMICOLON, ";");
    assert_eq!(failure(vec![tok(TT::PRINT, "print"), num("1")]), "LoxParser error: EOF, expect ';' after value");
    assert_eq!(failure(vec![num("1")]), "LoxParser error: EOF, expect ';' after value");
    assert_eq!(failure(vec![tok(TT::VAR, "var"), num("1")]), "LoxParser error: \"1\" at line 1, expect variable name");
    assert_eq!(
        failure(vec![tok(TT::VAR, "var"), id("x"), num("1")]),
        "LoxParser error: \"1\" at line 1, expect ';' after variable decl"
    );
    assert_eq!(
        failure(vec![tok(TT::VAR, "var"), id("x"), tok(TT::ASSIGN, "="), num("1")]),
        "LoxParser error: EOF, expect ';' after variable decl"
    );
    assert_eq!(failure(vec![tok(TT::OBRACE, "{"), id("x"), semi()]), "LoxParser error: EOF, expect '}' after value");
    assert_eq!(failure(vec![tok(TT::IF, "if"), id("x")]), "LoxParser error: \"x\" at line 1, expect '(' after 'if'");
    assert_eq!(
        failure(vec![tok(TT::IF, "if"), tok(TT::OPAREN, "("), id("x"), semi()]),
        "LoxParser error: \";\" at line 1, expect ')' after 'if' condition"
    );
    assert_eq!(
        failure(vec![tok(TT::WHILE, "while"), id("x")]),
        "LoxParser error: \"x\" at line 1, expect '(' after 'while'"
    );
    assert_eq!(
        failure(vec![tok(TT::WHILE, "while"), tok(TT::OPAREN, "("), id("x"), semi()]),
        "LoxParser error: \";\" at line 1, expect ')' after 'if' condition"
    );
    assert_eq!(failure(vec![tok(TT::FOR, "for"), semi()]), "LoxParser error: \";\" at line 1, expect '(' after 'for'");
    assert_eq!(
        failure(vec![tok(TT::FOR, "for"), tok(TT::OPAREN, "("), semi(), id("x"), tok(TT::CPAREN, ")")]),
        "LoxParser error: \")\" at line 1, expect ';' loop condition"
    );
    assert_eq!(
        failure(vec![tok(TT::FOR, "for"), tok(TT::OPAREN, "("), semi(), semi(), id("x"), semi()]),
        "LoxParser error: \";\" at line 1, expect ')' after 'for' clause"
    );
    assert_eq!(
        failure(vec![tok(TT::FOR, "for"), tok(TT::OPAREN, "("), semi(), semi()]),
        "LoxParser error: EOF, expect ')' after 'for' clause"
    );
    assert_eq!(
        failure(vec![
            tok(TT::IF, "if"), tok(TT::OPAREN, "("), id("x"), tok(TT::CPAREN, ")"), id("y"), semi(),
            tok(TT::ELSE, "else"),
        ]),
        "LoxParser error: EOF, expected expression"
    );
}
