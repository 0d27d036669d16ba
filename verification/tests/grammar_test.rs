use earlgrey::grammar::{GrammarBuilder, GrammarError};
use earlgrey::parser::{EarleyParser, ParseError};
use earlgrey::pattern::Pattern;
use earlgrey::scanner::Scanner;
use earlgrey::tokenizers::DelimTokenizer;
use earlgrey::tree::Tree;

fn exact(text: &str) -> Pattern {
    Pattern::Exact(text.to_string())
}

fn tokens(list: &[&str]) -> Scanner<String> {
    Scanner::from_buf(list.iter().map(|s| s.to_string()).collect())
}

fn leaves(tree: &Tree, out: &mut Vec<String>) {
    match tree {
        Tree::Leaf(_, lexeme) => out.push(lexeme.clone()),
        Tree::Node(_, kids) => {
            for kid in kids {
                leaves(kid, out);
            }
        }
    }
}

fn height(tree: &Tree) -> usize {
    match tree {
        Tree::Leaf(_, _) => 1,
        Tree::Node(_, kids) => 1 + kids.iter().map(height).max().unwrap_or(0),
    }
}

#[test]
fn duplicate_symbol_of_other_kind() {
    let r = GrammarBuilder::new().symbol("S").terminal("S", exact("s")).into_grammar("S");
    assert_eq!(r.err(), Some(GrammarError::DuplicateSymbol("S".to_string())));
    let r = GrammarBuilder::new().terminal("t", exact("t")).symbol("t").into_grammar("t");
    assert_eq!(r.err(), Some(GrammarError::DuplicateSymbol("t".to_string())));
}

#[test]
fn redeclaring_a_symbol_changes_nothing() {
    let g = GrammarBuilder::new()
        .symbol("S")
        .symbol("S")
        .terminal("b", exact("b"))
        .terminal("b", exact("c"))
        .rule("S", &["b"])
        .into_grammar("S")
        .unwrap();
    let p = EarleyParser::new(g);
    assert!(p.parse(&mut tokens(&["b"])).is_ok());
    assert!(p.parse(&mut tokens(&["c"])).is_err());
}

#[test]
fn unknown_symbol_in_rule() {
    let r = GrammarBuilder::new().symbol("S").rule("T", &["S"]).into_grammar("S");
    assert_eq!(r.err(), Some(GrammarError::UnknownSymbol("T".to_string())));
    let r = GrammarBuilder::new()
        .symbol("S")
        .terminal("b", exact("b"))
        .rule("S", &["b", "x", "y"])
        .into_grammar("S");
    assert_eq!(r.err(), Some(GrammarError::UnknownSymbol("x".to_string())));
    let r = GrammarBuilder::new().terminal("b", exact("b")).rule("b", &[]).into_grammar("b");
    assert_eq!(r.err(), Some(GrammarError::UnknownSymbol("b".to_string())));
}

#[test]
fn first_failure_is_reported() {
    let r = GrammarBuilder::new()
        .symbol("S")
        .rule("S", &["x"])
        .terminal("S", exact("s"))
        .into_grammar("nowhere");
    assert_eq!(r.err(), Some(GrammarError::UnknownSymbol("x".to_string())));
}

#[test]
fn unknown_start() {
    let r = GrammarBuilder::new().symbol("S").rule("S", &[]).into_grammar("T");
    assert_eq!(r.err(), Some(GrammarError::UnknownStart("T".to_string())));
}

#[test]
fn no_rules_for_start() {
    let r = GrammarBuilder::new().symbol("S").symbol("T").rule("T", &[]).into_grammar("S");
    assert_eq!(r.err(), Some(GrammarError::NoRulesForStart("S".to_string())));
    let r = GrammarBuilder::new().terminal("b", exact("b")).into_grammar("b");
    assert_eq!(r.err(), Some(GrammarError::NoRulesForStart("b".to_string())));
}

#[test]
fn a_rule_added_twice_counts_once() {
    let g = GrammarBuilder::new()
        .symbol("S")
        .terminal("b", exact("b"))
        .rule("S", &["b"])
        .rule("S", &["b"])
        .into_grammar("S")
        .unwrap();
    let p = EarleyParser::new(g);
    let ps = p.parse(&mut tokens(&["b"])).unwrap();
    let trees = Tree::builder().eval_all(&ps);
    assert_eq!(trees.len(), 1);
    assert_eq!(format!("{:?}", trees[0]), r#"Node("S -> b", [Leaf("b", "b")])"#);
}

fn sum_grammar() -> earlgrey::grammar::Grammar {
    GrammarBuilder::new()
        .symbol("S")
        .terminal("a", exact("a"))
        .terminal("+", exact("+"))
        .rule("S", &["S", "+", "a"])
        .rule("S", &["a"])
        .into_grammar("S")
        .unwrap()
}

#[test]
fn unexpected_token_names_position_and_text() {
    let p = EarleyParser::new(sum_grammar());
    match p.parse(&mut tokens(&["a", "+", "+", "a"])) {
        Err(ParseError::UnexpectedToken(at, text)) => {
            assert_eq!(at, 2);
            assert_eq!(text, "+");
        }
        _ => panic!("expected UnexpectedToken"),
    }
    match p.parse(&mut tokens(&["x"])) {
        Err(ParseError::UnexpectedToken(at, text)) => {
            assert_eq!(at, 0);
            assert_eq!(text, "x");
        }
        _ => panic!("expected UnexpectedToken"),
    }
}

#[test]
fn no_parse_when_input_ends_early() {
    let p = EarleyParser::new(sum_grammar());
    match p.parse(&mut tokens(&["a", "+"])) {
        Err(ParseError::NoParse(_, sets)) => {
            assert_eq!(sets.len(), 3);
            assert!(sets.iter().all(|set| !set.is_empty()));
        }
        _ => panic!("expected NoParse"),
    }
    match p.parse(&mut tokens(&[])) {
        Err(ParseError::NoParse(_, sets)) => assert_eq!(sets.len(), 1),
        _ => panic!("expected NoParse"),
    }
}

#[test]
fn terminals_that_a_set_waits_for() {
    let g = sum_grammar();
    let first = GrammarBuilder::new()
        .symbol("S")
        .terminal("a", exact("a"))
        .terminal("+", exact("+"))
        .rule("S", &["S", "+", "a"])
        .rule("S", &["a"])
        .into_grammar("S")
        .unwrap();
    let p = EarleyParser::new(first);
    match p.parse(&mut tokens(&["a", "+"])) {
        Err(ParseError::NoParse(_, sets)) => {
            assert_eq!(g.expected(&sets[0]), vec!["a"]);
            assert_eq!(g.expected(&sets[1]), vec!["+"]);
            assert_eq!(g.expected(&sets[2]), vec!["a"]);
        }
        _ => panic!("expected NoParse"),
    }
    let ps = p.parse(&mut tokens(&["a"])).unwrap();
    assert_eq!(g.expected(ps.set(1).unwrap()), vec!["+"]);
    assert_eq!(g.expected(&Vec::new()), Vec::<String>::new());
}

#[test]
fn parse_takes_what_is_left_in_the_scanner() {
    let p = EarleyParser::new(sum_grammar());
    let mut input = tokens(&["+", "a", "+", "a"]);
    assert_eq!(input.next(), Some("+".to_string()));
    let ps = p.parse(&mut input).unwrap();
    assert_eq!(ps.num_sets(), 4);
    assert_eq!(input.pos(), 4);
    assert_eq!(input.next(), None);
}

#[test]
fn state_sets_of_an_accepted_input() {
    let p = EarleyParser::new(sum_grammar());
    let ps = p.parse(&mut tokens(&["a", "+", "a"])).unwrap();
    assert_eq!(ps.num_sets(), 4);
    assert!(ps.set(4).is_none());
    assert_eq!(ps.token(1), Some(&"+".to_string()));
    assert_eq!(ps.token(3), None);
    let first = ps.set(0).unwrap();
    assert_eq!(first.len(), 2);
    assert!(first.iter().all(|it| it.dot == 0 && it.start == 0 && it.end == 0));
    for e in 0..4 {
        let set = ps.set(e).unwrap();
        for (k, it) in set.iter().enumerate() {
            assert_eq!(it.end, e);
            assert!(it.start <= e);
            assert_eq!(it.derivs.is_empty(), it.dot == 0);
            for other in &set[..k] {
                assert!((other.rule, other.dot, other.start) != (it.rule, it.dot, it.start));
            }
        }
    }
    let accepting = ps.accepting_items();
    assert_eq!(accepting.len(), 1);
    let it = &ps.set(3).unwrap()[accepting[0]];
    assert_eq!((it.rule, it.dot, it.start, it.end), (0, 3, 0, 3));
}

#[test]
fn every_tree_spells_the_input() {
    let g = GrammarBuilder::new()
        .symbol("E")
        .terminal("+", exact("+"))
        .terminal("*", exact("*"))
        .terminal("n", Pattern::CharsIn("1234567890".to_string()))
        .rule("E", &["E", "+", "E"])
        .rule("E", &["E", "*", "E"])
        .rule("E", &["n"])
        .into_grammar("E")
        .unwrap();
    let p = EarleyParser::new(g);
    let ps = p.parse(&mut DelimTokenizer::from_str("1+2*3+4", "+*", false)).unwrap();
    let trees = Tree::builder().eval_all(&ps);
    assert_eq!(trees.len(), 5);
    for (i, tree) in trees.iter().enumerate() {
        let mut spelled = Vec::new();
        leaves(tree, &mut spelled);
        assert_eq!(spelled, vec!["1", "+", "2", "*", "3", "+", "4"]);
        for other in &trees[..i] {
            assert!(other != tree);
        }
    }
    assert!(trees.contains(&Tree::builder().eval_one(&ps)));
}

#[test]
fn shortest_parse_of_the_empty_input() {
    // S -> A A | B ; A -> C ; C -> <e> ; B -> <e>
    let g = GrammarBuilder::new()
        .symbol("S")
        .symbol("A")
        .symbol("B")
        .symbol("C")
        .rule("S", &["A", "A"])
        .rule("S", &["B"])
        .rule("A", &["C"])
        .rule("C", &[])
        .rule("B", &[])
        .into_grammar("S")
        .unwrap();
    let p = EarleyParser::new(g);
    let ps = p.parse(&mut tokens(&[])).unwrap();
    let one = Tree::builder().eval_one(&ps);
    assert_eq!(format!("{:?}", one), r#"Node("S -> B", [Node("B -> ", [])])"#);
    let all = Tree::builder().eval_all(&ps);
    assert!(all.contains(&one));
    assert_eq!(all.len(), 2);
    for tree in &all {
        assert!(height(&one) <= height(tree));
        let mut spelled = Vec::new();
        leaves(tree, &mut spelled);
        assert!(spelled.is_empty());
    }
}

#[test]
fn the_order_of_rules_and_symbols_does_not_matter() {
    let one = GrammarBuilder::new()
        .symbol("S")
        .terminal("b", exact("b"))
        .symbol("X")
        .rule("S", &["S", "S", "X"])
        .rule("X", &[])
        .rule("S", &["b"])
        .into_grammar("S")
        .unwrap();
    let other = GrammarBuilder::new()
        .symbol("X")
        .symbol("S")
        .terminal("b", exact("b"))
        .rule("S", &["b"])
        .rule("X", &[])
        .rule("S", &["S", "S", "X"])
        .into_grammar("S")
        .unwrap();
    let p = EarleyParser::new(one);
    let q = EarleyParser::new(other);
    for input in ["", "b", "b b", "b b b", "b b b b", "b c", "c"].iter() {
        let left = p.parse(&mut DelimTokenizer::from_str(input, " ", true));
        let right = q.parse(&mut DelimTokenizer::from_str(input, " ", true));
        assert_eq!(left.is_ok(), right.is_ok());
        if let (Ok(left), Ok(right)) = (left, right) {
            let mut a: Vec<String> =
                Tree::builder().eval_all(&left).iter().map(|t| format!("{:?}", t)).collect();
            let mut b: Vec<String> =
                Tree::builder().eval_all(&right).iter().map(|t| format!("{:?}", t)).collect();
            a.sort();
            b.sort();
            assert_eq!(a, b);
        }
    }
}

#[test]
fn grammars_are_equal_by_structure() {
    assert!(sum_grammar() == sum_grammar());
    let other_start = GrammarBuilder::new()
        .symbol("S")
        .symbol("T")
        .terminal("a", exact("a"))
        .rule("S", &["a"])
        .rule("T", &["a"]);
    let one = other_start.into_grammar("S").unwrap();
    let two = GrammarBuilder::new()
        .symbol("S")
        .symbol("T")
        .terminal("a", exact("a"))
        .rule("S", &["a"])
        .rule("T", &["a"])
        .into_grammar("T")
        .unwrap();
    assert!(one != two);
    let pattern = GrammarBuilder::new()
        .symbol("S")
        .symbol("T")
        .terminal("a", exact("b"))
        .rule("S", &["a"])
        .rule("T", &["a"])
        .into_grammar("S")
        .unwrap();
    assert!(one != pattern);
    let order = GrammarBuilder::new()
        .symbol("S")
        .symbol("T")
        .terminal("a", exact("a"))
        .rule("T", &["a"])
        .rule("S", &["a"])
        .into_grammar("S")
        .unwrap();
    assert!(one != order);
    assert!(one != sum_grammar());
}

#[test]
fn patterns_match_as_described() {
    let text = |s: &str| s.to_string();
    assert!(Pattern::Exact(text("if")).matches(&text("if")));
    assert!(!Pattern::Exact(text("if")).matches(&text("iff")));
    let words = Pattern::AnyOf(vec![text("the"), text("a")]);
    assert!(words.matches(&text("a")));
    assert!(!words.matches(&text("an")));
    let digits = Pattern::CharsIn(text("0123456789"));
    assert!(digits.matches(&text("2024")));
    assert!(digits.matches(&text("")));
    assert!(!digits.matches(&text("20x4")));
    let sign = Pattern::CharIn(text("+-"));
    assert!(sign.matches(&text("-")));
    assert!(!sign.matches(&text("+-")));
    assert!(!sign.matches(&text("")));
    let piece = Pattern::SubstringOf(text("1234567890"));
    assert!(piece.matches(&text("345")));
    assert!(piece.matches(&text("")));
    assert!(!piece.matches(&text("35")));
    assert!(!piece.matches(&text("12345678901")));
    assert!(Pattern::Alphabetic.matches(&text("x")));
    assert!(Pattern::Alphabetic.matches(&text("Q")));
    assert!(!Pattern::Alphabetic.matches(&text("é")));
    assert!(!Pattern::Alphabetic.matches(&text("7")));
    assert!(!Pattern::Alphabetic.matches(&text("xy")));
}

#[test]
fn delimiters_are_kept_unless_removed() {
    let mut kept = DelimTokenizer::from_str("a+b  c", "+ ", false);
    let mut seen = Vec::new();
    while let Some(token) = kept.next() {
        seen.push(token);
    }
    assert_eq!(seen, vec!["a", "+", "b", " ", " ", "c"]);
    let mut removed = DelimTokenizer::from_str("a+b  c", "+ ", true);
    let mut seen = Vec::new();
    while let Some(token) = removed.next() {
        seen.push(token);
    }
    assert_eq!(seen, vec!["a", "b", "c"]);
    assert_eq!(DelimTokenizer::from_str("", " ", true).next(), None);
}

#[test]
fn scanner_marks_and_backtracks() {
    let mut s = tokens(&["a", "b", "c"]);
    assert_eq!(s.pos(), 0);
    assert_eq!(s.peek(), Some("a".to_string()));
    assert_eq!(s.next(), Some("a".to_string()));
    assert_eq!(s.next(), Some("b".to_string()));
    assert_eq!(s.pos(), 2);
    assert!(s.set_pos(1));
    assert_eq!(s.peek(), Some("b".to_string()));
    assert!(!s.set_pos(4));
    assert_eq!(s.pos(), 1);
    assert_eq!(s.extract(), vec!["a".to_string()]);
    assert!(!s.set_pos(0));
    assert_eq!(s.next(), Some("b".to_string()));
    s.ignore();
    assert_eq!(s.extract(), Vec::<String>::new());
    assert_eq!(s.next(), Some("c".to_string()));
    assert_eq!(s.next(), None);
    assert_eq!(s.pos(), 3);
    assert_eq!(s.extract(), vec!["c".to_string()]);
}

#[test]
fn the_chart_tells_what_was_expected_where_the_input_is_stuck() {
    let g = sum_grammar();
    let p = EarleyParser::new(sum_grammar());
    let at = match p.parse(&mut tokens(&["a", "+", "+", "a"])) {
        Err(ParseError::UnexpectedToken(at, text)) => {
            assert_eq!(text, "+");
            at
        }
        _ => panic!("expected UnexpectedToken"),
    };
    assert_eq!(at, 2);
    let sets = p.chart(&mut tokens(&["a", "+", "+", "a"]));
    assert_eq!(sets.len(), 5);
    assert_eq!(g.expected(&sets[at]), vec!["a"]);
    assert!(sets[at + 1].is_empty());
    let whole = p.chart(&mut tokens(&["a", "+", "a"]));
    let ps = p.parse(&mut tokens(&["a", "+", "a"])).unwrap();
    assert_eq!(whole.len(), ps.num_sets());
    for e in 0..whole.len() {
        assert_eq!(whole[e].len(), ps.set(e).unwrap().len());
    }
}

#[test]
fn a_copy_of_a_grammar_is_equal_to_it_and_parses_alike() {
    let g = sum_grammar();
    let copy = g.clone();
    assert!(copy == g);
    let p = EarleyParser::new(copy);
    let ps = p.parse(&mut tokens(&["a", "+", "a"])).unwrap();
    assert_eq!(Tree::builder().eval_all(&ps).len(), 1);
    assert!(p.parse(&mut tokens(&["a", "a"])).is_err());
}

#[test]
fn the_order_of_additions_is_part_of_a_grammar() {
    let first = GrammarBuilder::new()
        .symbol("S")
        .terminal("a", exact("a"))
        .terminal("+", exact("+"))
        .rule("S", &["a"])
        .rule("S", &["S", "+", "a"])
        .into_grammar("S")
        .unwrap();
    // the same rules, added in the other order
    assert!(first != sum_grammar());
    // what is added twice is held once, where it was added first
    let twice = GrammarBuilder::new()
        .symbol("S")
        .symbol("S")
        .terminal("a", exact("a"))
        .terminal("+", exact("+"))
        .terminal("a", exact("b"))
        .rule("S", &["S", "+", "a"])
        .rule("S", &["a"])
        .rule("S", &["S", "+", "a"])
        .into_grammar("S")
        .unwrap();
    assert!(twice == sum_grammar());
}

#[test]
fn the_sets_of_a_chart_are_laid_out() {
    let p = EarleyParser::new(sum_grammar());
    let sets = p.chart(&mut tokens(&["a", "+", "+"]));
    assert_eq!(sets.len(), 4);
    for (e, set) in sets.iter().enumerate() {
        for (k, it) in set.iter().enumerate() {
            assert_eq!(it.end, e);
            assert_eq!(it.derivs.is_empty(), it.dot == 0);
            for other in &set[k + 1..] {
                assert!((it.rule, it.dot, it.start) != (other.rule, other.dot, other.start));
            }
        }
    }
}

#[test]
fn no_parse_hands_back_the_grammar() {
    let p = EarleyParser::new(sum_grammar());
    match p.parse(&mut tokens(&["a", "+"])) {
        Err(ParseError::NoParse(grammar, sets)) => {
            assert!(grammar == sum_grammar());
            assert_eq!(grammar.expected(&sets[2]), vec!["a"]);
        }
        _ => panic!("expected NoParse"),
    }
}

#[test]
fn of_two_shortest_empty_parses_the_first_rule_wins() {
    let build = || {
        GrammarBuilder::new()
            .symbol("S")
            .symbol("A")
            .symbol("B")
            .rule("S", &["S", "S"])
            .rule("S", &["B"])
            .rule("S", &["A"])
            .rule("A", &[])
            .rule("B", &[])
            .into_grammar("S")
            .unwrap()
    };
    let p = EarleyParser::new(build());
    let ps = p.parse(&mut tokens(&[])).unwrap();
    assert_eq!(
        format!("{:?}", Tree::builder().eval_one(&ps)),
        r#"Node("S -> B", [Node("B -> ", [])])"#
    );
    let copy = EarleyParser::new(build().clone());
    let again = copy.parse(&mut tokens(&[])).unwrap();
    assert_eq!(Tree::builder().eval_one(&again), Tree::builder().eval_one(&ps));
}
