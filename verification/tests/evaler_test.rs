use earlgrey::evaler::{EarleyEvaler, EvalError};
use earlgrey::grammar::{Grammar, GrammarBuilder};
use earlgrey::parser::EarleyParser;
use earlgrey::pattern::Pattern;
use earlgrey::tokenizers::DelimTokenizer;
use earlgrey::tree::Tree;

fn lists() -> Grammar {
    // L -> L , I | I ; I -> n | ( L )
    GrammarBuilder::new()
        .symbol("L")
        .symbol("I")
        .terminal("n", Pattern::CharsIn("0123456789".to_string()))
        .terminal(",", Pattern::Exact(",".to_string()))
        .terminal("(", Pattern::Exact("(".to_string()))
        .terminal(")", Pattern::Exact(")".to_string()))
        .rule("L", &["L", ",", "I"])
        .rule("L", &["I"])
        .rule("I", &["n"])
        .rule("I", &["(", "L", ")"])
        .into_grammar("L")
        .unwrap()
}

fn number(_: &String, lexeme: &String) -> Result<u64, String> {
    if lexeme.is_empty() {
        return Ok(0);
    }
    match lexeme.parse::<u64>() {
        Ok(n) => Ok(n),
        Err(_) => Ok(0),
    }
}

#[test]
fn a_rule_of_one_symbol_passes_its_value_up() {
    let p = EarleyParser::new(lists());
    let ps = p.parse(&mut DelimTokenizer::from_str("1,(20,3)", ",()", false)).unwrap();
    let ev = EarleyEvaler::new(number)
        .action("L -> L , I", |values: &Vec<u64>| Ok(values[0] + values[2]))
        .action("I -> ( L )", |values: &Vec<u64>| Ok(values[1] * 10));
    assert_eq!(ev.eval_one(&ps), Ok(231));
    assert_eq!(ev.eval_all(&ps), Ok(vec![231]));
    let tree = Tree::builder().eval_one(&ps);
    assert_eq!(ev.eval_tree(&tree), Ok(231));
}

#[test]
fn a_longer_rule_without_action_is_unhandled() {
    let p = EarleyParser::new(lists());
    let ps = p.parse(&mut DelimTokenizer::from_str("1,2", ",", false)).unwrap();
    let ev = EarleyEvaler::new(number);
    assert_eq!(ev.eval_one(&ps), Err(EvalError::UnhandledRule("L -> L , I".to_string())));
    assert_eq!(ev.eval_all(&ps), Err(EvalError::UnhandledRule("L -> L , I".to_string())));
}

#[test]
fn failures_of_leaf_function_and_action_come_through() {
    let p = EarleyParser::new(lists());
    let ps = p.parse(&mut DelimTokenizer::from_str("1,2", ",", false)).unwrap();
    let ev = EarleyEvaler::new(|name: &String, lexeme: &String| {
        if name == "," {
            Err(format!("no value for {}", lexeme))
        } else {
            Ok(1u64)
        }
    })
    .action("L -> L , I", |values: &Vec<u64>| Ok(values[0]));
    assert_eq!(ev.eval_one(&ps), Err(EvalError::LeafFnFailed("no value for ,".to_string())));
    let ev = EarleyEvaler::new(number)
        .action("L -> L , I", |values: &Vec<u64>| Err(format!("cannot add {} values", values.len())));
    assert_eq!(ev.eval_one(&ps), Err(EvalError::ActionFailed("cannot add 3 values".to_string())));
}

#[test]
fn a_later_action_for_a_rule_hides_an_earlier_one() {
    let p = EarleyParser::new(lists());
    let ps = p.parse(&mut DelimTokenizer::from_str("1,2", ",", false)).unwrap();
    let ev = EarleyEvaler::new(number)
        .action("L -> L , I", |values: &Vec<u64>| Ok(values[0] + values[2]))
        .action("L -> L , I", |values: &Vec<u64>| Ok(values[0] * 10 + values[2]));
    assert_eq!(ev.eval_one(&ps), Ok(12));
}
