use olive::grammar::{Grammar, GrammarError};
use std::collections::HashSet;

fn grammar_text(name: &str) -> &'static str {
    match name {
        "ll_pass" => "S A B\n( )\nS\nS -> A\nA -> B A | ε\nB -> ( | )\n",
        "pass_1" => "S A B C D\na b c\nS\nS -> A B\nA -> a | ε\nB -> b C\nC -> c D | ε\nD -> a\n",
        "pass_2" => "A B\na b\nA\nA -> a B\nB -> b | ε\n",
        "fail_1" => "S A B\na b\nS\nS -> a A\nA B -> b\n",
        "fail_2" => "S A\na b\nS\nS -> a A\nA -> c\n",
        "ll_old" => {
            "S A A' B C C' D\na b\nS\nS -> a A | a C\nA -> B A'\nA' -> B A' | ε\nB -> b\nC -> D C' | a C'\nC' -> D C' | ε\nD -> b\n"
        }
        _ => unreachable!(),
    }
}

fn set_of(symbols: Vec<String>) -> HashSet<String> {
    let count = symbols.len();
    let set: HashSet<String> = symbols.into_iter().collect();
    assert_eq!(set.len(), count);
    set
}

#[test]
fn test_cfg() {
    let pass = ["ll_pass", "pass_1", "pass_2"];
    let fail = ["fail_1", "fail_2"];

    for file in pass.iter() {
        let grammar = Grammar::new(grammar_text(file)).unwrap();
        assert!(grammar.is_context_free());
    }

    for file in fail.iter() {
        let grammar = Grammar::new(grammar_text(file)).unwrap();
        assert!(!grammar.is_context_free());
    }
}

#[test]
fn grammar_test_pass_1() {
    let grammar = Grammar::new(grammar_text("pass_1")).unwrap();

    let non_terminals = grammar.get_non_terminals();
    let terminals = grammar.get_terminals();
    let productions = grammar.get_productions();

    assert_eq!(non_terminals.len(), 5);
    assert_eq!(terminals.len(), 3);
    assert_eq!(productions.len(), 5);

    let start_symbol = grammar.get_start_symbol();
    assert_eq!(start_symbol, "S");

    assert_eq!(grammar.is_context_free(), true);
}

#[test]
fn grammar_test_pass_2() {
    let grammar = Grammar::new(grammar_text("pass_2")).unwrap();

    let non_terminals = grammar.get_non_terminals();
    let terminals = grammar.get_terminals();
    let productions = grammar.get_productions();

    assert_eq!(non_terminals.len(), 2);
    assert_eq!(terminals.len(), 2);
    assert_eq!(productions.len(), 2);

    let start_symbol = grammar.get_start_symbol();
    assert_eq!(start_symbol, "A");

    assert_eq!(grammar.is_context_free(), true);
}

#[test]
fn grammar_test_fail_1() {
    let grammar = Grammar::new(grammar_text("fail_1")).unwrap();

    let non_terminals = grammar.get_non_terminals();
    let terminals = grammar.get_terminals();
    let productions = grammar.get_productions();

    assert_eq!(non_terminals.len(), 3);
    assert_eq!(terminals.len(), 2);
    assert_eq!(productions.len(), 2);

    let start_symbol = grammar.get_start_symbol();
    assert_eq!(start_symbol, "S");

    assert_eq!(grammar.is_context_free(), false);
}

#[test]
fn grammar_test_fail_2() {
    let grammar = Grammar::new(grammar_text("fail_2")).unwrap();

    let non_terminals = grammar.get_non_terminals();
    let terminals = grammar.get_terminals();
    let productions = grammar.get_productions();

    assert_eq!(non_terminals.len(), 2);
    assert_eq!(terminals.len(), 2);
    assert_eq!(productions.len(), 2);

    let start_symbol = grammar.get_start_symbol();
    assert_eq!(start_symbol, "S");

    assert_eq!(grammar.is_context_free(), false);
}

#[test]
fn grammar_test_first_follow_1() {
    let grammar = Grammar::new(grammar_text("ll_pass")).unwrap();

    assert_eq!(
        set_of(grammar.first("S")),
        HashSet::from([String::from("("), String::from(")"), String::from("ε")])
    );
    assert_eq!(
        set_of(grammar.first("A")),
        HashSet::from([String::from("("), String::from(")"), String::from("ε")])
    );
    assert_eq!(
        set_of(grammar.first("B")),
        HashSet::from([String::from("("), String::from(")")])
    );
    assert_eq!(set_of(grammar.first("(")), HashSet::from([String::from("(")]));
    assert_eq!(set_of(grammar.first(")")), HashSet::from([String::from(")")]));

    assert_eq!(set_of(grammar.follow("S")), HashSet::from([String::from("$")]));
    assert_eq!(set_of(grammar.follow("A")), HashSet::from([String::from("$")]));
    assert_eq!(
        set_of(grammar.follow("B")),
        HashSet::from([String::from("("), String::from(")"), String::from("$")])
    );
    assert_eq!(
        set_of(grammar.follow("(")),
        HashSet::from([String::from("("), String::from(")"), String::from("$")])
    );
    assert_eq!(
        set_of(grammar.follow(")")),
        HashSet::from([String::from("("), String::from(")"), String::from("$")])
    );
}

#[test]
fn parser_test_pass_1() {
    let parser = Grammar::new(grammar_text("pass_1")).unwrap();

    let non_terminals = parser.get_non_terminals();
    let terminals = parser.get_terminals();
    let productions = parser.get_productions();

    assert_eq!(non_terminals.len(), 5);
    assert_eq!(terminals.len(), 3);
    assert_eq!(productions.len(), 5);

    let start_symbol = parser.get_start_symbol();
    assert_eq!(start_symbol, "S");

    assert_eq!(parser.is_context_free(), true);
}

#[test]
fn parser_test_pass_2() {
    let parser = Grammar::new(grammar_text("pass_2")).unwrap();

    let non_terminals = parser.get_non_terminals();
    let terminals = parser.get_terminals();
    let productions = parser.get_productions();

    assert_eq!(non_terminals.len(), 2);
    assert_eq!(terminals.len(), 2);
    assert_eq!(productions.len(), 2);

    let start_symbol = parser.get_start_symbol();
    assert_eq!(start_symbol, "A");

    assert_eq!(parser.is_context_free(), true);
}

#[test]
fn parser_test_fail_1() {
    let parser = Grammar::new(grammar_text("fail_1")).unwrap();

    let non_terminals = parser.get_non_terminals();
    let terminals = parser.get_terminals();
    let productions = parser.get_productions();

    assert_eq!(non_terminals.len(), 3);
    assert_eq!(terminals.len(), 2);
    assert_eq!(productions.len(), 2);

    let start_symbol = parser.get_start_symbol();
    assert_eq!(start_symbol, "S");

    assert_eq!(parser.is_context_free(), false);
}

#[test]
fn parser_test_fail_2() {
    let parser = Grammar::new(grammar_text("fail_2")).unwrap();

    let non_terminals = parser.get_non_terminals();
    let terminals = parser.get_terminals();
    let productions = parser.get_productions();

    assert_eq!(non_terminals.len(), 2);
    assert_eq!(terminals.len(), 2);
    assert_eq!(productions.len(), 2);

    let start_symbol = parser.get_start_symbol();
    assert_eq!(start_symbol, "S");

    assert_eq!(parser.is_context_free(), false);
}

#[test]
fn parser_test_first_follow_1() {
    let parser = Grammar::new(grammar_text("ll_old")).unwrap();

    assert_eq!(set_of(parser.first("S")), HashSet::from([String::from("a")]));
    assert_eq!(set_of(parser.first("A")), HashSet::from([String::from("b")]));
    assert_eq!(
        set_of(parser.first("A'")),
        HashSet::from([String::from("b"), String::from("ε")])
    );
    assert_eq!(set_of(parser.first("B")), HashSet::from([String::from("b")]));
    assert_eq!(
        set_of(parser.first("C")),
        HashSet::from([String::from("a"), String::from("b")])
    );
    assert_eq!(
        set_of(parser.first("C'")),
        HashSet::from([String::from("b"), String::from("ε")])
    );
    assert_eq!(set_of(parser.first("D")), HashSet::from([String::from("b")]));

    assert_eq!(set_of(parser.follow("S")), HashSet::from([String::from("$")]));
    assert_eq!(set_of(parser.follow("A")), HashSet::from([String::from("$")]));
    assert_eq!(set_of(parser.follow("A'")), HashSet::from([String::from("$")]));
    assert_eq!(
        set_of(parser.follow("B")),
        HashSet::from([String::from("b"), String::from("$")])
    );
    assert_eq!(set_of(parser.follow("C")), HashSet::from([String::from("$")]));
    assert_eq!(set_of(parser.follow("C'")), HashSet::from([String::from("$")]));
    assert_eq!(
        set_of(parser.follow("D")),
        HashSet::from([String::from("b"), String::from("$")])
    );
}

#[test]
fn left_recursion_has_first_and_follow_sets() {
    let grammar = Grammar::new("E T\n+ n\nE\nE -> E + T | T\nT -> n\n").unwrap();
    assert!(grammar.is_context_free());
    assert_eq!(set_of(grammar.first("E")), HashSet::from([String::from("n")]));
    assert_eq!(
        set_of(grammar.follow("E")),
        HashSet::from([String::from("+"), String::from("$")])
    );
    assert_eq!(
        set_of(grammar.follow("T")),
        HashSet::from([String::from("+"), String::from("$")])
    );
    assert_eq!(set_of(grammar.first("unknown")), HashSet::new());
    assert_eq!(set_of(grammar.follow("unknown")), HashSet::new());
    assert_eq!(set_of(grammar.first("ε")), HashSet::from([String::from("ε")]));
}

#[test]
fn terminals_are_unescaped_and_lines_are_merged() {
    let grammar = Grammar::new("S\n\\s \\p \\d a a\nS\nS -> a\n\nS -> a a | ε\n").unwrap();
    let terminals: Vec<&str> = grammar.get_terminals().iter().map(|s| s.as_str()).collect();
    assert_eq!(terminals, vec![" ", "|", "||", "a"]);
    let productions = grammar.get_productions();
    assert_eq!(productions.len(), 1);
    assert_eq!(productions[0].get_lhs(), "S");
    let alternatives: Vec<&str> =
        productions[0].get_alternatives().iter().map(|s| s.as_str()).collect();
    assert_eq!(alternatives, vec!["a", "a a", "ε"]);
}

fn fault(source: &str) -> String {
    match Grammar::new(source) {
        Ok(_) => String::from("accepted"),
        Err(e) => e.to_string(),
    }
}

#[test]
fn grammar_faults_have_their_messages() {
    assert_eq!(fault(""), "invalid grammar file: missing non-terminals");
    assert_eq!(fault("S\n"), "invalid grammar file: missing terminals");
    assert_eq!(fault("S\na\n"), "invalid grammar file: missing start symbol");
    assert_eq!(fault("S\na\nA\n"), "start symbol 'A' is not a non-terminal");
    assert_eq!(fault("S\na\nS S\n"), "start symbol 'S S' is not a non-terminal");
    assert_eq!(fault("S\na\nS\nS a\n"), "invalid production: S a");
    assert_eq!(fault("S\na\nS\n-> a\n"), "invalid production: -> a");
    assert_eq!(fault("S\na\nS\nS ->\n"), "invalid production: S ->");
    assert_eq!(fault("S\na\nS\nS -> a | | a\n"), "invalid production: S -> a | | a");
    assert_eq!(fault("S\na\nS\nS -> a |\n"), "invalid production: S -> a |");
    assert_eq!(fault("S\na\nS\nS -> a\nS ->   a\n"), "duplicate production 'S -> a'");
    assert!(matches!(
        Grammar::new("S\na\nS\nS -> a | a\n"),
        Err(GrammarError::DuplicateProduction(_, _))
    ));
    assert_eq!(fault("S\na\nS\n"), "accepted");
}
