use olive::grammar::Grammar;
use olive::output::ParserOutput;
use olive::parser::{LL1Parser, ParseError};
use olive::scanner::Scanner;
use olive::table::Table;
use olive::token::{Token, TokenKind};

fn word(text: &str) -> Token {
    Token::new(TokenKind::Unknown, text)
}

fn parents(output: &ParserOutput) -> Vec<(String, Option<usize>)> {
    (0..output.len()).map(|i| (output.get_symbol(Some(i)), output.get_parent(i))).collect()
}

fn node(symbol: &str, parent: Option<usize>) -> (String, Option<usize>) {
    (String::from(symbol), parent)
}

#[test]
fn later_alternative_takes_the_table_entry() {
    let grammar = Grammar::new("S A C\na b c\nS\nS -> a C | a A\nA -> b\nC -> c\n").unwrap();
    let parser = LL1Parser::new(grammar);
    let table = parser.get_parsing_table();
    assert_eq!(table.len(), 3);
    let key = |a: &str, b: &str| (String::from(a), String::from(b));
    assert_eq!(table.get(&key("S", "a")), Some(&String::from("a A")));
    assert_eq!(table.get(&key("A", "b")), Some(&String::from("b")));
    assert_eq!(table.get(&key("C", "c")), Some(&String::from("c")));
    assert_eq!(table.get(&key("S", "b")), None);

    let empty: Table<String> = Table::new();
    let output = parser.parse(&vec![word("a"), word("b")], &empty, &empty).unwrap();
    assert_eq!(
        parents(&output),
        vec![node("S", None), node("a", Some(0)), node("A", Some(0)), node("b", Some(2))]
    );
    assert_eq!(output.get_sibling(1), Some(2));
    assert_eq!(output.get_sibling(2), None);
    assert_eq!(output.get_sibling(3), None);
    assert_eq!(output.get_last_child(0), Some(2));
    assert_eq!(output.get_last_child(2), Some(3));
    assert_eq!(output.get_last_child(3), None);
    assert_eq!(
        output.display(),
        "Node 0: Symbol = S, Parent = None, Sibling = None\n\
         Node 1: Symbol = a, Parent = S (0), Sibling = A (2)\n\
         Node 2: Symbol = A, Parent = S (0), Sibling = None\n\
         Node 3: Symbol = b, Parent = A (2), Sibling = None\n"
    );

    let other = Grammar::new("S A C\na b c\nS\nS -> a A | a C\nA -> b\nC -> c\n").unwrap();
    let parser = LL1Parser::new(other);
    match parser.parse(&vec![word("a"), word("b")], &empty, &empty) {
        Err(e) => assert_eq!(e.to_string(), "Parse error: no rule for C with b"),
        Ok(_) => panic!("accepted"),
    }
    assert!(parser.parse(&vec![word("a"), word("c")], &empty, &empty).is_ok());
}

#[test]
fn parse_faults_have_their_messages() {
    let grammar = Grammar::new("S A\na b\nS\nS -> a A\nA -> b | ε\n").unwrap();
    let parser = LL1Parser::new(grammar);
    let empty: Table<String> = Table::new();
    let parse = |tokens: Vec<Token>| match parser.parse(&tokens, &empty, &empty) {
        Ok(output) => format!("{} nodes", output.len()),
        Err(e) => e.to_string(),
    };
    assert_eq!(parse(vec![word("a"), word("b")]), "4 nodes");
    assert_eq!(parse(vec![word("a")]), "3 nodes");
    assert_eq!(parse(vec![]), "Parse error: no rule for S with $");
    assert_eq!(parse(vec![word("a"), word("b"), word("b")]), "Parse error: unexpected end of input stream");
    assert_eq!(parse(vec![word("b")]), "Parse error: no rule for S with b");
    assert_eq!(parse(vec![word("a"), word("$")]), "Parse error: unexpected end of input stream");
    assert_eq!(parse(vec![word("a"), word("a")]), "Parse error: no rule for A with a");
    assert!(matches!(
        parser.parse(&vec![word("a"), word("c")], &empty, &empty),
        Err(ParseError::NoRule(_, _))
    ));
    let grammar = Grammar::new("S\na b\nS\nS -> a b\n").unwrap();
    let parser = LL1Parser::new(grammar);
    match parser.parse(&vec![word("a"), word("a")], &empty, &empty) {
        Err(e) => assert_eq!(e.to_string(), "Parse error: expected b, found a"),
        Ok(_) => panic!("accepted"),
    }
    match parser.parse(&vec![word("a")], &empty, &empty) {
        Err(e) => assert_eq!(e.to_string(), "Parse error: unexpected end of input stream"),
        Ok(_) => panic!("accepted"),
    }
}

#[test]
fn left_recursion_reaches_the_step_limit_or_a_fault() {
    let grammar = Grammar::new("S\na\nS\nS -> a\n").unwrap();
    let parser = LL1Parser::new(grammar);
    let empty: Table<String> = Table::new();
    let output = parser.parse(&vec![word("a")], &empty, &empty).unwrap();
    assert_eq!(parents(&output), vec![node("S", None), node("a", Some(0))]);
}

fn letters() -> Vec<char> {
    let mut all: Vec<char> = ('a'..='z').collect();
    all.extend('A'..='Z');
    all
}

fn identifier_dfa() -> String {
    let symbols: Vec<String> = letters().iter().map(|c| c.to_string()).collect();
    let mut text = format!("{}\n0 1\n0\n1\n", symbols.join(" "));
    for symbol in &symbols {
        text.push_str(&format!("0 {} 1\n", symbol));
        text.push_str(&format!("1 {} 1\n", symbol));
    }
    text
}

fn number_dfa() -> String {
    let mut text = String::from("+ - 0 1 2 3 4 5 6 7 8 9\n0 1 2 3\n0\n2 3\n");
    text.push_str("0 0 2\n0 + 1\n0 - 1\n");
    for digit in 1..=9 {
        text.push_str(&format!("0 {} 3\n", digit));
        text.push_str(&format!("1 {} 3\n", digit));
    }
    for digit in 0..=9 {
        text.push_str(&format!("3 {} 3\n", digit));
    }
    text
}

#[test]
fn leaves_of_the_tree_are_the_tokens_in_order() {
    let literal = "a \"\n0 1 2\n0\n2\n0 \" 1\n1 a 1\n1 \" 2\n";
    let character = "a '\n0 1 2 3\n0\n3\n0 ' 1\n1 a 2\n2 ' 3\n";
    let mut scanner = Scanner::new(&identifier_dfa(), &number_dfa(), character, literal).unwrap();
    scanner.scan("number n = 42 ; number m = n + 1 ;");
    assert_eq!(scanner.get_result(), "Lexically correct!");

    let grammar = Grammar::new(
        "Program Statement Value Rest\nnumber Identifier Constant = ; +\nProgram\n\
         Program -> Statement Program | ε\n\
         Statement -> number Identifier = Value ;\n\
         Value -> Identifier Rest | Constant Rest\n\
         Rest -> + Value | ε\n",
    )
    .unwrap();
    assert!(grammar.is_context_free());
    let parser = LL1Parser::new(grammar);
    let output = parser
        .parse(
            scanner.get_token_list(),
            scanner.get_identifier_table(),
            scanner.get_constant_table(),
        )
        .unwrap();
    let terminals = ["number", "Identifier", "Constant", "=", ";", "+"];
    let names = ["Program", "Statement", "Value", "Rest"];
    let leaves: Vec<String> = (0..output.len())
        .map(|i| output.get_symbol(Some(i)))
        .filter(|symbol| !names.contains(&symbol.as_str()))
        .collect();
    assert_eq!(
        leaves,
        vec!["number", "n", "=", "42", ";", "number", "m", "=", "n", "+", "1", ";"]
    );
    assert!(terminals.len() == 6);
    assert_eq!(output.get_symbol(Some(0)), "Program");
    assert_eq!(output.get_parent(0), None);
    assert_eq!(output.get_symbol(None), "None");
    assert_eq!(output.get_symbol(Some(output.len())), "None");
    for i in 1..output.len() {
        assert!(output.get_parent(i).unwrap() < i);
    }
}

#[test]
fn tree_is_built_node_by_node() {
    let mut output = ParserOutput::new();
    assert_eq!(output.len(), 0);
    output.add_node(Some(String::from("root")), None);
    output.add_node(None, Some(&0));
    output.add_node(Some(String::from("b")), Some(&0));
    output.add_node(Some(String::from("c")), Some(&1));
    output.add_node(Some(String::from("d")), Some(&0));
    assert_eq!(output.len(), 5);
    assert_eq!(output.get_symbol(Some(1)), "None");
    assert_eq!(output.get_sibling(1), Some(2));
    assert_eq!(output.get_sibling(2), Some(4));
    assert_eq!(output.get_sibling(3), None);
    assert_eq!(output.get_sibling(0), None);
    assert_eq!(output.get_last_child(0), Some(4));
    assert_eq!(output.get_last_child(1), Some(3));
    assert_eq!(output.get_parent(3), Some(1));
}

#[test]
fn parser_is_built_where_the_table_has_room() {
    let grammar = Grammar::new("S A\na b\nS\nS -> a A\nA -> b | ε\n").unwrap();
    assert!(LL1Parser::has_table_room(&grammar));
    let parser = LL1Parser::build(grammar).unwrap();
    assert_eq!(parser.get_parsing_table().len(), 3);
    assert_eq!(parser.get_grammar().get_start_symbol(), "S");
    let key = (String::from("A"), String::from("$"));
    assert_eq!(parser.get_parsing_table().get(&key), Some(&String::from("ε")));
    let bare = Grammar::new("S\na\nS\n").unwrap();
    assert!(LL1Parser::has_table_room(&bare));
    assert_eq!(LL1Parser::build(bare).unwrap().get_parsing_table().len(), 0);
}
