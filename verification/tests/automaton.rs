use olive::automaton::{Automaton, DfaError, NewState, State};

fn letters() -> Vec<char> {
    let mut all: Vec<char> = ('a'..='z').collect();
    all.extend('A'..='Z');
    all
}

fn spaced(symbols: &[String]) -> String {
    symbols.join(" ")
}

fn identifier_dfa() -> String {
    let symbols: Vec<String> = letters().iter().map(|c| c.to_string()).collect();
    let mut text = format!("{}\n0 1\n0\n1\n", spaced(&symbols));
    for symbol in &symbols {
        text.push_str(&format!("0 {} 1\n", symbol));
        text.push_str(&format!("1 {} 1\n", symbol));
    }
    text
}

fn number_dfa() -> String {
    let mut text = String::from("+ - 0 1 2 3 4 5 6 7 8 9\n0 1 2 3\n0\n2 3\n");
    text.push_str("0 0 2\n0 + 1\n0 - 1\n");
    for digit in 1..=9 {
        text.push_str(&format!("0 {} 3\n", digit));
        text.push_str(&format!("1 {} 3\n", digit));
    }
    for digit in 0..=9 {
        text.push_str(&format!("3 {} 3\n", digit));
    }
    text
}

fn plain_symbols() -> Vec<String> {
    let mut symbols: Vec<String> = letters().iter().map(|c| c.to_string()).collect();
    symbols.extend(('0'..='9').map(|c| c.to_string()));
    symbols.push(String::from("\\s"));
    for c in ['_', '.', ',', '!', '?', '-', '+'] {
        symbols.push(c.to_string());
    }
    symbols
}

fn string_dfa() -> String {
    let plain = plain_symbols();
    let mut alphabet = plain.clone();
    alphabet.push(String::from("\""));
    alphabet.push(String::from("\\"));
    alphabet.push(String::from("'"));
    let mut text = format!("{}\n0 1 2 3\n0\n3\n", spaced(&alphabet));
    text.push_str("0 \" 1\n1 \" 3\n1 \\ 2\n2 \" 1\n2 \\ 1\n1 ' 1\n");
    for symbol in &plain {
        text.push_str(&format!("1 {} 1\n", symbol));
    }
    text
}

fn char_dfa() -> String {
    let plain = plain_symbols();
    let mut alphabet = plain.clone();
    alphabet.push(String::from("\""));
    alphabet.push(String::from("\\"));
    alphabet.push(String::from("'"));
    let mut text = format!("{}\n0 1 2 3 4\n0\n4\n", spaced(&alphabet));
    text.push_str("0 ' 1\n1 \\ 3\n3 ' 2\n3 \\ 2\n2 ' 4\n1 \" 2\n");
    for symbol in &plain {
        text.push_str(&format!("1 {} 2\n", symbol));
    }
    text
}

#[test]
fn test_identifier() {
    let good_idetifiers = vec!["num", "s"];
    let bad_idetifiers = vec!["num2", "@s", ""];

    let identifier = Automaton::new(&identifier_dfa()).unwrap();

    for value in good_idetifiers {
        assert!(identifier.validate(value));
    }

    for value in bad_idetifiers {
        assert!(!identifier.validate(value));
    }
}

#[test]
fn test_number() {
    let good_numbers = vec!["1", "10", "+12", "-12", "0"];
    let bad_numbers = vec!["01", "+-10", "-+10", "+0", "-0", "+01", "-01", ""];

    let number = Automaton::new(&number_dfa()).unwrap();

    for value in good_numbers {
        assert!(number.validate(value));
    }

    for value in bad_numbers {
        assert!(!number.validate(value));
    }
}

#[test]
fn test_string() {
    let good_strings = vec![
        r#""abc""#,
        r#""a""#,
        r#""a \"b\" c""#,
        r#""a \\ b""#,
        r#""""#,
    ];
    let bad_strings = vec![
        r#""a " b""#,
        r#""a "bc" d""#,
        r#""a \ b""#,
        r#""abc"#,
        r#"abc""#,
    ];

    let string = Automaton::new(&string_dfa()).unwrap();

    for value in good_strings {
        assert!(string.validate(value));
    }

    for value in bad_strings {
        assert!(!string.validate(value));
    }
}

#[test]
fn test_char() {
    let good_chars = vec!["'a'", "' '", r#"'\''"#, r#"'\\'"#];
    let bad_chars = vec!["'ab'", "''", r#"'''"#, r#"'\'"#];

    let char = Automaton::new(&char_dfa()).unwrap();

    for value in good_chars {
        assert!(char.validate(value));
    }

    for value in bad_chars {
        assert!(!char.validate(value));
    }
}

#[test]
fn empty_input_is_accepted_iff_initial_state_is_final() {
    let accepting = Automaton::new("a\n0 1\n0\n0 1\n0 a 1\n").unwrap();
    assert!(accepting.validate(""));
    let rejecting = Automaton::new("a\n0 1\n0\n1\n0 a 1\n").unwrap();
    assert!(!rejecting.validate(""));
    assert!(rejecting.validate("a"));
    assert!(!rejecting.validate("aa"));
    assert!(!rejecting.validate("b"));
}

#[test]
fn automaton_parts_are_read_in_order() {
    let automaton = Automaton::new("a \\s\n3 5\n3\n5\n\n3 a 5\n5 \\s 3\n").unwrap();
    assert_eq!(automaton.get_alphabet(), &vec!['a', ' ']);
    assert_eq!(automaton.get_states(), &vec![3, 5]);
    assert_eq!(*automaton.get_initial_state(), 3);
    assert_eq!(automaton.get_final_states(), &vec![5]);
    assert_eq!(automaton.get_transitions().len(), 2);
    assert_eq!(automaton.get_transitions().get(&(3, 'a')), Some(&5));
    assert_eq!(automaton.get_transitions().get(&(5, ' ')), Some(&3));
    assert_eq!(automaton.get_transitions().get(&(5, 'a')), None);
    assert!(automaton.validate("a a"));
    assert!(!automaton.validate("a "));
}

fn message(source: &str) -> String {
    match Automaton::new(source) {
        Ok(_) => String::from("accepted"),
        Err(e) => e.to_string(),
    }
}

#[test]
fn automaton_faults_have_their_messages() {
    assert_eq!(message(""), "invalid finite automaton file: missing alphabet");
    assert_eq!(message("a\n"), "invalid finite automaton file: missing set of states");
    assert_eq!(message("a\n0\n"), "invalid finite automaton file: missing initial state");
    assert_eq!(message("a\n0\n0\n"), "invalid finite automaton file: missing final states");
    assert_eq!(message("a\n0\n0\n0\n"), "invalid finite automaton file: missing transitions");
    assert_eq!(message("ab\n0\n0\n0\n"), "invalid symbol 'a' in alphabet");
    assert_eq!(message("a \\s b a\n0\n0\n0\n"), "duplicate symbol 'a' in alphabet");
    assert_eq!(message("a\n0 x\n0\n0\n"), "invalid state 'x': invalid digit found in string");
    assert_eq!(
        message("a\n0 99999999999999999999999999\n0\n0\n"),
        "invalid state '99999999999999999999999999': number too large to fit in target type"
    );
    assert_eq!(message("a\n0 1 0\n0\n0\n"), "duplicate state '0' in set of states");
    assert_eq!(
        message("a\n0 1\n\n0\n"),
        "invalid initial state '': cannot parse integer from empty string"
    );
    assert_eq!(message("a\n0 1\n2\n0\n"), "initial state '2' not in set of states");
    assert_eq!(message("a\n0 1\n0\n1 -\n"), "invalid final state '-': invalid digit found in string");
    assert_eq!(message("a\n0 1\n0\n7\n"), "final state '7' not in set of states");
    assert_eq!(message("a\n0 1\n0\n1 1\n"), "duplicate final state '1'");
    assert_eq!(message("a\n0 1\n0\n1\n0 a\n"), "invalid transition: 0 a");
    assert_eq!(message("a\n0 1\n0\n1\nq a 1\n"), "invalid start state 'q': invalid digit found in string");
    assert_eq!(message("a\n0 1\n0\n1\n4 a 1\n"), "start state '4' not in set of states");
    assert_eq!(message("a\n0 1\n0\n1\n0 ab 1\n"), "invalid symbol 'ab' for transition '0 ab 1'");
    assert_eq!(
        message("a\n0 1\n0\n1\n0 b 1\n"),
        "character 'b' missing from alphabet for transition '0 b 1'"
    );
    assert_eq!(message("a\n0 1\n0\n1\n0 a z\n"), "invalid end state 'z': invalid digit found in string");
    assert_eq!(message("a\n0 1\n0\n1\n0 a 9\n"), "end state '9' not in set of states");
    assert_eq!(
        message("a\n0 1\n0\n1\n0 a 1\n0 a 0\n"),
        "duplicate transition key for transition '0 a 0'"
    );
    assert_eq!(message("a\n0 1 2\n0\n1\n0 a 1\n"), "unused state '2' in the set of states");
    assert!(matches!(Automaton::new("a\n0 1 2\n0\n1\n0 a 1\n"), Err(DfaError::UnusedState(2))));
    assert_eq!(message("a\r\n0 1\r\n0\r\n1\r\n0 a 1\r\n"), "accepted");
    assert_eq!(message("a\n+0 1\n0\n1\n0 a 1"), "accepted");
}

#[test]
fn first_values_of_states() {
    let state: State = NewState::new();
    assert_eq!(state, 0);
    let name: String = NewState::new();
    assert_eq!(name, "0");
    let symbol: char = NewState::new();
    assert_eq!(symbol, '0');
}
