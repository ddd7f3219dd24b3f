use olive::scanner::Scanner;
use olive::token::{Token, TokenKind};

fn letters() -> Vec<char> {
    let mut all: Vec<char> = ('a'..='z').collect();
    all.extend('A'..='Z');
    all
}

fn identifier_dfa() -> String {
    let symbols: Vec<String> = letters().iter().map(|c| c.to_string()).collect();
    let mut text = format!("{}\n0 1\n0\n1\n", symbols.join(" "));
    for symbol in &symbols {
        text.push_str(&format!("0 {} 1\n", symbol));
        text.push_str(&format!("1 {} 1\n", symbol));
    }
    text
}

fn number_dfa() -> String {
    let mut text = String::from("+ - 0 1 2 3 4 5 6 7 8 9\n0 1 2 3\n0\n2 3\n");
    text.push_str("0 0 2\n0 + 1\n0 - 1\n");
    for digit in 1..=9 {
        text.push_str(&format!("0 {} 3\n", digit));
        text.push_str(&format!("1 {} 3\n", digit));
    }
    for digit in 0..=9 {
        text.push_str(&format!("3 {} 3\n", digit));
    }
    text
}

fn plain_symbols() -> Vec<String> {
    let mut symbols: Vec<String> = letters().iter().map(|c| c.to_string()).collect();
    symbols.extend(('0'..='9').map(|c| c.to_string()));
    symbols.push(String::from("\\s"));
    for c in ['_', '.', ',', '!', '?', '-', '+'] {
        symbols.push(c.to_string());
    }
    symbols
}

fn string_dfa() -> String {
    let plain = plain_symbols();
    let mut alphabet = plain.clone();
    alphabet.push(String::from("\""));
    alphabet.push(String::from("\\"));
    alphabet.push(String::from("'"));
    let mut text = format!("{}\n0 1 2 3\n0\n3\n", alphabet.join(" "));
    text.push_str("0 \" 1\n1 \" 3\n1 \\ 2\n2 \" 1\n2 \\ 1\n1 ' 1\n");
    for symbol in &plain {
        text.push_str(&format!("1 {} 1\n", symbol));
    }
    text
}

fn char_dfa() -> String {
    let plain = plain_symbols();
    let mut alphabet = plain.clone();
    alphabet.push(String::from("\""));
    alphabet.push(String::from("\\"));
    alphabet.push(String::from("'"));
    let mut text = format!("{}\n0 1 2 3 4\n0\n4\n", alphabet.join(" "));
    text.push_str("0 ' 1\n1 \\ 3\n3 ' 2\n3 \\ 2\n2 ' 4\n1 \" 2\n");
    for symbol in &plain {
        text.push_str(&format!("1 {} 2\n", symbol));
    }
    text
}

fn scanner() -> Scanner {
    Scanner::new(&identifier_dfa(), &number_dfa(), &char_dfa(), &string_dfa()).unwrap()
}

fn kinds(scanner: &Scanner) -> Vec<(TokenKind, usize)> {
    scanner.get_token_list().iter().map(|t| (t.get_kind(), t.value())).collect()
}

fn lexemes(scanner: &Scanner) -> Vec<String> {
    scanner.get_token_list().iter().map(|t| String::from(t.get_inner())).collect()
}

#[test]
fn scan_number_declaration() {
    let mut scanner = scanner();
    scanner.scan("number n = 42");
    assert_eq!(
        kinds(&scanner),
        vec![
            (TokenKind::KeywordNumber, 0),
            (TokenKind::Identifier, 1),
            (TokenKind::Assign, 0),
            (TokenKind::Constant, 1),
        ]
    );
    assert_eq!(lexemes(&scanner), vec!["number", "n", "=", "42"]);
    assert_eq!(scanner.get_identifier_table().len(), 1);
    assert_eq!(scanner.get_identifier_table().get(&1), Some(&String::from("n")));
    assert_eq!(scanner.get_constant_table().len(), 1);
    assert_eq!(scanner.get_constant_table().get(&1), Some(&String::from("42")));
    assert_eq!(scanner.get_result(), "Lexically correct!");
}

#[test]
fn scan_string_declaration() {
    let mut scanner = scanner();
    scanner.scan("s: string = \"abc\"");
    assert_eq!(
        kinds(&scanner),
        vec![
            (TokenKind::Identifier, 1),
            (TokenKind::Colon, 0),
            (TokenKind::KeywordString, 0),
            (TokenKind::Assign, 0),
            (TokenKind::Constant, 1),
        ]
    );
    assert_eq!(lexemes(&scanner), vec!["s", ":", "string", "=", "\"abc\""]);
    assert_eq!(scanner.get_constant_table().get(&1), Some(&String::from("\"abc\"")));
}

#[test]
fn scan_condition_with_signed_number() {
    let mut scanner = scanner();
    scanner.scan("if x <= 0 { y = -1 }");
    assert_eq!(
        kinds(&scanner),
        vec![
            (TokenKind::KeywordIf, 0),
            (TokenKind::Identifier, 1),
            (TokenKind::LessEqual, 0),
            (TokenKind::Constant, 1),
            (TokenKind::BraceOpen, 0),
            (TokenKind::Identifier, 2),
            (TokenKind::Assign, 0),
            (TokenKind::Constant, 2),
            (TokenKind::BraceClose, 0),
        ]
    );
    assert_eq!(lexemes(&scanner)[7], "-1");
    assert_eq!(scanner.get_result(), "Lexically correct!");
}

#[test]
fn scan_reports_the_first_undefined_token() {
    let mut scanner = scanner();
    scanner.scan("const 2a: number = 1");
    assert_eq!(scanner.get_result(), "Lexical error on line 1 => undefined token: 2a");
    assert_eq!(kinds(&scanner), vec![(TokenKind::Identifier, 1)]);
    assert_eq!(lexemes(&scanner), vec!["const"]);
}

#[test]
fn longest_operator_wins() {
    let mut scanner = scanner();
    scanner.scan("<=");
    assert_eq!(kinds(&scanner), vec![(TokenKind::LessEqual, 0)]);
    assert_eq!(lexemes(&scanner), vec!["<="]);
    scanner.scan("< = == != >= > && || ! = =");
    assert_eq!(
        kinds(&scanner).iter().map(|k| k.0).collect::<Vec<TokenKind>>(),
        vec![
            TokenKind::Less,
            TokenKind::Assign,
            TokenKind::Equal,
            TokenKind::NotEqual,
            TokenKind::GreaterEqual,
            TokenKind::Greater,
            TokenKind::And,
            TokenKind::Or,
        ]
    );
    assert_eq!(scanner.get_result(), "Lexical error on line 1 => undefined token: !");
}

#[test]
fn plus_and_minus_before_a_digit_start_a_number() {
    let mut scanner = scanner();
    scanner.scan("a + b - c +12 -0 x");
    assert_eq!(
        kinds(&scanner),
        vec![
            (TokenKind::Identifier, 1),
            (TokenKind::Plus, 0),
            (TokenKind::Identifier, 2),
            (TokenKind::Minus, 0),
            (TokenKind::Identifier, 3),
            (TokenKind::Constant, 1),
        ]
    );
    assert_eq!(scanner.get_result(), "Lexical error on line 1 => undefined token: -0");
}

#[test]
fn lines_are_counted_and_a_comment_is_passed() {
    let mut scanner = scanner();
    scanner.scan("a\n\n-- a comment with 2a in it\n  b\r\n  2a");
    assert_eq!(scanner.get_result(), "Lexical error on line 5 => undefined token: 2a");
    assert_eq!(lexemes(&scanner), vec!["a", "b"]);
    scanner.scan("-- first\n-- second\nx");
    assert_eq!(
        kinds(&scanner),
        vec![
            (TokenKind::Minus, 0),
            (TokenKind::Minus, 0),
            (TokenKind::Identifier, 1),
            (TokenKind::Identifier, 2),
        ]
    );
    assert_eq!(lexemes(&scanner), vec!["-", "-", "second", "x"]);
}

#[test]
fn repeated_names_keep_their_index_and_every_lexeme_is_a_slice() {
    let source = "x = y * x % 10 / y ; z [ 10 ] , ( 'c' \"s\" 'c' )";
    let mut scanner = scanner();
    scanner.scan(source);
    assert_eq!(scanner.get_result(), "Lexically correct!");
    let positions: Vec<usize> = scanner.get_token_list().iter().map(|t| t.value()).collect();
    assert_eq!(positions, vec![1, 0, 2, 0, 1, 0, 1, 0, 2, 0, 3, 0, 1, 0, 0, 0, 2, 3, 2, 0]);
    let mut from = 0;
    for token in scanner.get_token_list() {
        let at = source[from..].find(token.get_inner()).unwrap();
        from += at + token.get_inner().len();
        match token.get_kind() {
            TokenKind::Identifier => assert_eq!(
                scanner.get_identifier_table().get(&token.value()).map(|s| s.as_str()),
                Some(token.get_inner())
            ),
            TokenKind::Constant => assert_eq!(
                scanner.get_constant_table().get(&token.value()).map(|s| s.as_str()),
                Some(token.get_inner())
            ),
            _ => assert_eq!(token.value(), 0),
        }
    }
    assert_eq!(scanner.get_identifier_table().len(), 3);
    assert_eq!(scanner.get_constant_table().len(), 3);
}

#[test]
fn unterminated_literal_is_an_undefined_token() {
    let mut scanner = scanner();
    scanner.scan("a = \"abc");
    assert_eq!(scanner.get_result(), "Lexical error on line 1 => undefined token: \"abc");
    scanner.scan("'ab'");
    assert_eq!(scanner.get_result(), "Lexical error on line 1 => undefined token: 'ab'");
    scanner.scan("");
    assert_eq!(scanner.get_result(), "Lexically correct!");
    assert_eq!(scanner.get_token_list().len(), 0);
}

#[test]
fn report_lists_tokens_and_tables() {
    let mut scanner = scanner();
    scanner.scan("number n = 42");
    assert_eq!(
        scanner.write_result(),
        "Token list:\n(26,  0)\n( 1,  1)\n( 8,  0)\n( 2,  1)\nToken list size: 4\n\n\
         Identifier table:\nK: n, V: 1\nIdentifier table size: 1\n\n\
         Constant table:\nK: 42, V: 1\nConstant table size: 1\n\nLexically correct!\n"
    );
    scanner.scan("?");
    assert_eq!(
        scanner.write_result(),
        "Token list:\n\nToken list size: 0\n\nIdentifier table:\nIdentifier table size: 0\n\n\
         Constant table:\nConstant table size: 0\n\n\
         Lexical error on line 1 => undefined token: ?\n"
    );
}

#[test]
fn faulty_automaton_is_named() {
    let error = Scanner::new(&identifier_dfa(), "0 1\n1\n0\n1\n1 0 1", &char_dfa(), &string_dfa());
    match error {
        Ok(_) => panic!("accepted"),
        Err(e) => assert_eq!(e.to_string(), "[number] initial state '0' not in set of states"),
    }
}

#[test]
fn tokens_and_kinds() {
    let mut token = Token::new(TokenKind::Plus, "+");
    assert_eq!(token.get_kind(), TokenKind::Plus);
    assert_eq!(token.get_inner(), "+");
    assert_eq!(token.key(), 3);
    assert_eq!(token.value(), 0);
    token.set_position(7);
    assert_eq!(token.value(), 7);
    assert_eq!(Token::unknown("x").get_kind(), TokenKind::Unknown);
    assert_eq!(Token::unknown("x").key(), 0);
    assert_eq!(TokenKind::from("while"), TokenKind::KeywordWhile);
    assert_eq!(TokenKind::from("||"), TokenKind::Or);
    assert_eq!(TokenKind::from("whale"), TokenKind::Unknown);
    assert_eq!(Token::new(TokenKind::EOF, "$").key(), 35);
    let scanner = scanner();
    let mut word = Token::unknown("else");
    word.classify(scanner.get_automata());
    assert_eq!(word.get_kind(), TokenKind::KeywordElse);
    let mut name = Token::unknown("elsewhere");
    name.classify(scanner.get_automata());
    assert_eq!(name.get_kind(), TokenKind::Identifier);
    let mut number = Token::unknown("-12");
    number.classify(scanner.get_automata());
    assert_eq!(number.get_kind(), TokenKind::Constant);
    let mut kept = Token::new(TokenKind::Comma, "abc");
    kept.classify(scanner.get_automata());
    assert_eq!(kept.get_kind(), TokenKind::Comma);
    assert_eq!(scanner.get_automata().classify("'x'"), TokenKind::Constant);
    assert_eq!(scanner.get_automata().classify("\"x y\""), TokenKind::Constant);
    assert_eq!(scanner.get_automata().classify("x1"), TokenKind::Unknown);
}

#[test]
fn literals_by_pattern() {
    let scanner = scanner();
    let automata = scanner.get_automata();
    assert_eq!(automata.classify_by_pattern("\"abc\""), TokenKind::Constant);
    assert_eq!(automata.classify_by_pattern("\"\""), TokenKind::Constant);
    assert_eq!(automata.classify_by_pattern("\"a\nb\""), TokenKind::Constant);
    assert_eq!(automata.classify_by_pattern("'x'"), TokenKind::Constant);
    assert_eq!(automata.classify_by_pattern("'é'"), TokenKind::Constant);
    assert_eq!(automata.classify_by_pattern("'xy'"), TokenKind::Unknown);
    assert_eq!(automata.classify_by_pattern("'''"), TokenKind::Unknown);
    assert_eq!(automata.classify_by_pattern("\"a\"b\""), TokenKind::Unknown);
    assert_eq!(automata.classify_by_pattern("\"abc"), TokenKind::Unknown);
    assert_eq!(automata.classify_by_pattern("x \"abc\""), TokenKind::Unknown);
    assert_eq!(automata.classify_by_pattern("\"abc\"\n"), TokenKind::Unknown);
    assert_eq!(automata.classify_by_pattern("abc"), TokenKind::Identifier);
    assert_eq!(automata.classify_by_pattern("+12"), TokenKind::Constant);
    assert_eq!(automata.classify_by_pattern("012"), TokenKind::Unknown);
    assert_eq!(automata.classify_by_pattern(""), TokenKind::Unknown);
}
