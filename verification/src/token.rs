use crate::automata::Automata;
use crate::text::{chars_of, string_of};
use vstd::prelude::*;

verus! {

/// The kinds of tokens.
#[derive(Clone, Copy, PartialEq, Eq, Structural, Hash, Debug)]
pub enum TokenKind {
    Unknown,
    Identifier,
    Constant,
    Plus,
    Minus,
    Multiply,
    Divide,
    Modulo,
    Assign,
    Equal,
    NotEqual,
    Less,
    Greater,
    LessEqual,
    GreaterEqual,
    And,
    Or,
    ParenOpen,
    ParenClose,
    BracketOpen,
    BracketClose,
    BraceOpen,
    BraceClose,
    Colon,
    SemiColon,
    Comma,
    KeywordNumber,
    KeywordChar,
    KeywordString,
    KeywordArray,
    KeywordInput,
    KeywordOutput,
    KeywordIf,
    KeywordElse,
    KeywordWhile,
    EOF,
}

/// Whether the text `v` is the text of `word`.
pub fn text_is(v: &Vec<char>, word: &str) -> (same: bool)
    ensures
        same == (v@ == word@),
{
    let mut i: usize = 0;
    for c in it: word.chars()
        invariant
            it.seq() == word@,
            i == it.index(),
            i <= v.len(),
            forall|j: int| 0 <= j < i ==> v@[j] == word@[j],
    {
        if i >= v.len() {
            return false;
        }
        if v[i] != c {
            return false;
        }
        i += 1;
    }
    if i == v.len() {
        proof {
            assert(v@ =~= word@);
        }
        true
    } else {
        false
    }
}

/// The kind of an operator, a separator or a keyword, by its text.
pub open spec fn reserved_kind(s: Seq<char>) -> Option<TokenKind> {
    if s == "+"@ {
        Some(TokenKind::Plus)
    } else if s == "-"@ {
        Some(TokenKind::Minus)
    } else if s == "*"@ {
        Some(TokenKind::Multiply)
    } else if s == "/"@ {
        Some(TokenKind::Divide)
    } else if s == "%"@ {
        Some(TokenKind::Modulo)
    } else if s == "="@ {
        Some(TokenKind::Assign)
    } else if s == "=="@ {
        Some(TokenKind::Equal)
    } else if s == "!="@ {
        Some(TokenKind::NotEqual)
    } else if s == "<"@ {
        Some(TokenKind::Less)
    } else if s == ">"@ {
        Some(TokenKind::Greater)
    } else if s == "<="@ {
        Some(TokenKind::LessEqual)
    } else if s == ">="@ {
        Some(TokenKind::GreaterEqual)
    } else if s == "&&"@ {
        Some(TokenKind::And)
    } else if s == "||"@ {
        Some(TokenKind::Or)
    } else if s == "("@ {
        Some(TokenKind::ParenOpen)
    } else if s == ")"@ {
        Some(TokenKind::ParenClose)
    } else if s == "["@ {
        Some(TokenKind::BracketOpen)
    } else if s == "]"@ {
        Some(TokenKind::BracketClose)
    } else if s == "{"@ {
        Some(TokenKind::BraceOpen)
    } else if s == "}"@ {
        Some(TokenKind::BraceClose)
    } else if s == ":"@ {
        Some(TokenKind::Colon)
    } else if s == ";"@ {
        Some(TokenKind::SemiColon)
    } else if s == ","@ {
        Some(TokenKind::Comma)
    } else if s == "number"@ {
        Some(TokenKind::KeywordNumber)
    } else if s == "char"@ {
        Some(TokenKind::KeywordChar)
    } else if s == "string"@ {
        Some(TokenKind::KeywordString)
    } else if s == "array"@ {
        Some(TokenKind::KeywordArray)
    } else if s == "input"@ {
        Some(TokenKind::KeywordInput)
    } else if s == "output"@ {
        Some(TokenKind::KeywordOutput)
    } else if s == "if"@ {
        Some(TokenKind::KeywordIf)
    } else if s == "else"@ {
        Some(TokenKind::KeywordElse)
    } else if s == "while"@ {
        Some(TokenKind::KeywordWhile)
    } else {
        None
    }
}

/// The kind of an operator, a separator or a keyword, by its text.
pub fn reserved(v: &Vec<char>) -> (kind: Option<TokenKind>)
    ensures
        kind == reserved_kind(v@),
{
    if text_is(v, "+") {
        Some(TokenKind::Plus)
    } else if text_is(v, "-") {
        Some(TokenKind::Minus)
    } else if text_is(v, "*") {
        Some(TokenKind::Multiply)
    } else if text_is(v, "/") {
        Some(TokenKind::Divide)
    } else if text_is(v, "%") {
        Some(TokenKind::Modulo)
    } else if text_is(v, "=") {
        Some(TokenKind::Assign)
    } else if text_is(v, "==") {
        Some(TokenKind::Equal)
    } else if text_is(v, "!=") {
        Some(TokenKind::NotEqual)
    } else if text_is(v, "<") {
        Some(TokenKind::Less)
    } else if text_is(v, ">") {
        Some(TokenKind::Greater)
    } else if text_is(v, "<=") {
        Some(TokenKind::LessEqual)
    } else if text_is(v, ">=") {
        Some(TokenKind::GreaterEqual)
    } else if text_is(v, "&&") {
        Some(TokenKind::And)
    } else if text_is(v, "||") {
        Some(TokenKind::Or)
    } else if text_is(v, "(") {
        Some(TokenKind::ParenOpen)
    } else if text_is(v, ")") {
        Some(TokenKind::ParenClose)
    } else if text_is(v, "[") {
        Some(TokenKind::BracketOpen)
    } else if text_is(v, "]") {
        Some(TokenKind::BracketClose)
    } else if text_is(v, "{") {
        Some(TokenKind::BraceOpen)
    } else if text_is(v, "}") {
        Some(TokenKind::BraceClose)
    } else if text_is(v, ":") {
        Some(TokenKind::Colon)
    } else if text_is(v, ";") {
        Some(TokenKind::SemiColon)
    } else if text_is(v, ",") {
        Some(TokenKind::Comma)
    } else if text_is(v, "number") {
        Some(TokenKind::KeywordNumber)
    } else if text_is(v, "char") {
        Some(TokenKind::KeywordChar)
    } else if text_is(v, "string") {
        Some(TokenKind::KeywordString)
    } else if text_is(v, "array") {
        Some(TokenKind::KeywordArray)
    } else if text_is(v, "input") {
        Some(TokenKind::KeywordInput)
    } else if text_is(v, "output") {
        Some(TokenKind::KeywordOutput)
    } else if text_is(v, "if") {
        Some(TokenKind::KeywordIf)
    } else if text_is(v, "else") {
        Some(TokenKind::KeywordElse)
    } else if text_is(v, "while") {
        Some(TokenKind::KeywordWhile)
    } else {
        None
    }
}

impl TokenKind {
    /// The kind's number: its place in the list of kinds, from 0.
    pub open spec fn index(self) -> usize {
        match self {
            TokenKind::Unknown => 0,
            TokenKind::Identifier => 1,
            TokenKind::Constant => 2,
            TokenKind::Plus => 3,
            TokenKind::Minus => 4,
            TokenKind::Multiply => 5,
            TokenKind::Divide => 6,
            TokenKind::Modulo => 7,
            TokenKind::Assign => 8,
            TokenKind::Equal => 9,
            TokenKind::NotEqual => 10,
            TokenKind::Less => 11,
            TokenKind::Greater => 12,
            TokenKind::LessEqual => 13,
            TokenKind::GreaterEqual => 14,
            TokenKind::And => 15,
            TokenKind::Or => 16,
            TokenKind::ParenOpen => 17,
            TokenKind::ParenClose => 18,
            TokenKind::BracketOpen => 19,
            TokenKind::BracketClose => 20,
            TokenKind::BraceOpen => 21,
            TokenKind::BraceClose => 22,
            TokenKind::Colon => 23,
            TokenKind::SemiColon => 24,
            TokenKind::Comma => 25,
            TokenKind::KeywordNumber => 26,
            TokenKind::KeywordChar => 27,
            TokenKind::KeywordString => 28,
            TokenKind::KeywordArray => 29,
            TokenKind::KeywordInput => 30,
            TokenKind::KeywordOutput => 31,
            TokenKind::KeywordIf => 32,
            TokenKind::KeywordElse => 33,
            TokenKind::KeywordWhile => 34,
            TokenKind::EOF => 35,
        }
    }

    /// The kind's number.
    pub fn number(self) -> (n: usize)
        ensures
            n == self.index(),
    {
        match self {
            TokenKind::Unknown => 0,
            TokenKind::Identifier => 1,
            TokenKind::Constant => 2,
            TokenKind::Plus => 3,
            TokenKind::Minus => 4,
            TokenKind::Multiply => 5,
            TokenKind::Divide => 6,
            TokenKind::Modulo => 7,
            TokenKind::Assign => 8,
            TokenKind::Equal => 9,
            TokenKind::NotEqual => 10,
            TokenKind::Less => 11,
            TokenKind::Greater => 12,
            TokenKind::LessEqual => 13,
            TokenKind::GreaterEqual => 14,
            TokenKind::And => 15,
            TokenKind::Or => 16,
            TokenKind::ParenOpen => 17,
            TokenKind::ParenClose => 18,
            TokenKind::BracketOpen => 19,
            TokenKind::BracketClose => 20,
            TokenKind::BraceOpen => 21,
            TokenKind::BraceClose => 22,
            TokenKind::Colon => 23,
            TokenKind::SemiColon => 24,
            TokenKind::Comma => 25,
            TokenKind::KeywordNumber => 26,
            TokenKind::KeywordChar => 27,
            TokenKind::KeywordString => 28,
            TokenKind::KeywordArray => 29,
            TokenKind::KeywordInput => 30,
            TokenKind::KeywordOutput => 31,
            TokenKind::KeywordIf => 32,
            TokenKind::KeywordElse => 33,
            TokenKind::KeywordWhile => 34,
            TokenKind::EOF => 35,
        }
    }

    /// The kind that the text `inner` stands for by itself: that of an
    /// operator, a separator or a keyword, else `Unknown`.
    pub fn from(inner: &str) -> (kind: TokenKind)
        ensures
            kind == match reserved_kind(inner@) {
                Some(k) => k,
                None => TokenKind::Unknown,
            },
    {
        let text = chars_of(inner);
        match reserved(&text) {
            Some(kind) => kind,
            None => TokenKind::Unknown,
        }
    }
}

/// A token as a mathematical value.
pub struct TokenView {
    pub kind: TokenKind,
    pub inner: Seq<char>,
    pub position: usize,
}

/// A token: its kind, its lexeme, and its index in the table of identifiers
/// or of constants if it is one, else 0.
#[derive(Clone, PartialEq, Eq, Hash, Debug)]
pub struct Token {
    kind: TokenKind,
    inner: String,
    position: usize,
}

impl View for Token {
    type V = TokenView;

    closed spec fn view(&self) -> TokenView {
        TokenView { kind: self.kind, inner: self.inner@, position: self.position }
    }
}

impl Token {
    /// A token of the given kind and lexeme, at position 0.
    pub fn new(kind: TokenKind, inner: &str) -> (token: Token)
        ensures
            token@ == (TokenView { kind, inner: inner@, position: 0 }),
    {
        Token { kind, inner: String::from_str(inner), position: 0 }
    }

    /// A token of the given kind and lexeme, at position 0.
    pub fn of_text(kind: TokenKind, inner: &Vec<char>) -> (token: Token)
        ensures
            token@ == (TokenView { kind, inner: inner@, position: 0 }),
    {
        Token { kind, inner: string_of(inner), position: 0 }
    }

    /// A token of unknown kind.
    pub fn unknown(inner: &str) -> (token: Token)
        ensures
            token@ == (TokenView { kind: TokenKind::Unknown, inner: inner@, position: 0 }),
    {
        Self::new(TokenKind::Unknown, inner)
    }

    /// A copy of the token.
    pub fn duplicate(&self) -> (token: Token)
        ensures
            token@ == self@,
    {
        Token { kind: self.kind, inner: self.inner.clone(), position: self.position }
    }

    /// The token's kind.
    pub fn get_kind(&self) -> (kind: TokenKind)
        ensures
            kind == self@.kind,
    {
        self.kind
    }

    /// The token's lexeme.
    pub fn get_inner(&self) -> (inner: &str)
        ensures
            inner@ == self@.inner,
    {
        self.inner.as_str()
    }

    /// The number of the token's kind.
    pub fn key(&self) -> (n: usize)
        ensures
            n == self@.kind.index(),
    {
        self.kind.number()
    }

    /// The token's position in its table.
    pub fn value(&self) -> (position: usize)
        ensures
            position == self@.position,
    {
        self.position
    }

    /// Gives the token its position in its table.
    pub fn set_position(&mut self, position: usize)
        ensures
            final(self)@ == (TokenView { position, ..old(self)@ }),
    {
        self.position = position;
    }

    /// Gives a token of unknown kind the kind of its lexeme: that of the
    /// operator, separator or keyword it is, else what the automata say.
    pub fn classify(&mut self, automata: &Automata)
        requires
            automata.wf(),
        ensures
            final(self)@ == (TokenView {
                kind: if old(self)@.kind != TokenKind::Unknown {
                    old(self)@.kind
                } else {
                    lexeme_kind(old(self)@.inner, automata)
                },
                ..old(self)@
            }),
    {
        if self.kind != TokenKind::Unknown {
            return ;
        }
        let text = chars_of(self.inner.as_str());
        self.kind = classify_text(&text, automata);
    }
}

/// The kind of a lexeme: that of the operator, separator or keyword it is,
/// else what the automata say.
pub open spec fn lexeme_kind(inner: Seq<char>, automata: &Automata) -> TokenKind {
    match reserved_kind(inner) {
        Some(kind) => kind,
        None => automata.kind_of(inner),
    }
}

/// The kind of the lexeme `text`.
pub fn classify_text(text: &Vec<char>, automata: &Automata) -> (kind: TokenKind)
    requires
        automata.wf(),
    ensures
        kind == lexeme_kind(text@, automata),
{
    match reserved(text) {
        Some(kind) => kind,
        None => automata.classify_text(text),
    }
}

} // verus!
