use crate::automaton::{dfa_of, fault_message, Automaton, Dfa, DfaError, DfaFault};
use crate::text::{chars_of, lines_of};
use crate::token::TokenKind;
use vstd::prelude::*;

verus! {

/// The pattern of a string or character literal in its simplest form: a text
/// between double quotes that holds no double quote, or one character that
/// is no single quote between single quotes.
pub const LITERAL_PATTERN: &'static str = "^(\"[^\"]*\"|'[^']')$";

/// Whether the regular expression `pattern` has a match in `value`, or
/// `None` where `pattern` is no regular expression: what `Regex::new` and
/// `Regex::is_match` of the regex crate give for them.
pub uninterp spec fn pattern_match(pattern: Seq<char>, value: Seq<char>) -> Option<bool>;

/// `Regex::new`, then `Regex::is_match` of the regex crate: compiles
/// `pattern` and looks for a match anywhere in `value`. The contract names
/// the result, which the two arguments determine, and says nothing else of
/// it; `None` stands for a pattern that does not compile.
#[verifier::external_body]
fn pattern_matches(pattern: &str, value: &str) -> (r: Option<bool>)
    ensures
        r == pattern_match(pattern@, value@),
{
    match regex::Regex::new(pattern) {
        Ok(regex) => Some(regex.is_match(value)),
        Err(_) => None,
    }
}

/// The kind of a lexeme by its shape: an identifier if the automaton for
/// identifiers accepts it, a constant if the automaton for numbers accepts
/// it or the pattern of literals matches it, else unknown.
pub open spec fn shape_kind(identifier: bool, number: bool, literal: Option<bool>) -> TokenKind {
    if identifier {
        TokenKind::Identifier
    } else if number || literal == Some(true) {
        TokenKind::Constant
    } else {
        TokenKind::Unknown
    }
}

/// The kind of a lexeme by its shape.
pub fn kind_by_shape(identifier: bool, number: bool, literal: Option<bool>) -> (kind: TokenKind)
    ensures
        kind == shape_kind(identifier, number, literal),
{
    if identifier {
        TokenKind::Identifier
    } else if number {
        TokenKind::Constant
    } else {
        match literal {
            Some(true) => TokenKind::Constant,
            _ => TokenKind::Unknown,
        }
    }
}

/// The four automata of the scanner, by what they recognise.
#[derive(Clone, Copy, Debug, PartialEq, Eq, Structural)]
pub enum Shape {
    Identifier,
    Number,
    Chr,
    Str,
}

impl Shape {
    /// The shape's name.
    pub open spec fn text(self) -> Seq<char> {
        match self {
            Shape::Identifier => "identifier"@,
            Shape::Number => "number"@,
            Shape::Chr => "char"@,
            Shape::Str => "string"@,
        }
    }

    /// The shape's name.
    pub fn describe(&self) -> (s: &'static str)
        ensures
            s@ == self.text(),
    {
        match self {
            Shape::Identifier => "identifier",
            Shape::Number => "number",
            Shape::Chr => "char",
            Shape::Str => "string",
        }
    }
}

/// The definition of one of the scanner's automata is at fault.
#[derive(Debug)]
pub struct AutomataError {
    pub shape: Shape,
    pub error: DfaError,
}

impl AutomataError {
    /// The error as a message: the shape's name in brackets, then the fault.
    pub fn to_string(&self) -> (s: String)
        ensures
            s@ == "["@ + self.shape.text() + "] "@ + fault_message(self.error@),
    {
        let mut s = String::from_str("[");
        s.append(self.shape.describe());
        s.append("] ");
        let message = self.error.to_string();
        s.append(message.as_str());
        s
    }
}

/// The automata that tell identifiers and literals by their shape.
pub struct Automata {
    is_identifier: Automaton,
    is_number: Automaton,
    is_char: Automaton,
    is_string: Automaton,
}

/// What the definitions of the four automata give: the automata, or the
/// first faulty definition with its fault.
pub open spec fn automata_of(
    identifier: Seq<char>,
    number: Seq<char>,
    character: Seq<char>,
    string: Seq<char>,
) -> Result<(Dfa, Dfa, Dfa, Dfa), (Shape, DfaFault)> {
    match dfa_of(lines_of(identifier)) {
        Err(e) => Err((Shape::Identifier, e)),
        Ok(i) => match dfa_of(lines_of(number)) {
            Err(e) => Err((Shape::Number, e)),
            Ok(n) => match dfa_of(lines_of(character)) {
                Err(e) => Err((Shape::Chr, e)),
                Ok(c) => match dfa_of(lines_of(string)) {
                    Err(e) => Err((Shape::Str, e)),
                    Ok(s) => Ok((i, n, c, s)),
                },
            },
        },
    }
}

impl Automata {
    /// The four automata as mathematical objects: for identifiers, numbers,
    /// character literals and string literals.
    pub closed spec fn model(&self) -> (Dfa, Dfa, Dfa, Dfa) {
        (
            self.is_identifier.model(),
            self.is_number.model(),
            self.is_char.model(),
            self.is_string.model(),
        )
    }

    /// The invariant: each automaton is well formed.
    pub closed spec fn wf(&self) -> bool {
        &&& self.is_identifier.wf()
        &&& self.is_number.wf()
        &&& self.is_char.wf()
        &&& self.is_string.wf()
    }

    /// The kind that the automata give a lexeme: an identifier if the first
    /// accepts it, a constant if one of the others does, else unknown.
    pub open spec fn kind_of(&self, value: Seq<char>) -> TokenKind {
        if self.model().0.accepts(value) {
            TokenKind::Identifier
        } else if self.model().1.accepts(value) || self.model().2.accepts(value)
            || self.model().3.accepts(value) {
            TokenKind::Constant
        } else {
            TokenKind::Unknown
        }
    }

    /// Builds the four automata from the texts of their definitions.
    pub fn new(identifier: &str, number: &str, character: &str, string: &str) -> (r: Result<
        Automata,
        AutomataError,
    >)
        requires
            identifier@.len() < usize::MAX / 2,
            number@.len() < usize::MAX / 2,
            character@.len() < usize::MAX / 2,
            string@.len() < usize::MAX / 2,
        ensures
            match r {
                Ok(automata) => automata.wf() && automata_of(
                    identifier@,
                    number@,
                    character@,
                    string@,
                ) == Ok::<(Dfa, Dfa, Dfa, Dfa), (Shape, DfaFault)>(automata.model()),
                Err(e) => automata_of(identifier@, number@, character@, string@) == Err::<
                    (Dfa, Dfa, Dfa, Dfa),
                    (Shape, DfaFault),
                >((e.shape, e.error@)),
            },
    {
        let is_identifier = match Automaton::new(identifier) {
            Ok(automaton) => automaton,
            Err(error) => {
                return Err(AutomataError { shape: Shape::Identifier, error });
            },
        };
        let is_number = match Automaton::new(number) {
            Ok(automaton) => automaton,
            Err(error) => {
                return Err(AutomataError { shape: Shape::Number, error });
            },
        };
        let is_char = match Automaton::new(character) {
            Ok(automaton) => automaton,
            Err(error) => {
                return Err(AutomataError { shape: Shape::Chr, error });
            },
        };
        let is_string = match Automaton::new(string) {
            Ok(automaton) => automaton,
            Err(error) => {
                return Err(AutomataError { shape: Shape::Str, error });
            },
        };
        Ok(Automata { is_identifier, is_number, is_char, is_string })
    }

    fn is_identifier(&self, value: &Vec<char>) -> (b: bool)
        requires
            self.wf(),
        ensures
            b == self.model().0.accepts(value@),
    {
        self.is_identifier.accepts(value)
    }

    fn is_number(&self, value: &Vec<char>) -> (b: bool)
        requires
            self.wf(),
        ensures
            b == self.model().1.accepts(value@),
    {
        self.is_number.accepts(value)
    }

    fn is_char(&self, value: &Vec<char>) -> (b: bool)
        requires
            self.wf(),
        ensures
            b == self.model().2.accepts(value@),
    {
        self.is_char.accepts(value)
    }

    fn is_string(&self, value: &Vec<char>) -> (b: bool)
        requires
            self.wf(),
        ensures
            b == self.model().3.accepts(value@),
    {
        self.is_string.accepts(value)
    }

    /// The kind that the automata give the lexeme `value`.
    pub fn classify_text(&self, value: &Vec<char>) -> (kind: TokenKind)
        requires
            self.wf(),
        ensures
            kind == self.kind_of(value@),
    {
        if self.is_identifier(value) {
            TokenKind::Identifier
        } else if self.is_number(value) {
            TokenKind::Constant
        } else if self.is_char(value) {
            TokenKind::Constant
        } else if self.is_string(value) {
            TokenKind::Constant
        } else {
            TokenKind::Unknown
        }
    }

    /// The kind of the lexeme `value` by the automata for identifiers and
    /// numbers and by the pattern of literals.
    pub fn classify_by_pattern(&self, value: &str) -> (kind: TokenKind)
        requires
            self.wf(),
        ensures
            kind == shape_kind(
                self.model().0.accepts(value@),
                self.model().1.accepts(value@),
                pattern_match(LITERAL_PATTERN@, value@),
            ),
    {
        let text = chars_of(value);
        let identifier = self.is_identifier(&text);
        let number = self.is_number(&text);
        let literal = pattern_matches(LITERAL_PATTERN, value);
        kind_by_shape(identifier, number, literal)
    }

    /// The kind that the automata give the lexeme `value`.
    pub fn classify(&self, value: &str) -> (kind: TokenKind)
        requires
            self.wf(),
        ensures
            kind == self.kind_of(value@),
    {
        let text = chars_of(value);
        self.classify_text(&text)
    }
}

} // verus!
