use crate::automata::{automata_of, Automata, AutomataError, Shape};
use crate::automaton::{Dfa, DfaFault};
use crate::table::Table;
use crate::text::{
    append_number, chars_of, decimal, is_ascii_digit, is_digit, is_space, is_whitespace, slice_of,
    string_of,
};
use crate::token::{classify_text, lexeme_kind, Token, TokenKind, TokenView};
use crate::writer::{report_text, write_scan_result};
use vstd::prelude::*;

verus! {

/// The character that stands for the end of the program.
pub const EOF_CHAR: char = '\0';

/// Whether Unicode counts `c` as a letter or a number: what
/// `char::is_alphanumeric` returns for it.
pub uninterp spec fn alphanumeric(c: char) -> bool;

/// `char::is_alphanumeric`: whether Unicode counts `c` as alphabetic or
/// numeric. The contract names the result and says nothing else of it.
#[verifier::external_body]
fn is_alphanumeric(c: char) -> (b: bool)
    ensures
        b == alphanumeric(c),
{
    c.is_alphanumeric()
}

/// The character at position `p` of `s`, or the end marker past the end.
pub open spec fn char_at(s: Seq<char>, p: int) -> char {
    if 0 <= p < s.len() {
        s[p]
    } else {
        EOF_CHAR
    }
}

/// The first position at or after `p` that holds no white space.
pub open spec fn spaces_end(s: Seq<char>, p: int) -> int
    decreases s.len() - p,
{
    if p < 0 || p >= s.len() || !is_space(s[p]) {
        p
    } else {
        spaces_end(s, p + 1)
    }
}

/// The end of a line comment: the first position at or after `p` that holds
/// a line feed or the end marker, or the end of the program.
pub open spec fn comment_end(s: Seq<char>, p: int) -> int
    decreases s.len() - p,
{
    if p < 0 || p >= s.len() || s[p] == '\n' || s[p] == EOF_CHAR {
        p
    } else {
        comment_end(s, p + 1)
    }
}

/// The number of line feeds in `s[from..to]`.
pub open spec fn newlines(s: Seq<char>, from: int, to: int) -> nat
    decreases to - from,
{
    if to <= from || to > s.len() || from < 0 {
        0
    } else {
        newlines(s, from, to - 1) + if s[to - 1] == '\n' {
            1nat
        } else {
            0nat
        }
    }
}

/// Whether a line comment starts at `p`.
pub open spec fn comment_at(s: Seq<char>, p: int) -> bool {
    char_at(s, p) == '-' && char_at(s, p + 1) == '-'
}

/// Where the next token starts: after white space, then after one line
/// comment and the white space behind it, if a comment stands there.
pub open spec fn blank_end(s: Seq<char>, p: int) -> int {
    let a = spaces_end(s, p);
    if comment_at(s, a) {
        spaces_end(s, comment_end(s, a))
    } else {
        a
    }
}

/// The number of line feeds passed between `p` and the start of the next
/// token.
pub open spec fn blank_lines(s: Seq<char>, p: int) -> nat {
    let a = spaces_end(s, p);
    if comment_at(s, a) {
        newlines(s, p, a) + newlines(s, comment_end(s, a), spaces_end(s, comment_end(s, a)))
    } else {
        newlines(s, p, a)
    }
}

/// The kind that the first character of a token gives it, with the character
/// after it: an operator or a separator, `Constant` for a quote, `Unknown`
/// for what has to be read further. A sign before a digit starts a number.
pub open spec fn head_kind(c: char, next: char) -> TokenKind {
    if c == '+' {
        if is_digit(next) {
            TokenKind::Unknown
        } else {
            TokenKind::Plus
        }
    } else if c == '-' {
        if is_digit(next) {
            TokenKind::Unknown
        } else {
            TokenKind::Minus
        }
    } else if c == '*' {
        TokenKind::Multiply
    } else if c == '/' {
        TokenKind::Divide
    } else if c == '%' {
        TokenKind::Modulo
    } else if c == '=' {
        if next == '=' {
            TokenKind::Equal
        } else {
            TokenKind::Assign
        }
    } else if c == '!' {
        if next == '=' {
            TokenKind::NotEqual
        } else {
            TokenKind::Unknown
        }
    } else if c == '<' {
        if next == '=' {
            TokenKind::LessEqual
        } else {
            TokenKind::Less
        }
    } else if c == '>' {
        if next == '=' {
            TokenKind::GreaterEqual
        } else {
            TokenKind::Greater
        }
    } else if c == '&' {
        if next == '&' {
            TokenKind::And
        } else {
            TokenKind::Unknown
        }
    } else if c == '|' {
        if next == '|' {
            TokenKind::Or
        } else {
            TokenKind::Unknown
        }
    } else if c == '(' {
        TokenKind::ParenOpen
    } else if c == ')' {
        TokenKind::ParenClose
    } else if c == '{' {
        TokenKind::BraceOpen
    } else if c == '}' {
        TokenKind::BraceClose
    } else if c == '[' {
        TokenKind::BracketOpen
    } else if c == ']' {
        TokenKind::BracketClose
    } else if c == ',' {
        TokenKind::Comma
    } else if c == ';' {
        TokenKind::SemiColon
    } else if c == ':' {
        TokenKind::Colon
    } else if c == '\'' || c == '"' {
        TokenKind::Constant
    } else {
        TokenKind::Unknown
    }
}

/// Whether a token of this kind is two characters long.
pub open spec fn is_pair(kind: TokenKind) -> bool {
    ||| kind == TokenKind::Equal
    ||| kind == TokenKind::NotEqual
    ||| kind == TokenKind::LessEqual
    ||| kind == TokenKind::GreaterEqual
    ||| kind == TokenKind::And
    ||| kind == TokenKind::Or
}

/// The first position at or after `p` that holds no letter or number.
pub open spec fn general_end(s: Seq<char>, p: int) -> int
    decreases s.len() - p,
{
    if p < 0 || p >= s.len() || !alphanumeric(s[p]) {
        p
    } else {
        general_end(s, p + 1)
    }
}

/// The first position at or after `p` that holds `quote`, or the end of the
/// program.
pub open spec fn quote_at(s: Seq<char>, p: int, quote: char) -> int
    decreases s.len() - p,
{
    if p < 0 || p >= s.len() || s[p] == quote {
        p
    } else {
        quote_at(s, p + 1, quote)
    }
}

/// The end of the token that starts at `p`: the longest operator, a literal
/// up to and with its closing quote (or up to the end of the program where
/// none closes it), or a first character and the letters and numbers behind
/// it.
pub open spec fn token_end(s: Seq<char>, p: int) -> int {
    let kind = head_kind(char_at(s, p), char_at(s, p + 1));
    if kind == TokenKind::Unknown {
        general_end(s, p + 1)
    } else if kind == TokenKind::Constant {
        let q = quote_at(s, p + 1, char_at(s, p));
        if q < s.len() {
            q + 1
        } else {
            q
        }
    } else if is_pair(kind) {
        p + 2
    } else {
        p + 1
    }
}

/// The kind of the token that starts at `p`.
pub open spec fn token_kind(s: Seq<char>, p: int, automata: &Automata) -> TokenKind {
    let kind = head_kind(char_at(s, p), char_at(s, p + 1));
    if kind == TokenKind::Unknown || kind == TokenKind::Constant {
        lexeme_kind(s.subrange(p, token_end(s, p)), automata)
    } else {
        kind
    }
}

/// Whether the token that starts at `p` is stored in a table when it is of
/// kind `kind`: a literal only as a constant.
pub open spec fn stored(s: Seq<char>, p: int, kind: TokenKind) -> bool {
    if head_kind(char_at(s, p), char_at(s, p + 1)) == TokenKind::Unknown {
        kind == TokenKind::Identifier || kind == TokenKind::Constant
    } else if head_kind(char_at(s, p), char_at(s, p + 1)) == TokenKind::Constant {
        kind == TokenKind::Constant
    } else {
        false
    }
}

/// The place of `x` in `names`.
pub open spec fn place_of(names: Seq<Seq<char>>, x: Seq<char>) -> int {
    choose|i: int| 0 <= i < names.len() && names[i] == x
}

/// The index of `x` in a table that holds `names` in the order in which they
/// came: its place, counted from 1, or the next index if it is new.
pub open spec fn index_in(names: Seq<Seq<char>>, x: Seq<char>) -> int {
    if names.contains(x) {
        place_of(names, x) + 1
    } else {
        names.len() as int + 1
    }
}

/// The names of a table after `x` was put into it.
pub open spec fn with_name(names: Seq<Seq<char>>, x: Seq<char>) -> Seq<Seq<char>> {
    if names.contains(x) {
        names
    } else {
        names.push(x)
    }
}

/// What a scanner has made of a program so far.
pub struct Lexed {
    /// The tokens, in source order.
    pub tokens: Seq<TokenView>,
    /// The identifiers, in the order of their indices.
    pub identifiers: Seq<Seq<char>>,
    /// The constants, in the order of their indices.
    pub constants: Seq<Seq<char>>,
    /// The line counter.
    pub line: nat,
    /// The cursor.
    pub position: int,
}

/// One step of the scanner: the next token, if the program has one, and the
/// state behind it. The token is not yet in the state's token list.
pub open spec fn lex_step(s: Seq<char>, automata: &Automata, st: Lexed) -> (Option<TokenView>, Lexed) {
    let p = blank_end(s, st.position);
    let line = st.line + blank_lines(s, st.position);
    if p >= s.len() || s[p] == EOF_CHAR {
        (None, Lexed { line, position: p, ..st })
    } else {
        let end = token_end(s, p);
        let inner = s.subrange(p, end);
        let kind = token_kind(s, p, automata);
        if stored(s, p, kind) && kind == TokenKind::Identifier {
            (
                Some(TokenView { kind, inner, position: index_in(st.identifiers, inner) as usize }),
                Lexed {
                    identifiers: with_name(st.identifiers, inner),
                    line,
                    position: end,
                    ..st
                },
            )
        } else if stored(s, p, kind) {
            (
                Some(TokenView { kind, inner, position: index_in(st.constants, inner) as usize }),
                Lexed { constants: with_name(st.constants, inner), line, position: end, ..st },
            )
        } else {
            (Some(TokenView { kind, inner, position: 0 }), Lexed { line, position: end, ..st })
        }
    }
}

/// The scan of the rest of a program from the state `st`: the final state,
/// and the lexeme of the first token of unknown kind, at which the scan
/// stops, if there is one.
pub open spec fn lex_from(s: Seq<char>, automata: &Automata, st: Lexed, fuel: nat) -> (Lexed, Option<Seq<char>>)
    decreases fuel,
{
    let (token, next) = lex_step(s, automata, st);
    match token {
        None => (next, None),
        Some(t) => if t.kind == TokenKind::Unknown {
            (next, Some(t.inner))
        } else if fuel == 0 {
            (next, None)
        } else {
            lex_from(s, automata, Lexed { tokens: next.tokens.push(t), ..next }, (fuel - 1) as nat)
        },
    }
}

/// The state in which a scan starts.
pub open spec fn lex_start() -> Lexed {
    Lexed {
        tokens: Seq::empty(),
        identifiers: Seq::empty(),
        constants: Seq::empty(),
        line: 1,
        position: 0,
    }
}

/// The scan of a program: every token takes at least one character, so as
/// many steps as the program has characters reach its end.
pub open spec fn lex(s: Seq<char>, automata: &Automata) -> (Lexed, Option<Seq<char>>) {
    lex_from(s, automata, lex_start(), s.len())
}

/// The status line of a scan.
pub open spec fn status_text(line: nat, error: Option<Seq<char>>) -> Seq<char> {
    match error {
        None => "Lexically correct!"@,
        Some(inner) => "Lexical error on line "@ + decimal(line) + " => undefined token: "@ + inner,
    }
}

/// A table holds the names `names` under the indices 1, 2, ... in this order.
pub open spec fn holds_names(table: &Table<String>, names: Seq<Seq<char>>) -> bool {
    &&& table.wf()
    &&& names.no_duplicates()
    &&& table.next_index() == names.len() + 1
    &&& forall|i: int|
        0 <= i < names.len() ==> table.index_of().contains_key(#[trigger] names[i])
            && table.index_of()[names[i]] == i + 1
    &&& forall|k: Seq<char>| #[trigger] table.index_of().contains_key(k) ==> names.contains(k)
}

/// The ends of white space, comments, words and literals lie within the
/// program, at or behind the place from which they are sought.
pub proof fn lemma_bounds(s: Seq<char>, p: int)
    requires
        0 <= p <= s.len(),
    ensures
        p <= spaces_end(s, p) <= s.len(),
        p <= comment_end(s, p) <= s.len(),
        p <= general_end(s, p) <= s.len(),
        forall|q: char| p <= #[trigger] quote_at(s, p, q) <= s.len(),
        p <= blank_end(s, p) <= s.len(),
    decreases s.len() - p,
{
    if p < s.len() {
        lemma_bounds(s, p + 1);
        assert forall|q: char| p <= #[trigger] quote_at(s, p, q) <= s.len() by {
            assert(p + 1 <= quote_at(s, p + 1, q) <= s.len());
        }
    }
    let a = spaces_end(s, p);
    lemma_bounds_inner(s, a);
    lemma_bounds_inner(s, comment_end(s, a));
}

proof fn lemma_bounds_inner(s: Seq<char>, p: int)
    requires
        0 <= p <= s.len(),
    ensures
        p <= spaces_end(s, p) <= s.len(),
        p <= comment_end(s, p) <= s.len(),
    decreases s.len() - p,
{
    if p < s.len() {
        lemma_bounds_inner(s, p + 1);
    }
}

/// A token is at least one character long and ends within the program.
pub proof fn lemma_token_end(s: Seq<char>, p: int)
    requires
        0 <= p < s.len(),
    ensures
        p < token_end(s, p) <= s.len(),
{
    lemma_bounds(s, p + 1);
}

/// The scanner: it turns the text of a program into the list of its tokens,
/// a table of its identifiers and a table of its constants.
pub struct Scanner {
    raw_program: Vec<char>,
    final_result: String,
    position: usize,
    current_line: usize,
    token_list: Vec<Token>,
    identifier_table: Table<String>,
    constant_table: Table<String>,
    automata: Automata,
    identifiers: Ghost<Seq<Seq<char>>>,
    constants: Ghost<Seq<Seq<char>>>,
}

/// The views of the tokens `v`.
pub open spec fn token_views(v: Seq<Token>) -> Seq<TokenView> {
    Seq::new(v.len(), |i: int| v[i]@)
}

impl Scanner {
    /// The program that the scanner reads.
    pub closed spec fn program(&self) -> Seq<char> {
        self.raw_program@
    }

    /// The scanner's automata.
    pub closed spec fn automata(&self) -> &Automata {
        &self.automata
    }

    /// What the scanner has made of the program so far.
    pub closed spec fn state(&self) -> Lexed {
        Lexed {
            tokens: token_views(self.token_list@),
            identifiers: self.identifiers@,
            constants: self.constants@,
            line: self.current_line as nat,
            position: self.position as int,
        }
    }

    /// The status line of the last scan.
    pub closed spec fn result(&self) -> Seq<char> {
        self.final_result@
    }

    /// The scanner's invariant.
    pub closed spec fn wf(&self) -> bool {
        &&& self.automata.wf()
        &&& self.raw_program@.len() < usize::MAX / 2 - 1
        &&& self.position <= self.raw_program@.len()
        &&& 1 <= self.current_line <= self.position + 1
        &&& self.token_list@.len() <= self.position
        &&& self.identifiers@.len() <= self.token_list@.len()
        &&& self.constants@.len() <= self.token_list@.len()
        &&& holds_names(&self.identifier_table, self.identifiers@)
        &&& holds_names(&self.constant_table, self.constants@)
    }

    /// The invariant between reading a token and adding it to the list.
    pub closed spec fn roomy(&self) -> bool {
        &&& self.automata.wf()
        &&& self.raw_program@.len() < usize::MAX / 2 - 1
        &&& self.position <= self.raw_program@.len()
        &&& 1 <= self.current_line <= self.position + 1
        &&& self.token_list@.len() < self.position
        &&& self.identifiers@.len() <= self.token_list@.len() + 1
        &&& self.constants@.len() <= self.token_list@.len() + 1
        &&& holds_names(&self.identifier_table, self.identifiers@)
        &&& holds_names(&self.constant_table, self.constants@)
    }

    /// The tables of a well-formed scanner hold its identifiers and its
    /// constants under the indices that the tokens carry.
    pub proof fn lemma_tables(&self)
        requires
            self.wf(),
        ensures
            holds_names(self.table_of_identifiers(), self.state().identifiers),
            holds_names(self.table_of_constants(), self.state().constants),
    {
    }

    /// The table of identifiers.
    pub closed spec fn table_of_identifiers(&self) -> &Table<String> {
        &self.identifier_table
    }

    /// The table of constants.
    pub closed spec fn table_of_constants(&self) -> &Table<String> {
        &self.constant_table
    }

    /// A scanner with the automata that the four definitions give, and with
    /// no program yet.
    pub fn new(identifier: &str, number: &str, character: &str, string: &str) -> (r: Result<
        Scanner,
        AutomataError,
    >)
        requires
            identifier@.len() < usize::MAX / 2,
            number@.len() < usize::MAX / 2,
            character@.len() < usize::MAX / 2,
            string@.len() < usize::MAX / 2,
        ensures
            match r {
                Ok(scanner) => {
                    &&& scanner.wf()
                    &&& scanner.automata().wf()
                    &&& automata_of(identifier@, number@, character@, string@) == Ok::<
                        (Dfa, Dfa, Dfa, Dfa),
                        (Shape, DfaFault),
                    >(scanner.automata().model())
                    &&& scanner.program() == Seq::<char>::empty()
                    &&& scanner.state() == lex_start()
                    &&& scanner.result() == Seq::<char>::empty()
                },
                Err(e) => automata_of(identifier@, number@, character@, string@) == Err::<
                    (Dfa, Dfa, Dfa, Dfa),
                    (Shape, DfaFault),
                >((e.shape, e.error@)),
            },
    {
        let automata = match Automata::new(identifier, number, character, string) {
            Ok(automata) => automata,
            Err(e) => {
                return Err(e);
            },
        };
        let scanner = Scanner {
            raw_program: Vec::new(),
            final_result: String::new(),
            position: 0,
            current_line: 1,
            token_list: Vec::new(),
            identifier_table: Table::new(),
            constant_table: Table::new(),
            automata,
            identifiers: Ghost(Seq::empty()),
            constants: Ghost(Seq::empty()),
        };
        proof {
            assert(scanner.state().tokens =~= Seq::<TokenView>::empty());
        }
        Ok(scanner)
    }

    /// The tokens of the last scan, in source order.
    pub fn get_token_list(&self) -> (tokens: &Vec<Token>)
        ensures
            token_views(tokens@) == self.state().tokens,
    {
        &self.token_list
    }

    /// The table of the identifiers of the last scan.
    pub fn get_identifier_table(&self) -> (table: &Table<String>)
        ensures
            table == self.table_of_identifiers(),
    {
        &self.identifier_table
    }

    /// The table of the constants of the last scan.
    pub fn get_constant_table(&self) -> (table: &Table<String>)
        ensures
            table == self.table_of_constants(),
    {
        &self.constant_table
    }

    /// The automata by which the scanner tells identifiers and literals.
    pub fn get_automata(&self) -> (automata: &Automata)
        ensures
            automata == self.automata(),
    {
        &self.automata
    }

    /// The status line of the last scan.
    pub fn get_result(&self) -> (result: &str)
        ensures
            result@ == self.result(),
    {
        self.final_result.as_str()
    }

    /// The report of the last scan: the tokens, the two tables and the
    /// status line.
    pub fn write_result(&self) -> (output: String)
        requires
            self.wf(),
        ensures
            output@ == report_text(
                self.result(),
                self.state().tokens,
                self.table_of_identifiers().entries(),
                self.table_of_constants().entries(),
            ),
    {
        write_scan_result(
            self.final_result.as_str(),
            &self.token_list,
            &self.identifier_table,
            &self.constant_table,
        )
    }

    /// The character `n` places after the cursor.
    fn get_nth(&self, n: usize) -> (c: char)
        requires
            self.position <= self.raw_program@.len(),
            self.raw_program@.len() < usize::MAX / 2,
            n <= 1,
        ensures
            c == char_at(self.raw_program@, self.position + n),
    {
        if self.position + n < self.raw_program.len() {
            self.raw_program[self.position + n]
        } else {
            EOF_CHAR
        }
    }

    /// The character at the cursor.
    fn current(&self) -> (c: char)
        requires
            self.position <= self.raw_program@.len(),
            self.raw_program@.len() < usize::MAX / 2,
        ensures
            c == char_at(self.raw_program@, self.position as int),
    {
        self.get_nth(0)
    }

    /// The character after the cursor.
    fn peek(&self) -> (c: char)
        requires
            self.position <= self.raw_program@.len(),
            self.raw_program@.len() < usize::MAX / 2,
        ensures
            c == char_at(self.raw_program@, self.position + 1),
    {
        self.get_nth(1)
    }

    /// Moves the cursor `n` places on.
    fn advance(&mut self, n: usize)
        requires
            old(self).position + n <= usize::MAX,
        ensures
            *final(self) == (Scanner { position: (old(self).position + n) as usize, ..*old(self) }),
    {
        self.position += n;
    }

    /// Passes white space and counts its line feeds.
    fn consume_whitespace(&mut self)
        requires
            old(self).position <= old(self).raw_program@.len(),
            old(self).raw_program@.len() < usize::MAX / 2,
            old(self).current_line <= old(self).position + 1,
        ensures
            *final(self) == (Scanner {
                position: final(self).position,
                current_line: final(self).current_line,
                ..*old(self)
            }),
            final(self).position == spaces_end(old(self).raw_program@, old(self).position as int),
            final(self).position <= old(self).raw_program@.len(),
            final(self).current_line == old(self).current_line + newlines(
                old(self).raw_program@,
                old(self).position as int,
                final(self).position as int,
            ),
            final(self).current_line <= final(self).position + 1,
    {
        while self.position < self.raw_program.len() && is_whitespace(
            self.raw_program[self.position],
        )
            invariant
                *self == (Scanner {
                    position: self.position,
                    current_line: self.current_line,
                    ..*old(self)
                }),
                old(self).position <= self.position <= self.raw_program@.len(),
                self.raw_program@.len() < usize::MAX / 2,
                spaces_end(self.raw_program@, self.position as int) == spaces_end(
                    self.raw_program@,
                    old(self).position as int,
                ),
                self.current_line == old(self).current_line + newlines(
                    self.raw_program@,
                    old(self).position as int,
                    self.position as int,
                ),
                self.current_line <= self.position + 1,
            decreases self.raw_program@.len() - self.position,
        {
            if self.raw_program[self.position] == '\n' {
                self.current_line += 1;
            }
            self.advance(1);
        }
    }

    /// Passes one line comment, if one starts at the cursor, and the white
    /// space behind it.
    fn consume_comments(&mut self)
        requires
            old(self).position <= old(self).raw_program@.len(),
            old(self).raw_program@.len() < usize::MAX / 2,
            old(self).current_line <= old(self).position + 1,
        ensures
            *final(self) == (Scanner {
                position: final(self).position,
                current_line: final(self).current_line,
                ..*old(self)
            }),
            final(self).position <= old(self).raw_program@.len(),
            final(self).current_line <= final(self).position + 1,
            comment_at(old(self).raw_program@, old(self).position as int) ==> {
                let end = comment_end(old(self).raw_program@, old(self).position as int);
                &&& final(self).position == spaces_end(old(self).raw_program@, end)
                &&& final(self).current_line == old(self).current_line + newlines(
                    old(self).raw_program@,
                    end,
                    final(self).position as int,
                )
            },
            !comment_at(old(self).raw_program@, old(self).position as int) ==> {
                &&& final(self).position == old(self).position
                &&& final(self).current_line == old(self).current_line
            },
    {
        if !(self.current() == '-' && self.peek() == '-') {
            return ;
        }
        while self.position < self.raw_program.len() && self.raw_program[self.position] != '\n'
            && self.raw_program[self.position] != EOF_CHAR
            invariant
                *self == (Scanner { position: self.position, ..*old(self) }),
                old(self).position <= self.position <= self.raw_program@.len(),
                self.raw_program@.len() < usize::MAX / 2,
                comment_end(self.raw_program@, self.position as int) == comment_end(
                    self.raw_program@,
                    old(self).position as int,
                ),
            decreases self.raw_program@.len() - self.position,
        {
            self.advance(1);
        }
        self.consume_whitespace();
    }

    /// Reads a token that starts with the character `start`, which the
    /// cursor has passed: the letters and numbers behind it belong to it.
    fn consume_general(&mut self, start: usize) -> (token: Token)
        requires
            old(self).wf(),
            start + 1 == old(self).position,
            old(self).token_list@.len() <= start,
        ensures
            kept(*final(self), *old(self)),
            final(self).roomy(),
            final(self).position == general_end(old(self).raw_program@, old(self).position as int),
            token@.inner == old(self).raw_program@.subrange(start as int, final(self).position as int),
            token@.kind == lexeme_kind(token@.inner, &old(self).automata),
            stored_as(*final(self), *old(self), token@, true),
    {
        while self.position < self.raw_program.len() && is_alphanumeric(
            self.raw_program[self.position],
        )
            invariant
                *self == (Scanner { position: self.position, ..*old(self) }),
                old(self).position <= self.position <= self.raw_program@.len(),
                general_end(self.raw_program@, self.position as int) == general_end(
                    self.raw_program@,
                    old(self).position as int,
                ),
            decreases self.raw_program@.len() - self.position,
        {
            self.advance(1);
        }
        let value = slice_of(&self.raw_program, start, self.position);
        let kind = classify_text(&value, &self.automata);
        let mut token = Token::of_text(kind, &value);
        match kind {
            TokenKind::Identifier => {
                let index = put_name(&mut self.identifier_table, &value, Ghost(self.identifiers@));
                proof {
                    self.identifiers = Ghost(with_name(self.identifiers@, value@));
                }
                token.set_position(index);
            },
            TokenKind::Constant => {
                let index = put_name(&mut self.constant_table, &value, Ghost(self.constants@));
                proof {
                    self.constants = Ghost(with_name(self.constants@, value@));
                }
                token.set_position(index);
            },
            _ => {},
        }
        token
    }

    /// Reads a literal that starts with the quote at `start`,
    /// which the cursor has passed: up to the next such quote and with it.
    fn consume_literal(&mut self, start: usize) -> (token: Token)
        requires
            old(self).wf(),
            start + 1 == old(self).position,
            old(self).token_list@.len() <= start,
        ensures
            kept(*final(self), *old(self)),
            final(self).roomy(),
            ({
                let s = old(self).raw_program@;
                let q = quote_at(s, old(self).position as int, s[start as int]);
                final(self).position == if q < s.len() {
                    q + 1
                } else {
                    q
                }
            }),
            token@.inner == old(self).raw_program@.subrange(start as int, final(self).position as int),
            token@.kind == lexeme_kind(token@.inner, &old(self).automata),
            stored_as(*final(self), *old(self), token@, false),
    {
        let quote_type = self.raw_program[start];
        while self.position < self.raw_program.len() && self.raw_program[self.position]
            != quote_type
            invariant
                *self == (Scanner { position: self.position, ..*old(self) }),
                old(self).position <= self.position <= self.raw_program@.len(),
                quote_at(self.raw_program@, self.position as int, quote_type) == quote_at(
                    self.raw_program@,
                    old(self).position as int,
                    quote_type,
                ),
            decreases self.raw_program@.len() - self.position,
        {
            self.advance(1);
        }
        if self.position < self.raw_program.len() {
            self.advance(1);
        }
        let value = slice_of(&self.raw_program, start, self.position);
        let kind = classify_text(&value, &self.automata);
        let mut token = Token::of_text(kind, &value);
        match kind {
            TokenKind::Constant => {
                let index = put_name(&mut self.constant_table, &value, Ghost(self.constants@));
                proof {
                    self.constants = Ghost(with_name(self.constants@, value@));
                }
                token.set_position(index);
            },
            _ => {},
        }
        token
    }

    /// Reads the next token, if the program has one.
    fn next_token(&mut self) -> (token: Option<Token>)
        requires
            old(self).wf(),
        ensures
            final(self).program() == old(self).program(),
            final(self).automata() == old(self).automata(),
            final(self).result() == old(self).result(),
            (match token {
                Some(t) => Some(t@),
                None => None,
            }, final(self).state()) == lex_step(
                old(self).program(),
                old(self).automata(),
                old(self).state(),
            ),
            match token {
                Some(t) => final(self).roomy() && final(self).token_list == old(self).token_list
                    && old(self).position < final(self).position,
                None => final(self).wf(),
            },
    {
        proof {
            lemma_bounds(self.raw_program@, self.position as int);
        }
        self.consume_whitespace();
        self.consume_comments();
        let current = self.current();
        if current == EOF_CHAR {
            return None;
        }
        let start = self.position;
        let ghost before = *self;
        proof {
            lemma_token_end(self.raw_program@, start as int);
        }
        self.advance(1);
        let next = self.current();
        let digit = is_ascii_digit(next);
        let kind = if current == '+' {
            if digit {
                TokenKind::Unknown
            } else {
                TokenKind::Plus
            }
        } else if current == '-' {
            if digit {
                TokenKind::Unknown
            } else {
                TokenKind::Minus
            }
        } else if current == '*' {
            TokenKind::Multiply
        } else if current == '/' {
            TokenKind::Divide
        } else if current == '%' {
            TokenKind::Modulo
        } else if current == '=' {
            if next == '=' {
                TokenKind::Equal
            } else {
                TokenKind::Assign
            }
        } else if current == '!' {
            if next == '=' {
                TokenKind::NotEqual
            } else {
                TokenKind::Unknown
            }
        } else if current == '<' {
            if next == '=' {
                TokenKind::LessEqual
            } else {
                TokenKind::Less
            }
        } else if current == '>' {
            if next == '=' {
                TokenKind::GreaterEqual
            } else {
                TokenKind::Greater
            }
        } else if current == '&' {
            if next == '&' {
                TokenKind::And
            } else {
                TokenKind::Unknown
            }
        } else if current == '|' {
            if next == '|' {
                TokenKind::Or
            } else {
                TokenKind::Unknown
            }
        } else if current == '(' {
            TokenKind::ParenOpen
        } else if current == ')' {
            TokenKind::ParenClose
        } else if current == '{' {
            TokenKind::BraceOpen
        } else if current == '}' {
            TokenKind::BraceClose
        } else if current == '[' {
            TokenKind::BracketOpen
        } else if current == ']' {
            TokenKind::BracketClose
        } else if current == ',' {
            TokenKind::Comma
        } else if current == ';' {
            TokenKind::SemiColon
        } else if current == ':' {
            TokenKind::Colon
        } else if current == '\'' || current == '"' {
            TokenKind::Constant
        } else {
            TokenKind::Unknown
        };
        assert(kind == head_kind(
            char_at(self.raw_program@, start as int),
            char_at(self.raw_program@, start + 1),
        ));
        let token = match kind {
            TokenKind::Unknown => self.consume_general(start),
            TokenKind::Constant => self.consume_literal(start),
            TokenKind::Equal
            | TokenKind::NotEqual
            | TokenKind::LessEqual
            | TokenKind::GreaterEqual
            | TokenKind::And
            | TokenKind::Or => {
                self.advance(1);
                let value = slice_of(&self.raw_program, start, self.position);
                Token::of_text(kind, &value)
            },
            _ => {
                let value = slice_of(&self.raw_program, start, self.position);
                Token::of_text(kind, &value)
            },
        };
        Some(token)
    }

    /// Reads the program token by token, up to its end or to the first token
    /// of unknown kind.
    fn parse_program(&mut self) -> (r: Result<(), String>)
        requires
            old(self).wf(),
            old(self).state() == lex_start(),
        ensures
            final(self).wf(),
            final(self).program() == old(self).program(),
            final(self).automata() == old(self).automata(),
            final(self).result() == old(self).result(),
            final(self).state() == lex(old(self).program(), old(self).automata()).0,
            match r {
                Ok(_) => lex(old(self).program(), old(self).automata()).1 is None,
                Err(e) => lex(old(self).program(), old(self).automata()).1 is Some && e@
                    == status_text(
                    final(self).state().line,
                    lex(old(self).program(), old(self).automata()).1,
                ),
            },
    {
        let ghost s = self.raw_program@;
        loop
            invariant
                self.wf(),
                s == old(self).raw_program@,
                self.program() == old(self).program(),
                self.automata() == old(self).automata(),
                self.result() == old(self).result(),
                lex(s, &self.automata) == lex_from(
                    s,
                    &self.automata,
                    self.state(),
                    (s.len() - self.token_list@.len()) as nat,
                ),
            decreases self.raw_program@.len() - self.position,
        {
            let ghost st = self.state();
            let token = match self.next_token() {
                Some(token) => token,
                None => {
                    return Ok(());
                },
            };
            match token.get_kind() {
                TokenKind::Unknown => {
                    let mut error = String::from_str("Lexical error on line ");
                    append_number(&mut error, self.current_line);
                    error.append(" => undefined token: ");
                    error.append(token.get_inner());
                    return Err(error);
                },
                _ => {
                    let ghost views = token_views(self.token_list@);
                    self.token_list.push(token);
                    proof {
                        assert(token_views(self.token_list@) =~= views.push(token@));
                    }
                },
            }
        }
    }

    /// Scans `program`: after it the scanner holds the program's tokens, its
    /// identifiers and constants with their indices, and the status line.
    pub fn scan(&mut self, program: &str)
        requires
            old(self).wf(),
            program@.len() < usize::MAX / 2 - 1,
        ensures
            final(self).wf(),
            final(self).program() == program@,
            final(self).automata() == old(self).automata(),
            final(self).state() == lex(program@, old(self).automata()).0,
            final(self).result() == status_text(
                final(self).state().line,
                lex(program@, old(self).automata()).1,
            ),
    {
        self.raw_program = chars_of(program);
        self.position = 0;
        self.current_line = 1;
        self.final_result = String::new();
        self.token_list = Vec::new();
        self.identifier_table.clear();
        self.constant_table.clear();
        self.identifiers = Ghost(Seq::empty());
        self.constants = Ghost(Seq::empty());
        proof {
            assert(token_views(self.token_list@) =~= Seq::<TokenView>::empty());
        }
        let outcome = self.parse_program();
        self.final_result = match outcome {
            Ok(_) => String::from_str("Lexically correct!"),
            Err(e) => e,
        };
    }
}

/// The scanner `after` differs from `before` in its cursor and tables only.
spec fn kept(after: Scanner, before: Scanner) -> bool {
    &&& after.raw_program == before.raw_program
    &&& after.final_result == before.final_result
    &&& after.current_line == before.current_line
    &&& after.token_list == before.token_list
    &&& after.automata == before.automata
}

/// How the token `t` was stored when the scanner went from `before` to
/// `after`: an identifier in the table of identifiers (where `general`), a
/// constant in the table of constants, anything else nowhere.
spec fn stored_as(after: Scanner, before: Scanner, t: TokenView, general: bool) -> bool {
    if general && t.kind == TokenKind::Identifier {
        &&& t.position == index_in(before.identifiers@, t.inner)
        &&& after.identifiers@ == with_name(before.identifiers@, t.inner)
        &&& after.constants@ == before.constants@
    } else if t.kind == TokenKind::Constant {
        &&& t.position == index_in(before.constants@, t.inner)
        &&& after.constants@ == with_name(before.constants@, t.inner)
        &&& after.identifiers@ == before.identifiers@
    } else {
        &&& t.position == 0
        &&& after.identifiers@ == before.identifiers@
        &&& after.constants@ == before.constants@
    }
}

/// Puts `name` into `table`, which holds `names`.
fn put_name(table: &mut Table<String>, name: &Vec<char>, Ghost(names): Ghost<Seq<Seq<char>>>) -> (index:
    usize)
    requires
        holds_names(old(table), names),
        names.len() + 1 < usize::MAX / 2,
    ensures
        holds_names(final(table), with_name(names, name@)),
        index == index_in(names, name@),
{
    let key = string_of(name);
    proof {
        table.lemma_indices();
        if names.contains(name@) {
            let i = place_of(names, name@);
            assert(names[i] == name@);
        }
    }
    let index = table.put(key);
    proof {
        let after = with_name(names, name@);
        if !names.contains(name@) {
            assert(after.no_duplicates()) by {
                assert forall|i: int, j: int|
                    0 <= i < after.len() && 0 <= j < after.len() && i != j implies after[i]
                    != after[j] by {
                    if i < names.len() && j < names.len() {
                    } else if i < names.len() {
                        assert(names.contains(after[i]));
                    } else {
                        assert(names.contains(after[j]));
                    }
                }
            }
            assert forall|k: Seq<char>| #[trigger]
                table.index_of().contains_key(k) implies after.contains(k) by {
                if k == name@ {
                    assert(after[names.len() as int] == k);
                } else {
                    assert(names.contains(k));
                    let i = choose|i: int| 0 <= i < names.len() && names[i] == k;
                    assert(after[i] == k);
                }
            }
        }
    }
    index
}


/// `x` is a contiguous part of `s`.
pub open spec fn is_slice(s: Seq<char>, x: Seq<char>) -> bool {
    exists|a: int, b: int| 0 <= a <= b <= s.len() && x == #[trigger] s.subrange(a, b)
}

/// Every token of `st` is a contiguous part of the program.
pub open spec fn all_slices(s: Seq<char>, st: Lexed) -> bool {
    forall|i: int| 0 <= i < st.tokens.len() ==> is_slice(s, (#[trigger] st.tokens[i]).inner)
}

/// A token carries the index of its lexeme in its table: a constant in the
/// table of constants, an identifier that has a position in the table of
/// identifiers; any other token has no position.
pub open spec fn placed(t: TokenView, st: Lexed) -> bool {
    match t.kind {
        TokenKind::Constant => 1 <= t.position <= st.constants.len() && st.constants[t.position
            - 1] == t.inner,
        TokenKind::Identifier => t.position == 0 || (t.position <= st.identifiers.len()
            && st.identifiers[t.position - 1] == t.inner),
        _ => t.position == 0,
    }
}

/// Every token of `st` carries the index of its lexeme in its table.
pub open spec fn all_placed(st: Lexed) -> bool {
    forall|i: int| 0 <= i < st.tokens.len() ==> placed(#[trigger] st.tokens[i], st)
}

/// The tables of `st` are short enough for their indices to be counted.
pub open spec fn countable(st: Lexed) -> bool {
    st.identifiers.len() < usize::MAX && st.constants.len() < usize::MAX
}

/// One step of the scanner: the token that it reads is a contiguous part of
/// the program and carries the index of its lexeme; the cursor stays within
/// the program; the tables keep what they held.
pub proof fn lemma_step(s: Seq<char>, automata: &Automata, st: Lexed)
    requires
        0 <= st.position <= s.len(),
        countable(st),
    ensures
        ({
            let (token, next) = lex_step(s, automata, st);
            &&& st.position <= next.position <= s.len()
            &&& next.tokens == st.tokens
            &&& st.identifiers.len() <= next.identifiers.len() <= st.identifiers.len() + 1
            &&& st.constants.len() <= next.constants.len() <= st.constants.len() + 1
            &&& forall|i: int| 0 <= i < st.identifiers.len() ==> next.identifiers[i] == st.identifiers[i]
            &&& forall|i: int| 0 <= i < st.constants.len() ==> next.constants[i] == st.constants[i]
            &&& match token {
                Some(t) => is_slice(s, t.inner) && placed(t, next) && st.position < next.position,
                None => true,
            }
        }),
{
    lemma_bounds(s, st.position);
    let p = blank_end(s, st.position);
    if p < s.len() && s[p] != EOF_CHAR {
        lemma_token_end(s, p);
        let end = token_end(s, p);
        let inner = s.subrange(p, end);
        assert(is_slice(s, inner));
        let kind = token_kind(s, p, automata);
        if stored(s, p, kind) && kind == TokenKind::Identifier {
            if st.identifiers.contains(inner) {
                let i = place_of(st.identifiers, inner);
                assert(st.identifiers[i] == inner);
            }
        } else if stored(s, p, kind) {
            if st.constants.contains(inner) {
                let i = place_of(st.constants, inner);
                assert(st.constants[i] == inner);
            }
        }
    }
}

/// Every token that the scanner emits is a contiguous part of the program,
/// and carries the index under which its table holds its lexeme.
pub proof fn lemma_tokens(s: Seq<char>, automata: &Automata, st: Lexed, fuel: nat)
    requires
        0 <= st.position <= s.len(),
        st.identifiers.len() + fuel < usize::MAX,
        st.constants.len() + fuel < usize::MAX,
        all_slices(s, st),
        all_placed(st),
    ensures
        all_slices(s, lex_from(s, automata, st, fuel).0),
        all_placed(lex_from(s, automata, st, fuel).0),
        match lex_from(s, automata, st, fuel).1 {
            Some(lexeme) => is_slice(s, lexeme),
            None => true,
        },
    decreases fuel,
{
    lemma_step(s, automata, st);
    let (token, next) = lex_step(s, automata, st);
    assert(all_placed(next)) by {
        assert forall|i: int| 0 <= i < next.tokens.len() implies placed(
            #[trigger] next.tokens[i],
            next,
        ) by {
            assert(placed(st.tokens[i], st));
        }
    }
    match token {
        None => {},
        Some(t) => {
            if t.kind != TokenKind::Unknown && fuel > 0 {
                let more = Lexed { tokens: next.tokens.push(t), ..next };
                assert(all_slices(s, more)) by {
                    assert forall|i: int| 0 <= i < more.tokens.len() implies is_slice(
                        s,
                        (#[trigger] more.tokens[i]).inner,
                    ) by {
                        if i < st.tokens.len() {
                            assert(is_slice(s, st.tokens[i].inner));
                        }
                    }
                }
                assert(all_placed(more)) by {
                    assert forall|i: int| 0 <= i < more.tokens.len() implies placed(
                        #[trigger] more.tokens[i],
                        more,
                    ) by {
                        if i < st.tokens.len() {
                            assert(placed(next.tokens[i], next));
                        }
                    }
                }
                lemma_tokens(s, automata, more, (fuel - 1) as nat);
            }
        },
    }
}

/// The tokens of a scan are contiguous parts of the program, as is the
/// lexeme at which a scan stops, and each token carries the index under
/// which its table holds its lexeme.
pub proof fn lemma_scan(s: Seq<char>, automata: &Automata)
    requires
        s.len() < usize::MAX / 2,
    ensures
        all_slices(s, lex(s, automata).0),
        all_placed(lex(s, automata).0),
        match lex(s, automata).1 {
            Some(lexeme) => is_slice(s, lexeme),
            None => true,
        },
{
    lemma_tokens(s, automata, lex_start(), s.len());
}


/// `x` holds no line feed.
pub open spec fn no_feed(x: Seq<char>) -> bool {
    forall|i: int| 0 <= i < x.len() ==> x[i] != '\n'
}

/// The line feeds of two adjoining parts are those of the whole.
pub proof fn lemma_newlines_split(s: Seq<char>, a: int, b: int, c: int)
    requires
        0 <= a <= b <= c <= s.len(),
    ensures
        newlines(s, a, c) == newlines(s, a, b) + newlines(s, b, c),
    decreases c - b,
{
    if b < c {
        lemma_newlines_split(s, a, b, c - 1);
    }
}

/// A part without a line feed counts none.
pub proof fn lemma_newlines_none(s: Seq<char>, a: int, b: int)
    requires
        0 <= a <= b <= s.len(),
        forall|i: int| a <= i < b ==> s[i] != '\n',
    ensures
        newlines(s, a, b) == 0,
    decreases b - a,
{
    if a < b {
        lemma_newlines_none(s, a, b - 1);
    }
}

/// A comment holds no line feed.
pub proof fn lemma_comment_clean(s: Seq<char>, p: int)
    requires
        0 <= p <= s.len(),
    ensures
        p <= comment_end(s, p) <= s.len(),
        forall|i: int| p <= i < comment_end(s, p) ==> s[i] != '\n',
    decreases s.len() - p,
{
    if p < s.len() && s[p] != '\n' && s[p] != EOF_CHAR {
        lemma_comment_clean(s, p + 1);
    }
}

/// The line feeds that are counted before a token are those between the
/// cursor and the token.
pub proof fn lemma_blank_lines(s: Seq<char>, p: int)
    requires
        0 <= p <= s.len(),
    ensures
        blank_lines(s, p) == newlines(s, p, blank_end(s, p)),
{
    lemma_bounds(s, p);
    let a = spaces_end(s, p);
    if comment_at(s, a) {
        lemma_comment_clean(s, a);
        let c = comment_end(s, a);
        lemma_bounds(s, c);
        let b = spaces_end(s, c);
        lemma_newlines_none(s, a, c);
        lemma_newlines_split(s, p, a, c);
        lemma_newlines_split(s, p, c, b);
    }
}

/// The tokens that a scan starts with stay at the front of its tokens.
pub proof fn lemma_tokens_kept(s: Seq<char>, automata: &Automata, st: Lexed, fuel: nat)
    ensures
        st.tokens.len() <= lex_from(s, automata, st, fuel).0.tokens.len(),
        forall|i: int|
            0 <= i < st.tokens.len() ==> lex_from(s, automata, st, fuel).0.tokens[i] == st.tokens[i],
    decreases fuel,
{
    let (token, next) = lex_step(s, automata, st);
    match token {
        None => {},
        Some(t) => {
            if t.kind != TokenKind::Unknown && fuel > 0 {
                let more = Lexed { tokens: next.tokens.push(t), ..next };
                lemma_tokens_kept(s, automata, more, (fuel - 1) as nat);
                assert forall|i: int| 0 <= i < st.tokens.len() implies lex_from(
                    s,
                    automata,
                    st,
                    fuel,
                ).0.tokens[i] == st.tokens[i] by {
                    assert(more.tokens[i] == st.tokens[i]);
                }
            }
        },
    }
}

/// Where no lexeme holds a line feed, the line counter of a scan is one more
/// than the number of line feeds before the cursor, if it was so at the
/// start.
pub proof fn lemma_lines(s: Seq<char>, automata: &Automata, st: Lexed, fuel: nat)
    requires
        0 <= st.position <= s.len(),
        countable(st),
        st.identifiers.len() + fuel < usize::MAX,
        st.constants.len() + fuel < usize::MAX,
        st.line == 1 + newlines(s, 0, st.position),
        forall|i: int|
            st.tokens.len() <= i < lex_from(s, automata, st, fuel).0.tokens.len() ==> no_feed(
                (#[trigger] lex_from(s, automata, st, fuel).0.tokens[i]).inner,
            ),
        match lex_from(s, automata, st, fuel).1 {
            Some(lexeme) => no_feed(lexeme),
            None => true,
        },
        fuel >= s.len() - st.position,
    ensures
        lex_from(s, automata, st, fuel).0.line == 1 + newlines(
            s,
            0,
            lex_from(s, automata, st, fuel).0.position,
        ),
    decreases fuel,
{
    lemma_step(s, automata, st);
    lemma_bounds(s, st.position);
    lemma_blank_lines(s, st.position);
    let p = blank_end(s, st.position);
    lemma_newlines_split(s, 0, st.position, p);
    let (token, next) = lex_step(s, automata, st);
    match token {
        None => {},
        Some(t) => {
            lemma_token_end(s, p);
            let end = token_end(s, p);
            assert(t.inner == s.subrange(p, end));
            if t.kind == TokenKind::Unknown {
                assert(no_feed(t.inner));
                assert forall|i: int| p <= i < end implies s[i] != '\n' by {
                    assert(t.inner[i - p] == s[i]);
                }
                lemma_newlines_none(s, p, end);
                lemma_newlines_split(s, 0, p, end);
            } else {
                assert(fuel > 0);
                let more = Lexed { tokens: next.tokens.push(t), ..next };
                lemma_tokens_kept(s, automata, more, (fuel - 1) as nat);
                let last = st.tokens.len() as int;
                assert(lex_from(s, automata, st, fuel).0.tokens[last] == more.tokens[last]);
                assert(no_feed(t.inner));
                assert forall|i: int| p <= i < end implies s[i] != '\n' by {
                    assert(t.inner[i - p] == s[i]);
                }
                lemma_newlines_none(s, p, end);
                lemma_newlines_split(s, 0, p, end);
                lemma_lines(s, automata, more, (fuel - 1) as nat);
            }
        },
    }
}

/// Where no lexeme of a program holds a line feed, the line counter at the
/// end of its scan is one more than the number of line feeds that the scan
/// has passed.
pub proof fn lemma_line_counter(s: Seq<char>, automata: &Automata)
    requires
        s.len() < usize::MAX / 2,
        forall|i: int|
            0 <= i < lex(s, automata).0.tokens.len() ==> no_feed(
                (#[trigger] lex(s, automata).0.tokens[i]).inner,
            ),
        match lex(s, automata).1 {
            Some(lexeme) => no_feed(lexeme),
            None => true,
        },
    ensures
        lex(s, automata).0.line == 1 + newlines(s, 0, lex(s, automata).0.position),
{
    lemma_lines(s, automata, lex_start(), s.len());
}

} // verus!
