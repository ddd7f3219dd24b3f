use crate::hash_map::HashMap;
use crate::text::{append_number, chars_of, decimal, fields_of, lines_from, lines_of, number_of, parse_usize, split_lines, split_whitespace, string_of, texts, IntError};
use vstd::prelude::*;

verus! {

/// A state of an automaton.
pub type State = usize;

/// A type with a first value, by which states can be named before an
/// automaton is read.
pub trait NewState: View + Sized {
    /// The view of the first value.
    spec fn first() -> Self::V;

    /// The first value.
    fn new() -> (state: Self)
        ensures
            state@ == Self::first(),
    ;
}

impl NewState for usize {
    open spec fn first() -> usize {
        0
    }

    fn new() -> (state: usize) {
        0
    }
}

impl NewState for String {
    open spec fn first() -> Seq<char> {
        "0"@
    }

    fn new() -> (state: String) {
        String::from_str("0")
    }
}

impl NewState for char {
    open spec fn first() -> char {
        '0'
    }

    fn new() -> (state: char) {
        '0'
    }
}

/// A deterministic finite automaton as a mathematical object. The alphabet,
/// the states and the final states stand in the order in which they were
/// declared.
pub struct Dfa {
    pub alphabet: Seq<char>,
    pub states: Seq<State>,
    pub initial: State,
    pub finals: Seq<State>,
    pub delta: Map<(State, char), State>,
}

/// The state that the automaton reaches from `q` on `input`, if every step
/// has a transition.
pub open spec fn run(delta: Map<(State, char), State>, q: State, input: Seq<char>) -> Option<State>
    decreases input.len(),
{
    if input.len() == 0 {
        Some(q)
    } else if delta.contains_key((q, input[0])) {
        run(delta, delta[(q, input[0])], input.drop_first())
    } else {
        None
    }
}

impl Dfa {
    /// Whether the automaton accepts `input`: it can read all of it from the
    /// initial state and ends in a final state.
    pub open spec fn accepts(self, input: Seq<char>) -> bool {
        match run(self.delta, self.initial, input) {
            Some(q) => self.finals.contains(q),
            None => false,
        }
    }

    /// `q` is the initial state, a final state, or an end of a transition.
    pub open spec fn uses(self, q: State) -> bool {
        ||| q == self.initial
        ||| self.finals.contains(q)
        ||| exists|from: State, c: char| #[trigger]
            self.delta.contains_key((from, c)) && (from == q || self.delta[(from, c)] == q)
    }

    /// The invariants of a well-formed automaton.
    pub open spec fn valid(self) -> bool {
        &&& self.alphabet.no_duplicates()
        &&& self.states.no_duplicates()
        &&& self.finals.no_duplicates()
        &&& self.states.contains(self.initial)
        &&& forall|i: int| 0 <= i < self.finals.len() ==> self.states.contains(#[trigger] self.finals[i])
        &&& forall|from: State, c: char| #[trigger]
            self.delta.contains_key((from, c)) ==> {
                &&& self.states.contains(from)
                &&& self.alphabet.contains(c)
                &&& self.states.contains(self.delta[(from, c)])
            }
        &&& exists|from: State, c: char| self.delta.contains_key((from, c))
        &&& forall|i: int| 0 <= i < self.states.len() ==> self.uses(#[trigger] self.states[i])
    }
}

/// The empty input is accepted exactly when the initial state is final.
pub proof fn lemma_empty_input(dfa: Dfa)
    ensures
        dfa.accepts(Seq::<char>::empty()) == dfa.finals.contains(dfa.initial),
{
}

/// Reading `input` and then one more character is one more step.
pub proof fn lemma_run_push(delta: Map<(State, char), State>, q: State, input: Seq<char>, c: char)
    ensures
        run(delta, q, input.push(c)) == match run(delta, q, input) {
            Some(p) => if delta.contains_key((p, c)) {
                Some(delta[(p, c)])
            } else {
                None
            },
            None => None,
        },
    decreases input.len(),
{
    if input.len() == 0 {
        assert(input.push(c).drop_first() =~= Seq::<char>::empty());
        assert(run(delta, q, input) == Some(q));
        if delta.contains_key((q, c)) {
            assert(run(delta, delta[(q, c)], Seq::<char>::empty()) == Some(delta[(q, c)]));
        }
    } else {
        assert(input.push(c).drop_first() =~= input.drop_first().push(c));
        if delta.contains_key((q, input[0])) {
            lemma_run_push(delta, delta[(q, input[0])], input.drop_first(), c);
        }
    }
}

/// A section of an automaton's definition.
#[derive(Clone, Copy, Debug, PartialEq, Eq, Structural)]
pub enum Section {
    Alphabet,
    States,
    InitialState,
    FinalStates,
    Transitions,
}

/// The place of a state in an automaton's definition.
#[derive(Clone, Copy, Debug, PartialEq, Eq, Structural)]
pub enum Role {
    State,
    InitialState,
    FinalState,
    StartState,
    EndState,
}

/// Why a text does not define an automaton.
#[derive(Debug)]
pub enum DfaError {
    /// The text ends before the section, or holds no transition.
    Missing(Section),
    /// An empty symbol in the alphabet.
    EmptySymbol,
    /// A symbol of the alphabet, given by its first character, is more than
    /// one character and no escape.
    InvalidSymbol(char),
    /// The symbol is in the alphabet twice.
    DuplicateSymbol(String),
    /// The text that should name a state is no number.
    InvalidNumber(Role, String, IntError),
    /// The state is declared twice.
    DuplicateState(State),
    /// The state is final twice.
    DuplicateFinalState(State),
    /// The initial state, as written, is not a declared state.
    UnknownInitialState(String),
    /// The state is not declared.
    UnknownState(Role, State),
    /// The line is no transition: it has not three fields.
    InvalidTransition(String),
    /// The symbol of the transition on this line is more than one character
    /// and no escape.
    InvalidTransitionSymbol(String, String),
    /// The symbol of the transition on this line is not in the alphabet.
    UnknownTransitionSymbol(char, String),
    /// The line gives a second transition for a state and a symbol.
    DuplicateTransition(String),
    /// The state is declared, but is neither initial nor final nor an end of
    /// a transition.
    UnusedState(State),
}

/// A `DfaError` as a mathematical value.
pub enum DfaFault {
    Missing(Section),
    EmptySymbol,
    InvalidSymbol(char),
    DuplicateSymbol(Seq<char>),
    InvalidNumber(Role, Seq<char>, IntError),
    DuplicateState(State),
    DuplicateFinalState(State),
    UnknownInitialState(Seq<char>),
    UnknownState(Role, State),
    InvalidTransition(Seq<char>),
    InvalidTransitionSymbol(Seq<char>, Seq<char>),
    UnknownTransitionSymbol(char, Seq<char>),
    DuplicateTransition(Seq<char>),
    UnusedState(State),
}

impl View for DfaError {
    type V = DfaFault;

    open spec fn view(&self) -> DfaFault {
        match *self {
            DfaError::Missing(section) => DfaFault::Missing(section),
            DfaError::EmptySymbol => DfaFault::EmptySymbol,
            DfaError::InvalidSymbol(c) => DfaFault::InvalidSymbol(c),
            DfaError::DuplicateSymbol(text) => DfaFault::DuplicateSymbol(text@),
            DfaError::InvalidNumber(role, text, e) => DfaFault::InvalidNumber(role, text@, e),
            DfaError::DuplicateState(q) => DfaFault::DuplicateState(q),
            DfaError::DuplicateFinalState(q) => DfaFault::DuplicateFinalState(q),
            DfaError::UnknownInitialState(text) => DfaFault::UnknownInitialState(text@),
            DfaError::UnknownState(role, q) => DfaFault::UnknownState(role, q),
            DfaError::InvalidTransition(line) => DfaFault::InvalidTransition(line@),
            DfaError::InvalidTransitionSymbol(text, line) => DfaFault::InvalidTransitionSymbol(
                text@,
                line@,
            ),
            DfaError::UnknownTransitionSymbol(c, line) => DfaFault::UnknownTransitionSymbol(
                c,
                line@,
            ),
            DfaError::DuplicateTransition(line) => DfaFault::DuplicateTransition(line@),
            DfaError::UnusedState(q) => DfaFault::UnusedState(q),
        }
    }
}

impl Section {
    /// What the section holds, in words.
    pub open spec fn text(self) -> Seq<char> {
        match self {
            Section::Alphabet => "alphabet"@,
            Section::States => "set of states"@,
            Section::InitialState => "initial state"@,
            Section::FinalStates => "final states"@,
            Section::Transitions => "transitions"@,
        }
    }

    /// What the section holds, in words.
    pub fn describe(&self) -> (s: &'static str)
        ensures
            s@ == self.text(),
    {
        match self {
            Section::Alphabet => "alphabet",
            Section::States => "set of states",
            Section::InitialState => "initial state",
            Section::FinalStates => "final states",
            Section::Transitions => "transitions",
        }
    }
}

impl Role {
    /// The role in words.
    pub open spec fn text(self) -> Seq<char> {
        match self {
            Role::State => "state"@,
            Role::InitialState => "initial state"@,
            Role::FinalState => "final state"@,
            Role::StartState => "start state"@,
            Role::EndState => "end state"@,
        }
    }

    /// The role in words.
    pub fn describe(&self) -> (s: &'static str)
        ensures
            s@ == self.text(),
    {
        match self {
            Role::State => "state",
            Role::InitialState => "initial state",
            Role::FinalState => "final state",
            Role::StartState => "start state",
            Role::EndState => "end state",
        }
    }
}

/// The message of a fault.
pub open spec fn fault_message(fault: DfaFault) -> Seq<char> {
    match fault {
        DfaFault::Missing(section) => "invalid finite automaton file: missing "@ + section.text(),
        DfaFault::EmptySymbol => "empty symbol in alphabet"@,
        DfaFault::InvalidSymbol(c) => "invalid symbol '"@.push(c) + "' in alphabet"@,
        DfaFault::DuplicateSymbol(text) => "duplicate symbol '"@ + text + "' in alphabet"@,
        DfaFault::InvalidNumber(role, text, e) => "invalid "@ + role.text() + " '"@ + text + "': "@
            + e.text(),
        DfaFault::DuplicateState(q) => "duplicate state '"@ + decimal(q as nat)
            + "' in set of states"@,
        DfaFault::DuplicateFinalState(q) => "duplicate final state '"@ + decimal(q as nat) + "'"@,
        DfaFault::UnknownInitialState(text) => "initial state '"@ + text
            + "' not in set of states"@,
        DfaFault::UnknownState(role, q) => role.text() + " '"@ + decimal(q as nat)
            + "' not in set of states"@,
        DfaFault::InvalidTransition(line) => "invalid transition: "@ + line,
        DfaFault::InvalidTransitionSymbol(text, line) => "invalid symbol '"@ + text
            + "' for transition '"@ + line + "'"@,
        DfaFault::UnknownTransitionSymbol(c, line) => "character '"@.push(c)
            + "' missing from alphabet for transition '"@ + line + "'"@,
        DfaFault::DuplicateTransition(line) => "duplicate transition key for transition '"@ + line
            + "'"@,
        DfaFault::UnusedState(q) => "unused state '"@ + decimal(q as nat)
            + "' in the set of states"@,
    }
}

impl DfaError {
    /// The error as a message.
    pub fn to_string(&self) -> (s: String)
        ensures
            s@ == fault_message(self@),
    {
        match self {
            DfaError::Missing(section) => {
                let mut s = String::from_str("invalid finite automaton file: missing ");
                s.append(section.describe());
                s
            },
            DfaError::EmptySymbol => String::from_str("empty symbol in alphabet"),
            DfaError::InvalidSymbol(c) => {
                let mut s = String::from_str("invalid symbol '");
                s.push(*c);
                s.append("' in alphabet");
                s
            },
            DfaError::DuplicateSymbol(text) => {
                let mut s = String::from_str("duplicate symbol '");
                s.append(text.as_str());
                s.append("' in alphabet");
                s
            },
            DfaError::InvalidNumber(role, text, e) => {
                let mut s = String::from_str("invalid ");
                s.append(role.describe());
                s.append(" '");
                s.append(text.as_str());
                s.append("': ");
                s.append(e.describe());
                s
            },
            DfaError::DuplicateState(q) => {
                let mut s = String::from_str("duplicate state '");
                append_number(&mut s, *q);
                s.append("' in set of states");
                s
            },
            DfaError::DuplicateFinalState(q) => {
                let mut s = String::from_str("duplicate final state '");
                append_number(&mut s, *q);
                s.append("'");
                s
            },
            DfaError::UnknownInitialState(text) => {
                let mut s = String::from_str("initial state '");
                s.append(text.as_str());
                s.append("' not in set of states");
                s
            },
            DfaError::UnknownState(role, q) => {
                let mut s = String::from_str(role.describe());
                s.append(" '");
                append_number(&mut s, *q);
                s.append("' not in set of states");
                s
            },
            DfaError::InvalidTransition(line) => {
                let mut s = String::from_str("invalid transition: ");
                s.append(line.as_str());
                s
            },
            DfaError::InvalidTransitionSymbol(text, line) => {
                let mut s = String::from_str("invalid symbol '");
                s.append(text.as_str());
                s.append("' for transition '");
                s.append(line.as_str());
                s.append("'");
                s
            },
            DfaError::UnknownTransitionSymbol(c, line) => {
                let mut s = String::from_str("character '");
                s.push(*c);
                s.append("' missing from alphabet for transition '");
                s.append(line.as_str());
                s.append("'");
                s
            },
            DfaError::DuplicateTransition(line) => {
                let mut s = String::from_str("duplicate transition key for transition '");
                s.append(line.as_str());
                s.append("'");
                s
            },
            DfaError::UnusedState(q) => {
                let mut s = String::from_str("unused state '");
                append_number(&mut s, *q);
                s.append("' in the set of states");
                s
            },
        }
    }
}

/// The escape that stands for a space.
pub open spec fn space_escape() -> Seq<char> {
    seq!['\\', 's']
}

/// The symbol that a field denotes: itself if it is one character, a space
/// if it is the escape.
pub open spec fn symbol_of(field: Seq<char>) -> Option<char> {
    if field == space_escape() {
        Some(' ')
    } else if field.len() == 1 {
        Some(field[0])
    } else {
        None
    }
}

/// The alphabet that the fields add to `acc`, or the first fault in them.
pub open spec fn alphabet_from(fields: Seq<Seq<char>>, acc: Seq<char>) -> Result<Seq<char>, DfaFault>
    decreases fields.len(),
{
    if fields.len() == 0 {
        Ok(acc)
    } else {
        match symbol_of(fields[0]) {
            None => Err(
                if fields[0].len() == 0 {
                    DfaFault::EmptySymbol
                } else {
                    DfaFault::InvalidSymbol(fields[0][0])
                },
            ),
            Some(c) => if acc.contains(c) {
                Err(DfaFault::DuplicateSymbol(fields[0]))
            } else {
                alphabet_from(fields.drop_first(), acc.push(c))
            },
        }
    }
}

/// The states that the fields add to `acc`, or the first fault in them.
pub open spec fn states_from(fields: Seq<Seq<char>>, acc: Seq<State>) -> Result<Seq<State>, DfaFault>
    decreases fields.len(),
{
    if fields.len() == 0 {
        Ok(acc)
    } else {
        match number_of(fields[0]) {
            Err(e) => Err(DfaFault::InvalidNumber(Role::State, fields[0], e)),
            Ok(n) => if acc.contains(n as usize) {
                Err(DfaFault::DuplicateState(n as usize))
            } else {
                states_from(fields.drop_first(), acc.push(n as usize))
            },
        }
    }
}

/// The initial state that a line names: the whole line is the number of a
/// declared state.
pub open spec fn initial_of(line: Seq<char>, states: Seq<State>) -> Result<State, DfaFault> {
    match number_of(line) {
        Err(e) => Err(DfaFault::InvalidNumber(Role::InitialState, line, e)),
        Ok(n) => if states.contains(n as usize) {
            Ok(n as usize)
        } else {
            Err(DfaFault::UnknownInitialState(line))
        },
    }
}

/// The final states that the fields add to `acc`, or the first fault in them.
pub open spec fn finals_from(fields: Seq<Seq<char>>, states: Seq<State>, acc: Seq<State>) -> Result<
    Seq<State>,
    DfaFault,
>
    decreases fields.len(),
{
    if fields.len() == 0 {
        Ok(acc)
    } else {
        match number_of(fields[0]) {
            Err(e) => Err(DfaFault::InvalidNumber(Role::FinalState, fields[0], e)),
            Ok(n) => if !states.contains(n as usize) {
                Err(DfaFault::UnknownState(Role::FinalState, n as usize))
            } else if acc.contains(n as usize) {
                Err(DfaFault::DuplicateFinalState(n as usize))
            } else {
                finals_from(fields.drop_first(), states, acc.push(n as usize))
            },
        }
    }
}

/// The transition that a line gives, as source, symbol and target, or the
/// first fault in the line.
pub open spec fn transition_of(
    line: Seq<char>,
    alphabet: Seq<char>,
    states: Seq<State>,
    delta: Map<(State, char), State>,
) -> Result<(State, char, State), DfaFault> {
    let parts = fields_of(line);
    if parts.len() != 3 {
        Err(DfaFault::InvalidTransition(line))
    } else {
        match number_of(parts[0]) {
            Err(e) => Err(DfaFault::InvalidNumber(Role::StartState, parts[0], e)),
            Ok(from) => if !states.contains(from as usize) {
                Err(DfaFault::UnknownState(Role::StartState, from as usize))
            } else {
                match symbol_of(parts[1]) {
                    None => Err(DfaFault::InvalidTransitionSymbol(parts[1], line)),
                    Some(c) => if !alphabet.contains(c) {
                        Err(DfaFault::UnknownTransitionSymbol(c, line))
                    } else {
                        match number_of(parts[2]) {
                            Err(e) => Err(DfaFault::InvalidNumber(Role::EndState, parts[2], e)),
                            Ok(to) => if !states.contains(to as usize) {
                                Err(DfaFault::UnknownState(Role::EndState, to as usize))
                            } else if delta.contains_key((from as usize, c)) {
                                Err(DfaFault::DuplicateTransition(line))
                            } else {
                                Ok((from as usize, c, to as usize))
                            },
                        }
                    },
                }
            },
        }
    }
}

/// The transitions that the lines from `i` on add to `delta`, with the states
/// that they touch added to `used`, or the first fault in them. Empty lines
/// are passed over; at least one transition is asked for.
pub open spec fn transitions_from(
    lines: Seq<Seq<char>>,
    i: int,
    alphabet: Seq<char>,
    states: Seq<State>,
    delta: Map<(State, char), State>,
    used: Seq<State>,
) -> Result<(Map<(State, char), State>, Seq<State>), DfaFault>
    decreases lines.len() - i,
{
    if i < 0 || i >= lines.len() {
        if delta.len() == 0 {
            Err(DfaFault::Missing(Section::Transitions))
        } else {
            Ok((delta, used))
        }
    } else if lines[i].len() == 0 {
        transitions_from(lines, i + 1, alphabet, states, delta, used)
    } else {
        match transition_of(lines[i], alphabet, states, delta) {
            Err(e) => Err(e),
            Ok((from, c, to)) => transitions_from(
                lines,
                i + 1,
                alphabet,
                states,
                delta.insert((from, c), to),
                used.push(from).push(to),
            ),
        }
    }
}

/// The first of `states` that is not among `used`.
pub open spec fn first_unused(states: Seq<State>, used: Seq<State>) -> Option<State>
    decreases states.len(),
{
    if states.len() == 0 {
        None
    } else if !used.contains(states[0]) {
        Some(states[0])
    } else {
        first_unused(states.drop_first(), used)
    }
}

/// The automaton that the lines define, or the first fault in them: the
/// alphabet, the states, the initial state, the final states, one line each,
/// then the transitions; every state must be used.
pub open spec fn dfa_of(lines: Seq<Seq<char>>) -> Result<Dfa, DfaFault> {
    if lines.len() < 1 {
        Err(DfaFault::Missing(Section::Alphabet))
    } else {
        match alphabet_from(fields_of(lines[0]), Seq::empty()) {
            Err(e) => Err(e),
            Ok(alphabet) => if lines.len() < 2 {
                Err(DfaFault::Missing(Section::States))
            } else {
                match states_from(fields_of(lines[1]), Seq::empty()) {
                    Err(e) => Err(e),
                    Ok(states) => if lines.len() < 3 {
                        Err(DfaFault::Missing(Section::InitialState))
                    } else {
                        match initial_of(lines[2], states) {
                            Err(e) => Err(e),
                            Ok(initial) => if lines.len() < 4 {
                                Err(DfaFault::Missing(Section::FinalStates))
                            } else {
                                match finals_from(fields_of(lines[3]), states, Seq::empty()) {
                                    Err(e) => Err(e),
                                    Ok(finals) => match transitions_from(
                                        lines,
                                        4,
                                        alphabet,
                                        states,
                                        Map::empty(),
                                        seq![initial] + finals,
                                    ) {
                                        Err(e) => Err(e),
                                        Ok((delta, used)) => match first_unused(states, used) {
                                            Some(q) => Err(DfaFault::UnusedState(q)),
                                            None => Ok(
                                                Dfa { alphabet, states, initial, finals, delta },
                                            ),
                                        },
                                    },
                                }
                            },
                        }
                    },
                }
            },
        }
    }
}

/// Some transition of `delta` starts or ends in `q`.
pub open spec fn touches(delta: Map<(State, char), State>, q: State) -> bool {
    exists|from: State, c: char| #[trigger]
        delta.contains_key((from, c)) && (from == q || delta[(from, c)] == q)
}

/// A deterministic finite automaton.
pub struct Automaton {
    alphabet: Vec<char>,
    states: Vec<State>,
    initial_state: State,
    final_states: Vec<State>,
    transitions: HashMap<(State, char), State>,
}

/// Whether `items` holds `item`.
pub fn holds_state(items: &Vec<State>, item: State) -> (found: bool)
    ensures
        found == items@.contains(item),
{
    let mut i: usize = 0;
    while i < items.len()
        invariant
            i <= items.len(),
            forall|j: int| 0 <= j < i ==> items@[j] != item,
        decreases items.len() - i,
    {
        if items[i] == item {
            return true;
        }
        i += 1;
    }
    false
}

/// Whether `items` holds `item`.
pub fn holds_symbol(items: &Vec<char>, item: char) -> (found: bool)
    ensures
        found == items@.contains(item),
{
    let mut i: usize = 0;
    while i < items.len()
        invariant
            i <= items.len(),
            forall|j: int| 0 <= j < i ==> items@[j] != item,
        decreases items.len() - i,
    {
        if items[i] == item {
            return true;
        }
        i += 1;
    }
    false
}

impl Automaton {
    /// The automaton as a mathematical object.
    pub closed spec fn model(&self) -> Dfa {
        Dfa {
            alphabet: self.alphabet@,
            states: self.states@,
            initial: self.initial_state,
            finals: self.final_states@,
            delta: self.transitions@,
        }
    }

    /// The automaton's invariant.
    pub closed spec fn wf(&self) -> bool {
        self.transitions.wf() && self.model().valid()
    }

    /// A well-formed automaton is a valid one.
    pub proof fn lemma_valid(&self)
        requires
            self.wf(),
        ensures
            self.model().valid(),
    {
    }

    /// The alphabet, in the order of its declaration.
    pub fn get_alphabet(&self) -> (alphabet: &Vec<char>)
        ensures
            alphabet@ == self.model().alphabet,
    {
        &self.alphabet
    }

    /// The states, in the order of their declaration.
    pub fn get_states(&self) -> (states: &Vec<State>)
        ensures
            states@ == self.model().states,
    {
        &self.states
    }

    /// The initial state.
    pub fn get_initial_state(&self) -> (state: &State)
        ensures
            *state == self.model().initial,
    {
        &self.initial_state
    }

    /// The final states, in the order of their declaration.
    pub fn get_final_states(&self) -> (states: &Vec<State>)
        ensures
            states@ == self.model().finals,
    {
        &self.final_states
    }

    /// The transitions: the target for each source and symbol.
    pub fn get_transitions(&self) -> (transitions: &HashMap<(State, char), State>)
        ensures
            transitions@ == self.model().delta,
            self.wf() ==> transitions.wf(),
    {
        &self.transitions
    }

    /// Reads the symbol that a field denotes.
    fn parse_symbol(field: &Vec<char>) -> (symbol: Option<char>)
        ensures
            symbol == symbol_of(field@),
    {
        if field.len() == 2 && field[0] == '\\' && field[1] == 's' {
            proof {
                assert(field@ =~= space_escape());
            }
            Some(' ')
        } else if field.len() == 1 {
            Some(field[0])
        } else {
            None
        }
    }

    /// Reads the alphabet from its line, if the text has the line.
    pub fn parse_alphabet(line: Option<&Vec<char>>) -> (r: Result<Vec<char>, DfaError>)
        ensures
            match line {
                None => r is Err && r->Err_0@ == DfaFault::Missing(Section::Alphabet),
                Some(l) => match r {
                    Ok(alphabet) => alphabet_from(fields_of(l@), Seq::empty()) == Ok::<
                        Seq<char>,
                        DfaFault,
                    >(alphabet@) && alphabet@.no_duplicates(),
                    Err(e) => alphabet_from(fields_of(l@), Seq::empty()) == Err::<
                        Seq<char>,
                        DfaFault,
                    >(e@),
                },
            },
    {
        let text = match line {
            Some(text) => text,
            None => {
                return Err(DfaError::Missing(Section::Alphabet));
            },
        };
        let fields = split_whitespace(text);
        let ghost all = fields_of(text@);
        proof {
            assert(all.skip(0) =~= all);
        }
        let mut alphabet: Vec<char> = Vec::new();
        let mut i: usize = 0;
        while i < fields.len()
            invariant
                i <= fields.len(),
                line == Some(text),
                all == fields_of(text@),
                texts(fields@) == all,
                alphabet@.no_duplicates(),
                alphabet_from(all, Seq::empty()) == alphabet_from(all.skip(i as int), alphabet@),
            decreases fields.len() - i,
        {
            let field = &fields[i];
            proof {
                assert(all.skip(i as int)[0] == field@);
                assert(all.skip(i as int).drop_first() =~= all.skip(i + 1));
            }
            let symbol = match Self::parse_symbol(field) {
                Some(symbol) => symbol,
                None => {
                    if field.len() == 0 {
                        return Err(DfaError::EmptySymbol);
                    }
                    return Err(DfaError::InvalidSymbol(field[0]));
                },
            };
            if holds_symbol(&alphabet, symbol) {
                return Err(DfaError::DuplicateSymbol(string_of(field)));
            }
            alphabet.push(symbol);
            i += 1;
        }
        Ok(alphabet)
    }

    /// Reads the set of states from its line, if the text has the line.
    pub fn parse_states(line: Option<&Vec<char>>) -> (r: Result<Vec<State>, DfaError>)
        ensures
            match line {
                None => r is Err && r->Err_0@ == DfaFault::Missing(Section::States),
                Some(l) => match r {
                    Ok(states) => states_from(fields_of(l@), Seq::empty()) == Ok::<
                        Seq<State>,
                        DfaFault,
                    >(states@) && states@.no_duplicates(),
                    Err(e) => states_from(fields_of(l@), Seq::empty()) == Err::<
                        Seq<State>,
                        DfaFault,
                    >(e@),
                },
            },
    {
        let text = match line {
            Some(text) => text,
            None => {
                return Err(DfaError::Missing(Section::States));
            },
        };
        let fields = split_whitespace(text);
        let ghost all = fields_of(text@);
        proof {
            assert(all.skip(0) =~= all);
        }
        let mut states: Vec<State> = Vec::new();
        let mut i: usize = 0;
        while i < fields.len()
            invariant
                i <= fields.len(),
                line == Some(text),
                all == fields_of(text@),
                texts(fields@) == all,
                states@.no_duplicates(),
                states_from(all, Seq::empty()) == states_from(all.skip(i as int), states@),
            decreases fields.len() - i,
        {
            let field = &fields[i];
            proof {
                assert(all.skip(i as int)[0] == field@);
                assert(all.skip(i as int).drop_first() =~= all.skip(i + 1));
            }
            let state = match parse_usize(field) {
                Ok(state) => state,
                Err(e) => {
                    return Err(DfaError::InvalidNumber(Role::State, string_of(field), e));
                },
            };
            if holds_state(&states, state) {
                return Err(DfaError::DuplicateState(state));
            }
            states.push(state);
            i += 1;
        }
        Ok(states)
    }

    /// Reads the initial state from its line, if the text has the line.
    pub fn parse_initial_state(line: Option<&Vec<char>>, states: &Vec<State>) -> (r: Result<
        State,
        DfaError,
    >)
        ensures
            match line {
                None => r is Err && r->Err_0@ == DfaFault::Missing(Section::InitialState),
                Some(l) => match r {
                    Ok(initial) => initial_of(l@, states@) == Ok::<State, DfaFault>(initial),
                    Err(e) => initial_of(l@, states@) == Err::<State, DfaFault>(e@),
                },
            },
    {
        let text = match line {
            Some(text) => text,
            None => {
                return Err(DfaError::Missing(Section::InitialState));
            },
        };
        let initial = match parse_usize(text) {
            Ok(initial) => initial,
            Err(e) => {
                return Err(DfaError::InvalidNumber(Role::InitialState, string_of(text), e));
            },
        };
        if !holds_state(states, initial) {
            return Err(DfaError::UnknownInitialState(string_of(text)));
        }
        Ok(initial)
    }

    /// Reads the final states from their line, if the text has the line.
    pub fn parse_final_states(line: Option<&Vec<char>>, states: &Vec<State>) -> (r: Result<
        Vec<State>,
        DfaError,
    >)
        ensures
            match line {
                None => r is Err && r->Err_0@ == DfaFault::Missing(Section::FinalStates),
                Some(l) => match r {
                    Ok(finals) => {
                        &&& finals_from(fields_of(l@), states@, Seq::empty()) == Ok::<
                            Seq<State>,
                            DfaFault,
                        >(finals@)
                        &&& finals@.no_duplicates()
                        &&& forall|j: int|
                            0 <= j < finals@.len() ==> states@.contains(#[trigger] finals@[j])
                    },
                    Err(e) => finals_from(fields_of(l@), states@, Seq::empty()) == Err::<
                        Seq<State>,
                        DfaFault,
                    >(e@),
                },
            },
    {
        let text = match line {
            Some(text) => text,
            None => {
                return Err(DfaError::Missing(Section::FinalStates));
            },
        };
        let fields = split_whitespace(text);
        let ghost all = fields_of(text@);
        proof {
            assert(all.skip(0) =~= all);
        }
        let mut finals: Vec<State> = Vec::new();
        let mut i: usize = 0;
        while i < fields.len()
            invariant
                i <= fields.len(),
                line == Some(text),
                all == fields_of(text@),
                texts(fields@) == all,
                finals@.no_duplicates(),
                forall|j: int| 0 <= j < finals@.len() ==> states@.contains(#[trigger] finals@[j]),
                finals_from(all, states@, Seq::empty()) == finals_from(
                    all.skip(i as int),
                    states@,
                    finals@,
                ),
            decreases fields.len() - i,
        {
            let field = &fields[i];
            proof {
                assert(all.skip(i as int)[0] == field@);
                assert(all.skip(i as int).drop_first() =~= all.skip(i + 1));
            }
            let state = match parse_usize(field) {
                Ok(state) => state,
                Err(e) => {
                    return Err(DfaError::InvalidNumber(Role::FinalState, string_of(field), e));
                },
            };
            if !holds_state(states, state) {
                return Err(DfaError::UnknownState(Role::FinalState, state));
            }
            if holds_state(&finals, state) {
                return Err(DfaError::DuplicateFinalState(state));
            }
            finals.push(state);
            i += 1;
        }
        Ok(finals)
    }

    /// Reads one transition from its line.
    fn parse_transition(
        line: &Vec<char>,
        alphabet: &Vec<char>,
        states: &Vec<State>,
        transitions: &HashMap<(State, char), State>,
    ) -> (r: Result<(State, char, State), DfaError>)
        requires
            transitions.wf(),
        ensures
            match r {
                Ok(t) => transition_of(line@, alphabet@, states@, transitions@) == Ok::<
                    (State, char, State),
                    DfaFault,
                >(t),
                Err(e) => transition_of(line@, alphabet@, states@, transitions@) == Err::<
                    (State, char, State),
                    DfaFault,
                >(e@),
            },
    {
        let parts = split_whitespace(line);
        if parts.len() != 3 {
            return Err(DfaError::InvalidTransition(string_of(line)));
        }
        proof {
            assert(texts(parts@)[0] == parts@[0]@);
            assert(texts(parts@)[1] == parts@[1]@);
            assert(texts(parts@)[2] == parts@[2]@);
        }
        let start_state = match parse_usize(&parts[0]) {
            Ok(state) => state,
            Err(e) => {
                return Err(DfaError::InvalidNumber(Role::StartState, string_of(&parts[0]), e));
            },
        };
        if !holds_state(states, start_state) {
            return Err(DfaError::UnknownState(Role::StartState, start_state));
        }
        let symbol = match Self::parse_symbol(&parts[1]) {
            Some(symbol) => symbol,
            None => {
                return Err(
                    DfaError::InvalidTransitionSymbol(string_of(&parts[1]), string_of(line)),
                );
            },
        };
        if !holds_symbol(alphabet, symbol) {
            return Err(DfaError::UnknownTransitionSymbol(symbol, string_of(line)));
        }
        let end_state = match parse_usize(&parts[2]) {
            Ok(state) => state,
            Err(e) => {
                return Err(DfaError::InvalidNumber(Role::EndState, string_of(&parts[2]), e));
            },
        };
        if !holds_state(states, end_state) {
            return Err(DfaError::UnknownState(Role::EndState, end_state));
        }
        if transitions.get(&(start_state, symbol)).is_some() {
            return Err(DfaError::DuplicateTransition(string_of(line)));
        }
        Ok((start_state, symbol, end_state))
    }

    /// Reads the transitions from the lines after the first four, and adds
    /// the states that they touch to `used`.
    fn parse_transitions(
        lines: &Vec<Vec<char>>,
        alphabet: &Vec<char>,
        states: &Vec<State>,
        used: &mut Vec<State>,
    ) -> (r: Result<HashMap<(State, char), State>, DfaError>)
        requires
            lines.len() < usize::MAX / 2,
        ensures
            match r {
                Ok(transitions) => {
                    &&& transitions.wf()
                    &&& transitions_from(
                        texts(lines@),
                        4,
                        alphabet@,
                        states@,
                        Map::empty(),
                        old(used)@,
                    ) == Ok::<(Map<(State, char), State>, Seq<State>), DfaFault>(
                        (transitions@, final(used)@),
                    )
                    &&& transitions@.len() > 0
                    &&& forall|from: State, c: char| #[trigger]
                        transitions@.contains_key((from, c)) ==> {
                            &&& states@.contains(from)
                            &&& alphabet@.contains(c)
                            &&& states@.contains(transitions@[(from, c)])
                        }
                    &&& forall|j: int|
                        old(used)@.len() <= j < final(used)@.len() ==> touches(
                            transitions@,
                            #[trigger] final(used)@[j],
                        )
                    &&& forall|j: int|
                        0 <= j < old(used)@.len() ==> final(used)@[j] == old(used)@[j]
                    &&& final(used)@.len() >= old(used)@.len()
                },
                Err(e) => transitions_from(
                    texts(lines@),
                    4,
                    alphabet@,
                    states@,
                    Map::empty(),
                    old(used)@,
                ) == Err::<(Map<(State, char), State>, Seq<State>), DfaFault>(e@),
            },
    {
        let mut transitions: HashMap<(State, char), State> = HashMap::new();
        let ghost all = texts(lines@);
        let ghost before = used@;
        let mut i: usize = 4;
        proof {
            transitions.lemma_len_below_slots();
        }
        while i < lines.len()
            invariant
                4 <= i,
                lines.len() < usize::MAX / 2,
                all == texts(lines@),
                before == old(used)@,
                transitions.wf(),
                transitions@.dom().finite(),
                transitions@.len() <= i - 4,
                transitions_from(all, 4, alphabet@, states@, Map::empty(), before)
                    == transitions_from(all, i as int, alphabet@, states@, transitions@, used@),
                forall|from: State, c: char| #[trigger]
                    transitions@.contains_key((from, c)) ==> {
                        &&& states@.contains(from)
                        &&& alphabet@.contains(c)
                        &&& states@.contains(transitions@[(from, c)])
                    },
                used@.len() >= before.len(),
                forall|j: int| before.len() <= j < used@.len() ==> touches(transitions@, #[trigger] used@[j]),
                forall|j: int| 0 <= j < before.len() ==> used@[j] == before[j],
            decreases lines.len() - i,
        {
            let line = &lines[i];
            proof {
                assert(all[i as int] == line@);
            }
            if line.len() == 0 {
                i += 1;
                continue ;
            }
            let (from, symbol, to) = match Self::parse_transition(
                line,
                alphabet,
                states,
                &transitions,
            ) {
                Ok(t) => t,
                Err(e) => {
                    return Err(e);
                },
            };
            let ghost earlier = transitions@;
            let ghost used_earlier = used@;
            transitions.insert((from, symbol), to);
            used.push(from);
            used.push(to);
            proof {
                transitions.lemma_len_below_slots();
                assert(transitions@.dom() =~= earlier.dom().insert((from, symbol)));
                assert(transitions@.contains_key((from, symbol)));
                assert forall|j: int| before.len() <= j < used@.len() implies touches(
                    transitions@,
                    #[trigger] used@[j],
                ) by {
                    if j < used_earlier.len() {
                        assert(touches(earlier, used_earlier[j]));
                        let (f, c) = choose|f: State, c: char| #[trigger]
                            earlier.contains_key((f, c)) && (f == used@[j] || earlier[(f, c)]
                                == used@[j]);
                        assert(transitions@.contains_key((f, c)));
                    }
                }
            }
            i += 1;
        }
        if transitions.len() == 0 {
            return Err(DfaError::Missing(Section::Transitions));
        }
        Ok(transitions)
    }

    /// Looks for a declared state that nothing uses.
    fn consistency_check(states: &Vec<State>, used: &Vec<State>) -> (r: Result<(), DfaError>)
        ensures
            match r {
                Ok(_) => first_unused(states@, used@) is None && forall|j: int|
                    0 <= j < states@.len() ==> used@.contains(#[trigger] states@[j]),
                Err(e) => first_unused(states@, used@) is Some && e@ == DfaFault::UnusedState(
                    first_unused(states@, used@)->0,
                ),
            },
    {
        let mut i: usize = 0;
        proof {
            assert(states@.skip(0) =~= states@);
        }
        while i < states.len()
            invariant
                i <= states.len(),
                first_unused(states@, used@) == first_unused(states@.skip(i as int), used@),
                forall|j: int| 0 <= j < i ==> used@.contains(#[trigger] states@[j]),
            decreases states.len() - i,
        {
            proof {
                assert(states@.skip(i as int)[0] == states@[i as int]);
                assert(states@.skip(i as int).drop_first() =~= states@.skip(i + 1));
            }
            if !holds_state(used, states[i]) {
                return Err(DfaError::UnusedState(states[i]));
            }
            i += 1;
        }
        Ok(())
    }

    /// Builds the automaton that the lines of a definition give.
    pub fn parse_file(lines: &Vec<Vec<char>>) -> (r: Result<Automaton, DfaError>)
        requires
            lines.len() < usize::MAX / 2,
        ensures
            match r {
                Ok(automaton) => automaton.wf() && automaton.model().valid() && dfa_of(texts(lines@))
                    == Ok::<Dfa, DfaFault>(automaton.model()),
                Err(e) => dfa_of(texts(lines@)) == Err::<Dfa, DfaFault>(e@),
            },
    {
        let ghost all = texts(lines@);
        proof {
            if lines.len() > 0 {
                assert(all[0] == lines@[0]@);
            }
            if lines.len() > 1 {
                assert(all[1] == lines@[1]@);
            }
            if lines.len() > 2 {
                assert(all[2] == lines@[2]@);
            }
            if lines.len() > 3 {
                assert(all[3] == lines@[3]@);
            }
        }
        let alphabet = match Self::parse_alphabet(
            if lines.len() > 0 {
                Some(&lines[0])
            } else {
                None
            },
        ) {
            Ok(alphabet) => alphabet,
            Err(e) => {
                return Err(e);
            },
        };
        let states = match Self::parse_states(
            if lines.len() > 1 {
                Some(&lines[1])
            } else {
                None
            },
        ) {
            Ok(states) => states,
            Err(e) => {
                return Err(e);
            },
        };
        let initial_state = match Self::parse_initial_state(
            if lines.len() > 2 {
                Some(&lines[2])
            } else {
                None
            },
            &states,
        ) {
            Ok(state) => state,
            Err(e) => {
                return Err(e);
            },
        };
        let final_states = match Self::parse_final_states(
            if lines.len() > 3 {
                Some(&lines[3])
            } else {
                None
            },
            &states,
        ) {
            Ok(states) => states,
            Err(e) => {
                return Err(e);
            },
        };
        let mut used: Vec<State> = Vec::new();
        used.push(initial_state);
        let mut i: usize = 0;
        while i < final_states.len()
            invariant
                i <= final_states.len(),
                used@ == seq![initial_state] + final_states@.take(i as int),
            decreases final_states.len() - i,
        {
            used.push(final_states[i]);
            proof {
                assert(final_states@.take(i + 1) =~= final_states@.take(i as int).push(
                    final_states@[i as int],
                ));
                assert(used@ =~= seq![initial_state] + final_states@.take(i + 1));
            }
            i += 1;
        }
        proof {
            assert(final_states@.take(i as int) =~= final_states@);
        }
        let ghost seeded = used@;
        let transitions = match Self::parse_transitions(lines, &alphabet, &states, &mut used) {
            Ok(transitions) => transitions,
            Err(e) => {
                return Err(e);
            },
        };
        match Self::consistency_check(&states, &used) {
            Ok(_) => {},
            Err(e) => {
                return Err(e);
            },
        }
        let automaton = Automaton { alphabet, states, initial_state, final_states, transitions };
        proof {
            let dfa = automaton.model();
            transitions.lemma_len_below_slots();
            assert(exists|from: State, c: char| dfa.delta.contains_key((from, c))) by {
                assert(dfa.delta.dom().len() > 0);
                let k = choose|k: (State, char)| dfa.delta.dom().contains(k);
                if !dfa.delta.dom().contains(k) {
                    assert(dfa.delta.dom() =~= Set::empty());
                }
                assert(dfa.delta.contains_key((k.0, k.1)));
            }
            assert forall|j: int| 0 <= j < dfa.states.len() implies dfa.uses(
                #[trigger] dfa.states[j],
            ) by {
                let q = dfa.states[j];
                assert(used@.contains(q));
                let u = choose|u: int| 0 <= u < used@.len() && used@[u] == q;
                if u < seeded.len() {
                    assert(seeded[u] == q);
                    if u > 0 {
                        assert(dfa.finals[u - 1] == q);
                    }
                } else {
                    assert(touches(dfa.delta, used@[u]));
                }
            }
        }
        Ok(automaton)
    }

    /// Builds the automaton that `source` defines: the text of a definition
    /// in five sections.
    pub fn new(source: &str) -> (r: Result<Automaton, DfaError>)
        requires
            source@.len() < usize::MAX / 2,
        ensures
            match r {
                Ok(automaton) => automaton.wf() && automaton.model().valid() && dfa_of(
                    lines_of(source@),
                ) == Ok::<Dfa, DfaFault>(automaton.model()),
                Err(e) => dfa_of(lines_of(source@)) == Err::<Dfa, DfaFault>(e@),
            },
    {
        let text = chars_of(source);
        let lines = split_lines(&text);
        proof {
            lemma_line_count(text@, 0);
        }
        Self::parse_file(&lines)
    }

    /// Whether the automaton accepts the characters `sequence`.
    pub fn accepts(&self, sequence: &Vec<char>) -> (accepted: bool)
        requires
            self.wf(),
        ensures
            accepted == self.model().accepts(sequence@),
    {
        let mut current_state = self.initial_state;
        let mut i: usize = 0;
        while i < sequence.len()
            invariant
                self.wf(),
                i <= sequence.len(),
                run(self.transitions@, self.initial_state, sequence@.take(i as int)) == Some(
                    current_state,
                ),
            decreases sequence.len() - i,
        {
            let symbol = sequence[i];
            proof {
                lemma_run_push(
                    self.transitions@,
                    self.initial_state,
                    sequence@.take(i as int),
                    symbol,
                );
                assert(sequence@.take(i as int).push(symbol) =~= sequence@.take(i + 1));
            }
            match self.transitions.get(&(current_state, symbol)) {
                Some(next_state) => {
                    current_state = *next_state;
                },
                None => {
                    proof {
                        lemma_run_none(
                            self.transitions@,
                            self.initial_state,
                            sequence@,
                            i + 1,
                        );
                    }
                    return false;
                },
            }
            i += 1;
        }
        proof {
            assert(sequence@.take(i as int) =~= sequence@);
        }
        holds_state(&self.final_states, current_state)
    }

    /// Whether the automaton accepts `sequence`.
    pub fn validate(&self, sequence: &str) -> (accepted: bool)
        requires
            self.wf(),
        ensures
            accepted == self.model().accepts(sequence@),
    {
        let symbols = chars_of(sequence);
        self.accepts(&symbols)
    }
}

/// A text has at most as many lines as characters.
pub proof fn lemma_line_count(s: Seq<char>, from: int)
    requires
        0 <= from <= s.len(),
    ensures
        lines_from(s, from).len() <= s.len() - from,
    decreases s.len() - from,
{
    if from < s.len() {
        crate::text::lemma_line_end(s, from);
        let end = crate::text::line_end(s, from);
        if end < s.len() {
            lemma_line_count(s, end + 1);
        }
    }
}

/// Reading `input` and then more is reading on from where `input` ends.
pub proof fn lemma_run_append(
    delta: Map<(State, char), State>,
    q: State,
    input: Seq<char>,
    more: Seq<char>,
)
    ensures
        run(delta, q, input + more) == match run(delta, q, input) {
            Some(p) => run(delta, p, more),
            None => None,
        },
    decreases input.len(),
{
    if input.len() == 0 {
        assert(input + more =~= more);
    } else {
        assert((input + more).drop_first() =~= input.drop_first() + more);
        if delta.contains_key((q, input[0])) {
            lemma_run_append(delta, delta[(q, input[0])], input.drop_first(), more);
        }
    }
}

/// An input with a prefix that cannot be read cannot be read.
pub proof fn lemma_run_none(delta: Map<(State, char), State>, q: State, input: Seq<char>, n: int)
    requires
        0 <= n <= input.len(),
        run(delta, q, input.take(n)) is None,
    ensures
        run(delta, q, input) is None,
{
    lemma_run_append(delta, q, input.take(n), input.skip(n));
    assert(input.take(n) + input.skip(n) =~= input);
}

} // verus!
