use crate::analysis::{
    alt_count, alt_symbols, predicts, symbol_count, symbols_bound, Analysis,
};
use crate::grammar::{end_marker, epsilon, names_of, rules_of, Cfg, Grammar, Rule};
use crate::hash_map::HashMap;
use crate::output::{NodeView, ParserOutput};
use crate::table::Table;
use crate::text::{chars_of, fields_of, split_whitespace, string_of, texts};
use crate::token::{text_is, Token, TokenKind, TokenView};
use vstd::prelude::*;

verus! {

/// The text of the end marker.
pub const EOF_TOKEN: &'static str = "$";

/// A key of the parsing table: a non-terminal and a terminal.
pub type TableKey = (Seq<char>, Seq<char>);

/// The parsing table after the first `j` alternatives of rule `i` and all
/// alternatives of the rules before it: each alternative is entered for its
/// left-hand side and every terminal that it predicts, over what was entered
/// before.
pub open spec fn table_upto(cfg: Cfg, i: int, j: int) -> Map<TableKey, Seq<char>>
    decreases i, j,
{
    if i < 0 || i > cfg.rules.len() || (i == cfg.rules.len() && j > 0) {
        Map::empty()
    } else if j <= 0 {
        if i == 0 {
            Map::empty()
        } else {
            table_upto(cfg, i - 1, cfg.rules[i - 1].alternatives.len() as int)
        }
    } else {
        let before = table_upto(cfg, i, j - 1);
        let lhs = cfg.rules[i].lhs;
        let alternative = cfg.rules[i].alternatives[j - 1];
        Map::new(
            |key: TableKey|
                before.contains_key(key) || (key.0 == lhs && predicts(cfg, lhs, alternative, key.1)),
            |key: TableKey|
                if key.0 == lhs && predicts(cfg, lhs, alternative, key.1) {
                    alternative
                } else {
                    before[key]
                },
        )
    }
}

/// The parsing table of a grammar.
pub open spec fn parsing_table(cfg: Cfg) -> Map<TableKey, Seq<char>> {
    table_upto(cfg, cfg.rules.len() as int, 0)
}

/// The table `m` holds the entries `entries`.
pub open spec fn table_is(m: Map<TableKey, String>, entries: Map<TableKey, Seq<char>>) -> bool {
    &&& forall|key: TableKey| m.contains_key(key) == entries.contains_key(key)
    &&& forall|key: TableKey| #[trigger] m.contains_key(key) ==> m[key]@ == entries[key]
}

/// Alternative `b` of rule `a`, one of those before alternative `j` of rule
/// `i`, is an alternative of the non-terminal of `key` that predicts the
/// terminal of `key`.
pub open spec fn enters(cfg: Cfg, i: int, j: int, a: int, b: int, key: TableKey) -> bool {
    &&& 0 <= a < cfg.rules.len()
    &&& 0 <= b < cfg.rules[a].alternatives.len()
    &&& (a < i || (a == i && b < j))
    &&& cfg.rules[a].lhs == key.0
    &&& predicts(cfg, key.0, cfg.rules[a].alternatives[b], key.1)
}

/// The table built so far has an entry for a key exactly where one of the
/// alternatives entered so far is for this key, and the entry is one of
/// them.
pub proof fn lemma_table_upto(cfg: Cfg, i: int, j: int, key: TableKey)
    requires
        0 <= i <= cfg.rules.len(),
        0 <= j,
        i < cfg.rules.len() ==> j <= cfg.rules[i].alternatives.len(),
        i == cfg.rules.len() ==> j == 0,
    ensures
        table_upto(cfg, i, j).contains_key(key) == exists|a: int, b: int|
            enters(cfg, i, j, a, b, key),
        table_upto(cfg, i, j).contains_key(key) ==> exists|a: int, b: int|
            enters(cfg, i, j, a, b, key) && table_upto(cfg, i, j)[key]
                == cfg.rules[a].alternatives[b],
    decreases i, j,
{
    if j <= 0 {
        if i > 0 {
            let n = cfg.rules[i - 1].alternatives.len() as int;
            lemma_table_upto(cfg, i - 1, n, key);
            if table_upto(cfg, i, j).contains_key(key) {
                let (a, b) = choose|a: int, b: int|
                    enters(cfg, i - 1, n, a, b, key) && table_upto(cfg, i - 1, n)[key]
                        == cfg.rules[a].alternatives[b];
                assert(enters(cfg, i, j, a, b, key));
            }
            if exists|a: int, b: int| enters(cfg, i, j, a, b, key) {
                let (a, b) = choose|a: int, b: int| enters(cfg, i, j, a, b, key);
                assert(enters(cfg, i - 1, n, a, b, key));
            }
        } else {
            assert forall|a: int, b: int| !enters(cfg, i, j, a, b, key) by {}
        }
    } else {
        let before = table_upto(cfg, i, j - 1);
        let lhs = cfg.rules[i].lhs;
        let alternative = cfg.rules[i].alternatives[j - 1];
        lemma_table_upto(cfg, i, j - 1, key);
        if key.0 == lhs && predicts(cfg, lhs, alternative, key.1) {
            assert(enters(cfg, i, j, i, j - 1, key));
        } else {
            if before.contains_key(key) {
                let (a, b) = choose|a: int, b: int|
                    enters(cfg, i, j - 1, a, b, key) && before[key]
                        == cfg.rules[a].alternatives[b];
                assert(enters(cfg, i, j, a, b, key));
            }
            if exists|a: int, b: int| enters(cfg, i, j, a, b, key) {
                let (a, b) = choose|a: int, b: int| enters(cfg, i, j, a, b, key);
                assert(enters(cfg, i, j - 1, a, b, key));
            }
        }
    }
}

/// The parsing table has an entry for a non-terminal and a terminal exactly
/// where an alternative of the non-terminal predicts the terminal, and the
/// entry is such an alternative.
pub proof fn lemma_parsing_table(cfg: Cfg, key: TableKey)
    ensures
        parsing_table(cfg).contains_key(key) == exists|a: int, b: int|
            enters(cfg, cfg.rules.len() as int, 0, a, b, key),
        parsing_table(cfg).contains_key(key) ==> exists|a: int, b: int|
            enters(cfg, cfg.rules.len() as int, 0, a, b, key) && parsing_table(cfg)[key]
                == cfg.rules[a].alternatives[b],
{
    lemma_table_upto(cfg, cfg.rules.len() as int, 0, key);
}

/// Whether a parsing table of the grammar fits a hash map on this machine.
pub open spec fn table_room(cfg: Cfg) -> bool {
    alt_count(cfg.rules) * symbols_bound(cfg) < usize::MAX / 2
}

/// The grammar terminal that a token stands for: its kind for an identifier
/// or a constant, else its lexeme.
pub open spec fn symbol_of(t: TokenView) -> Seq<char> {
    match t.kind {
        TokenKind::Identifier => "Identifier"@,
        TokenKind::Constant => "Constant"@,
        _ => t.inner,
    }
}

/// The name that a table holds under `position`, if it holds one.
pub open spec fn named_at(index_of: Map<Seq<char>, usize>, position: usize) -> Option<Seq<char>> {
    if exists|k: Seq<char>| index_of.contains_key(k) && index_of[k] == position {
        Some(choose|k: Seq<char>| index_of.contains_key(k) && index_of[k] == position)
    } else {
        None
    }
}

/// The value of a token: for an identifier or a constant the name that its
/// table holds under the token's position, else, and where the table holds
/// none, its lexeme.
pub open spec fn value_of(
    t: TokenView,
    identifiers: Map<Seq<char>, usize>,
    constants: Map<Seq<char>, usize>,
) -> Seq<char> {
    match t.kind {
        TokenKind::Identifier => match named_at(identifiers, t.position) {
            Some(name) => name,
            None => t.inner,
        },
        TokenKind::Constant => match named_at(constants, t.position) {
            Some(name) => name,
            None => t.inner,
        },
        _ => t.inner,
    }
}

/// The stack after the symbols of an alternative were pushed onto it, last
/// symbol first, without the empty marker.
pub open spec fn pushed(stack: Seq<Seq<char>>, symbols: Seq<Seq<char>>) -> Seq<Seq<char>>
    decreases symbols.len(),
{
    if symbols.len() == 0 {
        stack
    } else {
        pushed(
            if symbols.last() == epsilon() {
                stack
            } else {
                stack.push(symbols.last())
            },
            symbols.drop_last(),
        )
    }
}

/// Why a token stream is not a sentence of the grammar.
#[derive(Debug)]
pub enum ParseError {
    /// The input or the stack ended before the other.
    UnexpectedEnd,
    /// The terminal on the stack is not the one in the input.
    Expected(String, String),
    /// The table has no entry for the non-terminal and the terminal.
    NoRule(String, String),
    /// The stack is empty.
    Exhausted,
    /// The parse took more steps than this machine counts.
    StepLimit,
}

/// A `ParseError` as a mathematical value.
pub enum ParseFault {
    UnexpectedEnd,
    Expected(Seq<char>, Seq<char>),
    NoRule(Seq<char>, Seq<char>),
    Exhausted,
    StepLimit,
}

impl View for ParseError {
    type V = ParseFault;

    open spec fn view(&self) -> ParseFault {
        match *self {
            ParseError::UnexpectedEnd => ParseFault::UnexpectedEnd,
            ParseError::Expected(top, found) => ParseFault::Expected(top@, found@),
            ParseError::NoRule(top, found) => ParseFault::NoRule(top@, found@),
            ParseError::Exhausted => ParseFault::Exhausted,
            ParseError::StepLimit => ParseFault::StepLimit,
        }
    }
}

/// The message of a fault.
pub open spec fn parse_fault_message(fault: ParseFault) -> Seq<char> {
    match fault {
        ParseFault::UnexpectedEnd => "Parse error: unexpected end of input stream"@,
        ParseFault::Expected(top, found) => "Parse error: expected "@ + top + ", found "@ + found,
        ParseFault::NoRule(top, found) => "Parse error: no rule for "@ + top + " with "@ + found,
        ParseFault::Exhausted => "Parse error: grammar exhausted before token stream"@,
        ParseFault::StepLimit => "Parse error: too many steps"@,
    }
}

impl ParseError {
    /// The error as a message.
    pub fn to_string(&self) -> (s: String)
        ensures
            s@ == parse_fault_message(self@),
    {
        match self {
            ParseError::UnexpectedEnd => String::from_str(
                "Parse error: unexpected end of input stream",
            ),
            ParseError::Expected(top, found) => {
                let mut s = String::from_str("Parse error: expected ");
                s.append(top.as_str());
                s.append(", found ");
                s.append(found.as_str());
                s
            },
            ParseError::NoRule(top, found) => {
                let mut s = String::from_str("Parse error: no rule for ");
                s.append(top.as_str());
                s.append(" with ");
                s.append(found.as_str());
                s
            },
            ParseError::Exhausted => String::from_str(
                "Parse error: grammar exhausted before token stream",
            ),
            ParseError::StepLimit => String::from_str("Parse error: too many steps"),
        }
    }
}

/// What a predictive parse works on: the terminals of the grammar, its
/// parsing table, and for each token of the input its terminal and its
/// value.
pub struct Input {
    pub terminals: Seq<Seq<char>>,
    pub table: Map<TableKey, Seq<char>>,
    pub symbols: Seq<Seq<char>>,
    pub values: Seq<Seq<char>>,
}

/// The state of a predictive parse: the stack, the place in the input, the
/// tree so far, and the nodes that were expanded.
pub struct Machine {
    pub stack: Seq<Seq<char>>,
    pub at: int,
    pub nodes: Seq<NodeView>,
    pub parents: Seq<usize>,
}

/// The outcome of one step of a parse.
pub enum Verdict {
    Accept,
    Fault(ParseFault),
    Next(Machine),
}

/// The node that was expanded last, if any was.
pub open spec fn parent_of(parents: Seq<usize>) -> Option<usize> {
    if parents.len() == 0 {
        None
    } else {
        Some(parents.last())
    }
}

/// The terminal at place `at` of the input: that of the token there, or the
/// end marker behind the last token.
pub open spec fn current(input: Input, at: int) -> Seq<char> {
    if 0 <= at < input.symbols.len() {
        input.symbols[at]
    } else {
        end_marker()
    }
}

/// One step of the parse. With the end marker on the stack and the input at
/// its end, the input is accepted. A terminal on the stack that is the
/// current token is popped and becomes a leaf. A non-terminal is replaced by
/// the alternative that the table holds for it and the current terminal, and
/// becomes a node under which what follows is put. Anything else is a fault.
pub open spec fn step(input: Input, m: Machine) -> Verdict {
    if m.stack.len() == 0 {
        Verdict::Fault(ParseFault::Exhausted)
    } else {
        let top = m.stack.last();
        let at_end = m.at < 0 || m.at >= input.symbols.len();
        let found = current(input, m.at);
        if top == end_marker() {
            if at_end {
                Verdict::Accept
            } else {
                Verdict::Fault(ParseFault::UnexpectedEnd)
            }
        } else if input.terminals.contains(top) {
            if at_end {
                Verdict::Fault(ParseFault::UnexpectedEnd)
            } else if top == found {
                Verdict::Next(
                    Machine {
                        stack: m.stack.drop_last(),
                        at: m.at + 1,
                        nodes: m.nodes.push(
                            NodeView { symbol: input.values[m.at], parent: parent_of(m.parents) },
                        ),
                        parents: m.parents,
                    },
                )
            } else {
                Verdict::Fault(ParseFault::Expected(top, found))
            }
        } else if input.table.contains_key((top, found)) {
            Verdict::Next(
                Machine {
                    stack: pushed(m.stack.drop_last(), fields_of(input.table[(top, found)])),
                    at: m.at,
                    nodes: m.nodes.push(NodeView { symbol: top, parent: parent_of(m.parents) }),
                    parents: m.parents.push(m.nodes.len() as usize),
                },
            )
        } else {
            Verdict::Fault(ParseFault::NoRule(top, found))
        }
    }
}

/// The parse from the state `m`, for at most `fuel` steps more than one.
pub open spec fn run(input: Input, m: Machine, fuel: nat) -> Result<Seq<NodeView>, ParseFault>
    decreases fuel,
{
    match step(input, m) {
        Verdict::Accept => Ok(m.nodes),
        Verdict::Fault(fault) => Err(fault),
        Verdict::Next(next) => if fuel == 0 {
            Err(ParseFault::StepLimit)
        } else {
            run(input, next, (fuel - 1) as nat)
        },
    }
}

/// The state in which a parse starts: the start symbol on the end marker.
pub open spec fn start_machine(start: Seq<char>) -> Machine {
    Machine {
        stack: seq![end_marker(), start],
        at: 0,
        nodes: Seq::empty(),
        parents: Seq::empty(),
    }
}

/// The nodes `leaves` of the tree `nodes` are, in this order, leaves for the
/// values `values`.
pub open spec fn carries(nodes: Seq<NodeView>, leaves: Seq<int>, values: Seq<Seq<char>>) -> bool {
    &&& leaves.len() == values.len()
    &&& forall|k: int|
        0 <= k < leaves.len() ==> 0 <= #[trigger] leaves[k] < nodes.len() && nodes[leaves[k]].symbol
            == values[k]
    &&& forall|a: int, b: int| 0 <= a < b < leaves.len() ==> leaves[a] < leaves[b]
}

/// A parse that has leaves for the tokens it has read, and accepts, ends
/// with leaves for all tokens.
pub proof fn lemma_run_leaves(input: Input, m: Machine, fuel: nat, leaves: Seq<int>)
    requires
        input.symbols.len() == input.values.len(),
        0 <= m.at <= input.symbols.len(),
        carries(m.nodes, leaves, input.values.take(m.at)),
        run(input, m, fuel) is Ok,
    ensures
        exists|all: Seq<int>| carries(run(input, m, fuel)->Ok_0, all, input.values),
    decreases fuel,
{
    let result = run(input, m, fuel)->Ok_0;
    match step(input, m) {
        Verdict::Accept => {
            assert(result == m.nodes);
            assert(input.values.take(m.at) =~= input.values);
            assert(carries(result, leaves, input.values));
        },
        Verdict::Fault(fault) => {
            assert(run(input, m, fuel) is Err);
        },
        Verdict::Next(next) => {
            assert(fuel > 0);
            assert(run(input, m, fuel) == run(input, next, (fuel - 1) as nat));
            let top = m.stack.last();
            if input.terminals.contains(top) {
                assert(0 <= m.at < input.symbols.len());
                let more = leaves.push(m.nodes.len() as int);
                assert(next.at == m.at + 1);
                assert(next.nodes == m.nodes.push(
                    NodeView { symbol: input.values[m.at], parent: parent_of(m.parents) },
                ));
                assert(input.values.take(m.at + 1) =~= input.values.take(m.at).push(
                    input.values[m.at],
                ));
                assert(carries(next.nodes, more, input.values.take(next.at))) by {
                    assert forall|k: int| 0 <= k < more.len() implies 0 <= #[trigger] more[k]
                        < next.nodes.len() && next.nodes[more[k]].symbol == input.values.take(
                        next.at,
                    )[k] by {
                        if k < leaves.len() {
                            assert(0 <= leaves[k] < m.nodes.len());
                            assert(more[k] == leaves[k]);
                            assert(next.nodes[leaves[k]] == m.nodes[leaves[k]]);
                        }
                    }
                    assert forall|a: int, b: int| 0 <= a < b < more.len() implies more[a]
                        < more[b] by {
                        if b < leaves.len() {
                            assert(leaves[a] < leaves[b]);
                        } else {
                            assert(0 <= leaves[a] < m.nodes.len());
                        }
                    }
                }
                lemma_run_leaves(input, next, (fuel - 1) as nat, more);
                let all = choose|all: Seq<int>| carries(result, all, input.values);
                assert(carries(result, all, input.values));
            } else {
                assert(next.at == m.at);
                assert(next.nodes == m.nodes.push(
                    NodeView { symbol: top, parent: parent_of(m.parents) },
                ));
                assert(carries(next.nodes, leaves, input.values.take(next.at))) by {
                    assert forall|k: int| 0 <= k < leaves.len() implies 0 <= #[trigger] leaves[k]
                        < next.nodes.len() && next.nodes[leaves[k]].symbol == input.values.take(
                        next.at,
                    )[k] by {
                        assert(0 <= leaves[k] < m.nodes.len());
                        assert(next.nodes[leaves[k]] == m.nodes[leaves[k]]);
                    }
                }
                lemma_run_leaves(input, next, (fuel - 1) as nat, leaves);
                let all = choose|all: Seq<int>| carries(result, all, input.values);
                assert(carries(result, all, input.values));
            }
        },
    }
}

/// The tree of an accepted input has, in the order of the input, one leaf
/// for each token, with the token's value.
pub proof fn lemma_leaves_are_tokens(input: Input, start: Seq<char>, fuel: nat)
    requires
        input.symbols.len() == input.values.len(),
        run(input, start_machine(start), fuel) is Ok,
    ensures
        exists|leaves: Seq<int>|
            carries(run(input, start_machine(start), fuel)->Ok_0, leaves, input.values),
{
    assert(input.values.take(0) =~= Seq::<Seq<char>>::empty());
    assert(carries(start_machine(start).nodes, Seq::<int>::empty(), input.values.take(0)));
    lemma_run_leaves(input, start_machine(start), fuel, Seq::empty());
}

/// Entry `u` of `row`, one of the first `t`, is set and has the name `text`.
spec fn is_mark(row: Seq<bool>, names: Seq<Seq<char>>, t: int, text: Seq<char>, u: int) -> bool {
    0 <= u < t && u < row.len() && u < names.len() && row[u] && names[u] == text
}

/// One of the first `t` entries of `row` is set and has the name `text`.
spec fn marked(row: Seq<bool>, names: Seq<Seq<char>>, t: int, text: Seq<char>) -> bool {
    exists|u: int| is_mark(row, names, t, text, u)
}

/// The number of alternatives of the first rules is at most that of all.
proof fn lemma_alt_count(rules: Seq<Rule>, i: int)
    requires
        0 <= i < rules.len(),
    ensures
        alt_count(rules.take(i)) + rules[i].alternatives.len() == alt_count(rules.take(i + 1)),
        alt_count(rules.take(i + 1)) <= alt_count(rules),
    decreases rules.len() - i,
{
    assert(rules.take(i + 1).drop_last() =~= rules.take(i));
    assert(rules.take(i + 1).last() == rules[i]);
    if i + 1 < rules.len() {
        lemma_alt_count(rules, i + 1);
    } else {
        assert(rules.take(i + 1) =~= rules);
    }
}

/// A predictive parser for a grammar.
pub struct LL1Parser {
    grammar: Grammar,
    parsing_table: HashMap<(String, String), String>,
}

impl LL1Parser {
    /// The grammar of the parser.
    pub closed spec fn grammar(&self) -> Cfg {
        self.grammar.model()
    }

    /// The invariant: the table is the parsing table of the grammar.
    pub closed spec fn wf(&self) -> bool {
        self.parsing_table.wf() && table_is(self.parsing_table@, parsing_table(self.grammar.model()))
    }

    /// A parser for `grammar`, with its parsing table.
    pub fn new(grammar: Grammar) -> (parser: LL1Parser)
        requires
            table_room(grammar.model()),
        ensures
            parser.wf(),
            parser.grammar() == grammar.model(),
    {
        let parsing_table = Self::construct_parsing_table(&grammar);
        LL1Parser { grammar, parsing_table }
    }

    /// The parsing table.
    pub fn get_parsing_table(&self) -> (table: &HashMap<(String, String), String>)
        ensures
            self.wf() ==> table.wf() && table_is(table@, parsing_table(self.grammar())),
    {
        &self.parsing_table
    }

    /// The grammar.
    pub fn get_grammar(&self) -> (grammar: &Grammar)
        ensures
            grammar.model() == self.grammar(),
    {
        &self.grammar
    }

    /// Builds the parsing table of `grammar`.
    fn construct_parsing_table(grammar: &Grammar) -> (table: HashMap<(String, String), String>)
        requires
            table_room(grammar.model()),
        ensures
            table.wf(),
            table_is(table@, parsing_table(grammar.model())),
    {
        let ghost cfg = grammar.model();
        let analysis = Analysis::new(grammar);
        let n = analysis.symbols();
        let ghost names = analysis.names();
        let productions = grammar.get_productions();
        let mut table: HashMap<(String, String), String> = HashMap::new();
        let ghost all = alt_count(cfg.rules);
        proof {
            analysis.lemma_names();
            table.lemma_len_below_slots();
            assert(cfg.rules.take(0) =~= Seq::<Rule>::empty());
            assert(all * n <= all * symbols_bound(cfg)) by (nonlinear_arith)
                requires
                    n <= symbols_bound(cfg),
            ;
        }
        let mut i: usize = 0;
        while i < productions.len()
            invariant
                i <= productions.len(),
                cfg == grammar.model(),
                rules_of(productions@) == cfg.rules,
                analysis.wf(),
                analysis.grammar() == cfg,
                names == analysis.names(),
                n == names.len(),
                names.no_duplicates(),
                all == alt_count(cfg.rules),
                all * n < usize::MAX / 2,
                table.wf(),
                table@.dom().finite(),
                table@.len() <= alt_count(cfg.rules.take(i as int)) * n,
                table_is(table@, table_upto(cfg, i as int, 0)),
            decreases productions.len() - i,
        {
            let production = &productions[i];
            let alternatives = production.get_alternatives();
            let ghost done = alt_count(cfg.rules.take(i as int));
            proof {
                assert(cfg.rules[i as int] == production@);
                lemma_alt_count(cfg.rules, i as int);
            }
            let mut j: usize = 0;
            while j < alternatives.len()
                invariant
                    j <= alternatives.len(),
                    i < productions.len(),
                    cfg == grammar.model(),
                    rules_of(productions@) == cfg.rules,
                    cfg.rules[i as int] == production@,
                    names_of(alternatives@) == production@.alternatives,
                    analysis.wf(),
                    analysis.grammar() == cfg,
                    names == analysis.names(),
                    n == names.len(),
                    names.no_duplicates(),
                    all * n < usize::MAX / 2,
                    done + alternatives@.len() <= all,
                    table.wf(),
                    table@.dom().finite(),
                    table@.len() <= (done + j) * n,
                    table_is(table@, table_upto(cfg, i as int, j as int)),
                decreases alternatives.len() - j,
            {
                let ghost lhs = cfg.rules[i as int].lhs;
                let ghost alternative = cfg.rules[i as int].alternatives[j as int];
                let ghost before = table@;
                let ghost entries = table_upto(cfg, i as int, j as int);
                proof {
                    assert(production@.alternatives[j as int] == alternatives@[j as int]@);
                    assert((done + j) * n + n <= all * n) by (nonlinear_arith)
                        requires
                            done + j + 1 <= all,
                    ;
                }
                let row = analysis.predict(i, j);
                let mut t: usize = 0;
                while t < n
                    invariant
                        t <= n,
                        i < productions.len(),
                        j < alternatives.len(),
                        cfg.rules[i as int] == production@,
                        names_of(alternatives@) == production@.alternatives,
                        lhs == production@.lhs,
                        alternative == alternatives@[j as int]@,
                        names == analysis.names(),
                        n == names.len(),
                        row@.len() == n,
                        (done + j) * n + n < usize::MAX / 2,
                        table.wf(),
                        table@.dom().finite(),
                        table@.len() <= (done + j) * n + t,
                        forall|key: TableKey|
                            table@.contains_key(key) == (before.contains_key(key) || (key.0 == lhs
                                && marked(row@, names, t as int, key.1))),
                        forall|key: TableKey| #[trigger]
                            table@.contains_key(key) ==> table@[key]@ == (if key.0 == lhs && marked(
                                row@,
                                names,
                                t as int,
                                key.1,
                            ) {
                                alternative
                            } else {
                                before[key]@
                            }),
                    decreases n - t,
                {
                    let ghost earlier = table@;
                    let ghost t0 = t as int;
                    let ghost t1 = t + 1;
                    if row[t] {
                        let key = (production.get_lhs().to_string(), analysis.name(t).clone());
                        let value = alternatives[j].clone();
                        proof {
                            table.lemma_len_below_slots();
                        }
                        table.insert(key, value);
                        proof {
                            table.lemma_len_below_slots();
                            assert(table@.dom() =~= earlier.dom().insert(key@));
                            assert(key@ == (lhs, names[t0]));
                            assert(is_mark(row@, names, t1, names[t0], t0));
                        }
                    }
                    t += 1;
                    proof {
                        assert(t as int == t1);
                        assert forall|k: TableKey| marked(row@, names, t as int, k.1) == (marked(
                            row@,
                            names,
                            t0,
                            k.1,
                        ) || (row@[t0] && names[t0] == k.1)) by {
                            if marked(row@, names, t as int, k.1) {
                                let u = choose|u: int| is_mark(row@, names, t as int, k.1, u);
                                if u < t0 {
                                    assert(is_mark(row@, names, t0, k.1, u));
                                }
                            }
                            if marked(row@, names, t0, k.1) {
                                let u = choose|u: int| is_mark(row@, names, t0, k.1, u);
                                assert(is_mark(row@, names, t as int, k.1, u));
                            }
                            if row@[t0] && names[t0] == k.1 {
                                assert(is_mark(row@, names, t as int, k.1, t0));
                            }
                        }
                        assert forall|k: TableKey|
                            table@.contains_key(k) == (before.contains_key(k) || (k.0 == lhs
                                && marked(row@, names, t as int, k.1))) by {
                            assert(earlier.contains_key(k) == (before.contains_key(k) || (k.0 == lhs
                                && marked(row@, names, t0, k.1))));
                        }
                        assert forall|k: TableKey| #[trigger]
                            table@.contains_key(k) implies table@[k]@ == (if k.0 == lhs && marked(
                            row@,
                            names,
                            t as int,
                            k.1,
                        ) {
                            alternative
                        } else {
                            before[k]@
                        }) by {
                            if row@[t0] && k == (lhs, names[t0]) {
                            } else {
                                assert(earlier.contains_key(k));
                            }
                        }
                    }
                }
                proof {
                    let next = table_upto(cfg, i as int, j + 1);
                    let full = n as int;
                    assert forall|k: TableKey| (k.0 == lhs && marked(row@, names, full, k.1)) == (k.0
                        == lhs && predicts(cfg, lhs, alternative, k.1)) by {
                        if k.0 == lhs && predicts(cfg, lhs, alternative, k.1) {
                            analysis.lemma_predicted(lhs, alternative, k.1);
                            let u = choose|u: int| 0 <= u < names.len() && names[u] == k.1;
                            assert(row@[u]);
                            assert(is_mark(row@, names, full, k.1, u));
                        }
                        if k.0 == lhs && marked(row@, names, full, k.1) {
                            let u = choose|u: int| is_mark(row@, names, full, k.1, u);
                            assert(row@[u] == predicts(cfg, lhs, alternative, names[u]));
                        }
                    }
                    assert forall|k: TableKey| table@.contains_key(k) == next.contains_key(k) by {
                        assert(before.contains_key(k) == entries.contains_key(k));
                    }
                    assert forall|k: TableKey| #[trigger] table@.contains_key(k) implies table@[k]@
                        == next[k] by {
                        if before.contains_key(k) {
                            assert(before[k]@ == entries[k]);
                        }
                        assert(before.contains_key(k) == entries.contains_key(k));
                    }
                    assert((done + j) * n + n == (done + j + 1) * n) by (nonlinear_arith);
                }
                j += 1;
            }
            proof {
                assert(table_upto(cfg, i + 1, 0) == table_upto(
                    cfg,
                    i as int,
                    cfg.rules[i as int].alternatives.len() as int,
                ));
            }
            i += 1;
        }
        table
    }
}


/// The terminals of the tokens `tokens`.
pub open spec fn symbols_of(tokens: Seq<TokenView>) -> Seq<Seq<char>> {
    Seq::new(tokens.len(), |i: int| symbol_of(tokens[i]))
}

/// The values of the tokens `tokens`.
pub open spec fn values_of(
    tokens: Seq<TokenView>,
    identifiers: Map<Seq<char>, usize>,
    constants: Map<Seq<char>, usize>,
) -> Seq<Seq<char>> {
    Seq::new(tokens.len(), |i: int| value_of(tokens[i], identifiers, constants))
}

/// What the parse of `tokens` by the grammar `cfg` works on.
pub open spec fn input_of(
    cfg: Cfg,
    tokens: Seq<TokenView>,
    identifiers: Map<Seq<char>, usize>,
    constants: Map<Seq<char>, usize>,
) -> Input {
    Input {
        terminals: cfg.terminals,
        table: parsing_table(cfg),
        symbols: symbols_of(tokens),
        values: values_of(tokens, identifiers, constants),
    }
}

/// The views of the tokens `v`.
pub open spec fn views_of(v: Seq<Token>) -> Seq<TokenView> {
    Seq::new(v.len(), |i: int| v[i]@)
}

/// The name that `table` holds under `position`, or else `inner`.
fn lookup(table: &Table<String>, position: usize, inner: &str) -> (value: String)
    requires
        table.wf(),
    ensures
        value@ == match named_at(table.index_of(), position) {
            Some(name) => name,
            None => inner@,
        },
{
    proof {
        table.lemma_indices();
    }
    match table.get(&position) {
        Some(name) => {
            proof {
                let found = named_at(table.index_of(), position);
                assert(table.index_of().contains_key(name@) && table.index_of()[name@] == position);
                assert(found is Some);
            }
            name.clone()
        },
        None => String::from_str(inner),
    }
}

impl LL1Parser {
    /// Pushes the symbols of `production` onto `stack`, last symbol first,
    /// without the empty marker.
    fn push_symbols(stack: &mut Vec<String>, production: &str)
        ensures
            names_of(final(stack)@) == pushed(names_of(old(stack)@), fields_of(production@)),
    {
        let text = chars_of(production);
        let symbols = split_whitespace(&text);
        let ghost all = fields_of(production@);
        let ghost base = names_of(stack@);
        let mut k: usize = symbols.len();
        proof {
            assert(all.take(k as int) =~= all);
        }
        while k > 0
            invariant
                k <= symbols.len(),
                texts(symbols@) == all,
                pushed(base, all) == pushed(names_of(stack@), all.take(k as int)),
            decreases k,
        {
            k -= 1;
            let ghost before = names_of(stack@);
            proof {
                let part = all.take(k + 1);
                assert(part.last() == symbols@[k as int]@);
                assert(part.drop_last() =~= all.take(k as int));
            }
            if !text_is(&symbols[k], "ε") {
                stack.push(string_of(&symbols[k]));
                proof {
                    assert(names_of(stack@) =~= before.push(symbols@[k as int]@));
                }
            }
        }
        proof {
            assert(all.take(0) =~= Seq::<Seq<char>>::empty());
        }
    }

    /// Parses `tokens`: builds the tree of the predictive parse, or names
    /// the fault at which the parse stops.
    pub fn parse(
        &self,
        tokens: &Vec<Token>,
        identifiers: &Table<String>,
        constants: &Table<String>,
    ) -> (r: Result<ParserOutput, ParseError>)
        requires
            self.wf(),
            identifiers.wf(),
            constants.wf(),
        ensures
            match r {
                Ok(output) => output.wf() && run(
                    input_of(
                        self.grammar(),
                        views_of(tokens@),
                        identifiers.index_of(),
                        constants.index_of(),
                    ),
                    start_machine(self.grammar().start),
                    usize::MAX as nat,
                ) == Ok::<Seq<NodeView>, ParseFault>(output@),
                Err(e) => run(
                    input_of(
                        self.grammar(),
                        views_of(tokens@),
                        identifiers.index_of(),
                        constants.index_of(),
                    ),
                    start_machine(self.grammar().start),
                    usize::MAX as nat,
                ) == Err::<Seq<NodeView>, ParseFault>(e@),
            },
    {
        let ghost cfg = self.grammar.model();
        let ghost input = input_of(
            cfg,
            views_of(tokens@),
            identifiers.index_of(),
            constants.index_of(),
        );
        let n = tokens.len();
        let mut symbols: Vec<String> = Vec::new();
        let mut values: Vec<String> = Vec::new();
        let mut i: usize = 0;
        while i < n
            invariant
                i <= n,
                n == tokens@.len(),
                identifiers.wf(),
                constants.wf(),
                input == input_of(
                    cfg,
                    views_of(tokens@),
                    identifiers.index_of(),
                    constants.index_of(),
                ),
                symbols@.len() == i,
                values@.len() == i,
                forall|k: int| 0 <= k < i ==> (#[trigger] symbols@[k])@ == input.symbols[k],
                forall|k: int| 0 <= k < i ==> (#[trigger] values@[k])@ == input.values[k],
            decreases n - i,
        {
            let token = &tokens[i];
            let inner = token.get_inner();
            let (symbol, value) = match token.get_kind() {
                TokenKind::Identifier => (
                    String::from_str("Identifier"),
                    lookup(identifiers, token.value(), inner),
                ),
                TokenKind::Constant => (
                    String::from_str("Constant"),
                    lookup(constants, token.value(), inner),
                ),
                _ => (String::from_str(inner), String::from_str(inner)),
            };
            proof {
                assert(views_of(tokens@)[i as int] == token@);
            }
            symbols.push(symbol);
            values.push(value);
            i += 1;
        }
        let mut stack: Vec<String> = Vec::new();
        stack.push(String::from_str("$"));
        stack.push(self.grammar.get_start_symbol().to_string());
        let mut parent_stack: Vec<usize> = Vec::new();
        let mut output = ParserOutput::new();
        let mut at: usize = 0;
        let mut steps: usize = 0;
        proof {
            assert(names_of(stack@) =~= seq![end_marker(), cfg.start]);
        }
        loop
            invariant
                self.wf(),
                cfg == self.grammar.model(),
                n == tokens@.len(),
                input == input_of(
                    cfg,
                    views_of(tokens@),
                    identifiers.index_of(),
                    constants.index_of(),
                ),
                symbols@.len() == n,
                values@.len() == n,
                forall|k: int| 0 <= k < n ==> (#[trigger] symbols@[k])@ == input.symbols[k],
                forall|k: int| 0 <= k < n ==> (#[trigger] values@[k])@ == input.values[k],
                at <= n,
                output.wf(),
                forall|k: int| 0 <= k < parent_stack@.len() ==> (#[trigger] parent_stack@[k]) < output@.len(),
                run(input, start_machine(cfg.start), usize::MAX as nat) == run(
                    input,
                    Machine {
                        stack: names_of(stack@),
                        at: at as int,
                        nodes: output@,
                        parents: parent_stack@,
                    },
                    (usize::MAX - steps) as nat,
                ),
            decreases usize::MAX - steps,
        {
            let ghost m = Machine {
                stack: names_of(stack@),
                at: at as int,
                nodes: output@,
                parents: parent_stack@,
            };
            if stack.len() == 0 {
                return Err(ParseError::Exhausted);
            }
            let top_index = stack.len() - 1;
            let top = chars_of(stack[top_index].as_str());
            proof {
                assert(m.stack.last() == top@);
            }
            let top_is_end = text_is(&top, "$");
            let at_end = at >= n;
            if top_is_end {
                if at_end {
                    return Ok(output);
                }
                return Err(ParseError::UnexpectedEnd);
            }
            let parent: Option<&usize> = if parent_stack.len() > 0 {
                Some(&parent_stack[parent_stack.len() - 1])
            } else {
                None
            };
            if crate::grammar::holds_text(self.grammar.get_terminals(), &top) {
                if at_end {
                    return Err(ParseError::UnexpectedEnd);
                }
                if !stack[top_index].eq(&symbols[at]) {
                    return Err(
                        ParseError::Expected(stack[top_index].clone(), symbols[at].clone()),
                    );
                }
                if steps == usize::MAX {
                    return Err(ParseError::StepLimit);
                }
                let ghost before = names_of(stack@);
                stack.pop();
                output.add_node(Some(values[at].clone()), parent);
                at += 1;
                steps += 1;
                proof {
                    assert(names_of(stack@) =~= before.drop_last());
                }
            } else {
                let found = if at_end {
                    String::from_str("$")
                } else {
                    symbols[at].clone()
                };
                proof {
                    assert(found@ == current(input, at as int));
                }
                let key = (stack[top_index].clone(), found);
                let production = match self.parsing_table.get(&key) {
                    Some(production) => production,
                    None => {
                        return Err(ParseError::NoRule(key.0, key.1));
                    },
                };
                proof {
                    assert(self.parsing_table@.contains_key(key@));
                    assert(production@ == input.table[key@]);
                }
                if steps == usize::MAX {
                    return Err(ParseError::StepLimit);
                }
                let ghost before = names_of(stack@);
                let non_terminal = stack.pop();
                let new_parent = output.len();
                proof {
                    assert(names_of(stack@) =~= before.drop_last());
                    assert(non_terminal->0@ == top@);
                }
                output.add_node(non_terminal, parent);
                parent_stack.push(new_parent);
                Self::push_symbols(&mut stack, production.as_str());
                steps += 1;
            }
        }
    }
}


/// The number of symbols of the first rules with that of the next rule is
/// that of one rule more.
proof fn lemma_symbol_count(rules: Seq<Rule>, i: int)
    requires
        0 <= i < rules.len(),
    ensures
        symbol_count(rules.take(i)) + 1 + alt_symbols(rules[i].alternatives) == symbol_count(
            rules.take(i + 1),
        ),
{
    assert(rules.take(i + 1).drop_last() =~= rules.take(i));
    assert(rules.take(i + 1).last() == rules[i]);
}

/// The sum of `a` and `b` if it is no more than what this machine counts.
fn sum(a: usize, b: usize) -> (r: Option<usize>)
    ensures
        match r {
            Some(n) => n == a + b,
            None => a + b > usize::MAX,
        },
{
    if a > usize::MAX - b {
        None
    } else {
        Some(a + b)
    }
}

impl LL1Parser {
    /// The number of alternatives of `grammar`, if this machine counts it.
    fn count_alternatives(grammar: &Grammar) -> (r: Option<usize>)
        ensures
            match r {
                Some(n) => n == alt_count(grammar.model().rules),
                None => alt_count(grammar.model().rules) > usize::MAX,
            },
    {
        let ghost rules = grammar.model().rules;
        let productions = grammar.get_productions();
        let mut total: usize = 0;
        let mut i: usize = 0;
        proof {
            assert(rules.take(0) =~= Seq::<Rule>::empty());
        }
        while i < productions.len()
            invariant
                i <= productions.len(),
                rules == grammar.model().rules,
                rules_of(productions@) == rules,
                total == alt_count(rules.take(i as int)),
            decreases productions.len() - i,
        {
            proof {
                lemma_alt_count(rules, i as int);
                assert(rules[i as int] == productions@[i as int]@);
            }
            let alternatives = productions[i].get_alternatives();
            proof {
                assert(names_of(alternatives@).len() == alternatives@.len());
            }
            match sum(total, alternatives.len()) {
                Some(n) => {
                    total = n;
                },
                None => {
                    return None;
                },
            }
            i += 1;
        }
        proof {
            assert(rules.take(i as int) =~= rules);
        }
        Some(total)
    }

    /// The bound on the number of symbols of `grammar`, if this machine
    /// counts it.
    fn count_symbols(grammar: &Grammar) -> (r: Option<usize>)
        ensures
            match r {
                Some(n) => n == symbols_bound(grammar.model()),
                None => symbols_bound(grammar.model()) > usize::MAX,
            },
    {
        let ghost cfg = grammar.model();
        let ghost rules = cfg.rules;
        let productions = grammar.get_productions();
        let terminals = grammar.get_terminals();
        proof {
            assert(names_of(terminals@).len() == terminals@.len());
            assert(rules.take(0) =~= Seq::<Rule>::empty());
        }
        let mut total: usize = match sum(3, terminals.len()) {
            Some(n) => n,
            None => {
                return None;
            },
        };
        let mut i: usize = 0;
        while i < productions.len()
            invariant
                i <= productions.len(),
                cfg == grammar.model(),
                rules == cfg.rules,
                rules_of(productions@) == rules,
                total == 3 + cfg.terminals.len() + symbol_count(rules.take(i as int)),
            decreases productions.len() - i,
        {
            proof {
                lemma_symbol_count(rules, i as int);
                lemma_symbols_grow(rules, i + 1);
                assert(rules[i as int] == productions@[i as int]@);
            }
            let alternatives = productions[i].get_alternatives();
            let ghost alts = rules[i as int].alternatives;
            let mut part: usize = 1;
            let mut j: usize = 0;
            proof {
                assert(alts.take(0) =~= Seq::<Seq<char>>::empty());
            }
            while j < alternatives.len()
                invariant
                    j <= alternatives.len(),
                    cfg == grammar.model(),
                    names_of(alternatives@) == alts,
                    part == 1 + alt_symbols(alts.take(j as int)),
                    alt_symbols(alts.take(j as int)) <= alt_symbols(alts),
                    3 + cfg.terminals.len() + symbol_count(rules.take(i as int)) + 1 + alt_symbols(
                        alts,
                    ) <= symbols_bound(cfg),
                decreases alternatives.len() - j,
            {
                let text = chars_of(alternatives[j].as_str());
                let symbols = split_whitespace(&text);
                proof {
                    assert(alts[j as int] == alternatives@[j as int]@);
                    assert(alts.take(j + 1).drop_last() =~= alts.take(j as int));
                    assert(alts.take(j + 1).last() == alts[j as int]);
                    assert(texts(symbols@).len() == symbols@.len());
                    lemma_alt_symbols_grow(alts, j + 1);
                    assert(alt_symbols(alts.take(j + 1)) == alt_symbols(alts.take(j as int))
                        + symbols@.len());
                }
                match sum(part, symbols.len()) {
                    Some(n) => {
                        part = n;
                    },
                    None => {
                        return None;
                    },
                }
                j += 1;
            }
            proof {
                assert(alts.take(j as int) =~= alts);
            }
            match sum(total, part) {
                Some(n) => {
                    total = n;
                },
                None => {
                    return None;
                },
            }
            i += 1;
        }
        proof {
            assert(rules.take(i as int) =~= rules);
        }
        Some(total)
    }

    /// Whether a parsing table of `grammar` fits a hash map on this machine.
    pub fn has_table_room(grammar: &Grammar) -> (b: bool)
        ensures
            b == table_room(grammar.model()),
    {
        let alternatives = match Self::count_alternatives(grammar) {
            Some(n) => n,
            None => {
                proof {
                    let a = alt_count(grammar.model().rules);
                    let b = symbols_bound(grammar.model());
                    assert(a * b >= a) by (nonlinear_arith)
                        requires
                            b >= 1,
                            a >= 0,
                    ;
                }
                return false;
            },
        };
        if alternatives == 0 {
            proof {
                assert(0 * symbols_bound(grammar.model()) == 0) by (nonlinear_arith);
            }
            return true;
        }
        let symbols = match Self::count_symbols(grammar) {
            Some(n) => n,
            None => {
                proof {
                    let a = alt_count(grammar.model().rules);
                    let b = symbols_bound(grammar.model());
                    assert(a * b >= b) by (nonlinear_arith)
                        requires
                            a >= 1,
                            b >= 0,
                    ;
                }
                return false;
            },
        };
        let limit = (usize::MAX / 2 - 1) / alternatives;
        proof {
            let a = alternatives as int;
            let b = symbols as int;
            let m = (usize::MAX / 2 - 1) as int;
            assert((b <= m / a) == (a * b <= m)) by (nonlinear_arith)
                requires
                    a >= 1,
                    b >= 0,
                    m >= 0,
            ;
        }
        symbols <= limit
    }

    /// A parser for `grammar`, if its parsing table fits a hash map on this
    /// machine.
    pub fn build(grammar: Grammar) -> (r: Option<LL1Parser>)
        ensures
            match r {
                Some(parser) => table_room(grammar.model()) && parser.wf() && parser.grammar()
                    == grammar.model(),
                None => !table_room(grammar.model()),
            },
    {
        if Self::has_table_room(&grammar) {
            Some(Self::new(grammar))
        } else {
            None
        }
    }
}

/// The number of symbols of the first rules is at most that of all.
proof fn lemma_symbols_grow(rules: Seq<Rule>, i: int)
    requires
        0 <= i <= rules.len(),
    ensures
        symbol_count(rules.take(i)) <= symbol_count(rules),
    decreases rules.len() - i,
{
    if i < rules.len() {
        lemma_symbol_count(rules, i);
        lemma_symbols_grow(rules, i + 1);
    } else {
        assert(rules.take(i) =~= rules);
    }
}

/// The number of symbols of the first alternatives is at most that of all.
proof fn lemma_alt_symbols_grow(alternatives: Seq<Seq<char>>, j: int)
    requires
        0 <= j <= alternatives.len(),
    ensures
        alt_symbols(alternatives.take(j)) <= alt_symbols(alternatives),
    decreases alternatives.len() - j,
{
    if j < alternatives.len() {
        assert(alternatives.take(j + 1).drop_last() =~= alternatives.take(j));
        lemma_alt_symbols_grow(alternatives, j + 1);
    } else {
        assert(alternatives.take(j) =~= alternatives);
    }
}

} // verus!
