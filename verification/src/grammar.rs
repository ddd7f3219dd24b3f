use crate::text::{chars_of, fields_of, lines_of, same_text, split_lines, split_whitespace, string_of, texts};
use crate::token::text_is;
use vstd::prelude::*;

verus! {

/// The sections of a grammar's definition.
#[derive(Clone, Copy, Debug, PartialEq, Eq, Structural)]
pub enum Part {
    NonTerminals,
    Terminals,
    StartSymbol,
}

/// Why a text does not define a grammar.
#[derive(Debug)]
pub enum GrammarError {
    /// The text ends before the section.
    Missing(Part),
    /// The line of the start symbol does not hold exactly one declared
    /// non-terminal.
    InvalidStartSymbol(String),
    /// The line is no production: it lacks a left-hand side, the arrow, or a
    /// symbol in one of its alternatives.
    InvalidProduction(String),
    /// The left-hand side has this alternative twice.
    DuplicateProduction(String, String),
}

/// A `GrammarError` as a mathematical value.
pub enum GrammarFault {
    Missing(Part),
    InvalidStartSymbol(Seq<char>),
    InvalidProduction(Seq<char>),
    DuplicateProduction(Seq<char>, Seq<char>),
}

impl View for GrammarError {
    type V = GrammarFault;

    open spec fn view(&self) -> GrammarFault {
        match *self {
            GrammarError::Missing(part) => GrammarFault::Missing(part),
            GrammarError::InvalidStartSymbol(line) => GrammarFault::InvalidStartSymbol(line@),
            GrammarError::InvalidProduction(line) => GrammarFault::InvalidProduction(line@),
            GrammarError::DuplicateProduction(lhs, alternative) => GrammarFault::DuplicateProduction(
                lhs@,
                alternative@,
            ),
        }
    }
}

impl Part {
    /// What the section holds, in words.
    pub open spec fn text(self) -> Seq<char> {
        match self {
            Part::NonTerminals => "non-terminals"@,
            Part::Terminals => "terminals"@,
            Part::StartSymbol => "start symbol"@,
        }
    }

    /// What the section holds, in words.
    pub fn describe(&self) -> (s: &'static str)
        ensures
            s@ == self.text(),
    {
        match self {
            Part::NonTerminals => "non-terminals",
            Part::Terminals => "terminals",
            Part::StartSymbol => "start symbol",
        }
    }
}

/// The message of a fault.
pub open spec fn grammar_fault_message(fault: GrammarFault) -> Seq<char> {
    match fault {
        GrammarFault::Missing(part) => "invalid grammar file: missing "@ + part.text(),
        GrammarFault::InvalidStartSymbol(line) => "start symbol '"@ + line
            + "' is not a non-terminal"@,
        GrammarFault::InvalidProduction(line) => "invalid production: "@ + line,
        GrammarFault::DuplicateProduction(lhs, alternative) => "duplicate production '"@ + lhs
            + " -> "@ + alternative + "'"@,
    }
}

impl GrammarError {
    /// The error as a message.
    pub fn to_string(&self) -> (s: String)
        ensures
            s@ == grammar_fault_message(self@),
    {
        match self {
            GrammarError::Missing(part) => {
                let mut s = String::from_str("invalid grammar file: missing ");
                s.append(part.describe());
                s
            },
            GrammarError::InvalidStartSymbol(line) => {
                let mut s = String::from_str("start symbol '");
                s.append(line.as_str());
                s.append("' is not a non-terminal");
                s
            },
            GrammarError::InvalidProduction(line) => {
                let mut s = String::from_str("invalid production: ");
                s.append(line.as_str());
                s
            },
            GrammarError::DuplicateProduction(lhs, alternative) => {
                let mut s = String::from_str("duplicate production '");
                s.append(lhs.as_str());
                s.append(" -> ");
                s.append(alternative.as_str());
                s.append("'");
                s
            },
        }
    }
}

/// The productions of one left-hand side as mathematical values: the
/// left-hand side and its alternatives, each the text of its symbols with
/// single spaces between them.
pub struct Rule {
    pub lhs: Seq<char>,
    pub alternatives: Seq<Seq<char>>,
}

/// A grammar as a mathematical object. The symbols and the productions stand
/// in the order in which the definition gives them, each once.
pub struct Cfg {
    pub non_terminals: Seq<Seq<char>>,
    pub terminals: Seq<Seq<char>>,
    pub start: Seq<char>,
    pub rules: Seq<Rule>,
}

/// The symbol that marks the empty alternative.
pub open spec fn epsilon() -> Seq<char> {
    "ε"@
}

/// The symbol that marks the end of the input.
pub open spec fn end_marker() -> Seq<char> {
    "$"@
}

impl Cfg {
    /// Whether every symbol of the alternative `alternative` is declared.
    pub open spec fn alternative_ok(self, alternative: Seq<char>) -> bool {
        forall|k: int|
            0 <= k < fields_of(alternative).len() ==> self.declares(
                #[trigger] fields_of(alternative)[k],
            )
    }

    /// Whether the left-hand side of `rule` is a declared non-terminal and
    /// every symbol of its alternatives is declared.
    pub open spec fn rule_ok(self, rule: Rule) -> bool {
        &&& self.non_terminals.contains(rule.lhs)
        &&& forall|j: int|
            0 <= j < rule.alternatives.len() ==> self.alternative_ok(#[trigger] rule.alternatives[j])
    }

    /// Whether the grammar is context free: every left-hand side is one
    /// declared non-terminal, every symbol on a right-hand side is a declared
    /// non-terminal or terminal or marks the empty alternative, and the start
    /// symbol has a production.
    pub open spec fn context_free(self) -> bool {
        &&& forall|i: int| 0 <= i < self.rules.len() ==> self.rule_ok(#[trigger] self.rules[i])
        &&& exists|i: int| 0 <= i < self.rules.len() && (#[trigger] self.rules[i]).lhs == self.start
    }

    /// Whether `symbol` may stand on a right-hand side.
    pub open spec fn declares(self, symbol: Seq<char>) -> bool {
        self.non_terminals.contains(symbol) || self.terminals.contains(symbol) || symbol
            == epsilon()
    }
}

/// The texts `parts` with single spaces between them.
pub open spec fn joined(parts: Seq<Seq<char>>) -> Seq<char>
    decreases parts.len(),
{
    if parts.len() == 0 {
        Seq::empty()
    } else if parts.len() == 1 {
        parts[0]
    } else {
        joined(parts.drop_last()) + " "@ + parts.last()
    }
}

/// What a terminal stands for as it is written in the definition: the
/// escapes `\s`, `\p` and `\d` stand for a space, a bar and two bars.
pub open spec fn unescaped(field: Seq<char>) -> Seq<char> {
    if field == "\\s"@ {
        " "@
    } else if field == "\\p"@ {
        "|"@
    } else if field == "\\d"@ {
        "||"@
    } else {
        field
    }
}

/// The symbols that the fields declare, added to `acc`, each once.
pub open spec fn symbols_from(fields: Seq<Seq<char>>, acc: Seq<Seq<char>>, escapes: bool) -> Seq<
    Seq<char>,
>
    decreases fields.len(),
{
    if fields.len() == 0 {
        acc
    } else {
        let symbol = if escapes {
            unescaped(fields[0])
        } else {
            fields[0]
        };
        symbols_from(
            fields.drop_first(),
            if acc.contains(symbol) {
                acc
            } else {
                acc.push(symbol)
            },
            escapes,
        )
    }
}

/// The place of the arrow among the fields of a line at or after `from`, or
/// the number of fields if there is none.
pub open spec fn arrow_from(fields: Seq<Seq<char>>, from: int) -> int
    decreases fields.len() - from,
{
    if from < 0 || from >= fields.len() || fields[from] == "->"@ {
        from
    } else {
        arrow_from(fields, from + 1)
    }
}

/// The alternatives that the fields behind the arrow give, added to `acc`;
/// `current` holds the symbols of the alternative being read. Bars part the
/// alternatives, and each needs a symbol.
pub open spec fn alternatives_from(
    fields: Seq<Seq<char>>,
    current: Seq<Seq<char>>,
    acc: Seq<Seq<char>>,
) -> Option<Seq<Seq<char>>>
    decreases fields.len(),
{
    if fields.len() == 0 {
        if current.len() == 0 {
            None
        } else {
            Some(acc.push(joined(current)))
        }
    } else if fields[0] == "|"@ {
        if current.len() == 0 {
            None
        } else {
            alternatives_from(fields.drop_first(), Seq::empty(), acc.push(joined(current)))
        }
    } else {
        alternatives_from(fields.drop_first(), current.push(fields[0]), acc)
    }
}

/// The production that a line gives: its left-hand side, the fields before
/// the arrow, and its alternatives.
pub open spec fn production_of(line: Seq<char>) -> Option<Rule> {
    let fields = fields_of(line);
    let arrow = arrow_from(fields, 0);
    if arrow <= 0 || arrow >= fields.len() {
        None
    } else {
        match alternatives_from(fields.skip(arrow + 1), Seq::empty(), Seq::empty()) {
            None => None,
            Some(alternatives) => Some(Rule { lhs: joined(fields.take(arrow)), alternatives }),
        }
    }
}

/// The place of the rule for `lhs` at or after `from`, or the number of
/// rules if there is none.
pub open spec fn rule_from(rules: Seq<Rule>, lhs: Seq<char>, from: int) -> int
    decreases rules.len() - from,
{
    if from < 0 || from >= rules.len() || rules[from].lhs == lhs {
        from
    } else {
        rule_from(rules, lhs, from + 1)
    }
}

/// The rules with the alternatives `alternatives` added to those of `lhs`,
/// or the first of them that `lhs` then has twice.
pub open spec fn merged(rules: Seq<Rule>, lhs: Seq<char>, alternatives: Seq<Seq<char>>) -> Result<
    Seq<Rule>,
    GrammarFault,
>
    decreases alternatives.len(),
{
    if alternatives.len() == 0 {
        Ok(rules)
    } else {
        let at = rule_from(rules, lhs, 0);
        let alternative = alternatives[0];
        if 0 <= at < rules.len() {
            if rules[at].alternatives.contains(alternative) {
                Err(GrammarFault::DuplicateProduction(lhs, alternative))
            } else {
                merged(
                    rules.update(
                        at,
                        Rule { lhs, alternatives: rules[at].alternatives.push(alternative) },
                    ),
                    lhs,
                    alternatives.drop_first(),
                )
            }
        } else {
            merged(
                rules.push(Rule { lhs, alternatives: seq![alternative] }),
                lhs,
                alternatives.drop_first(),
            )
        }
    }
}

/// The rules that the lines from `i` on add to `rules`, or the first fault in
/// them. Lines without a field are passed over.
pub open spec fn rules_from(lines: Seq<Seq<char>>, i: int, rules: Seq<Rule>) -> Result<
    Seq<Rule>,
    GrammarFault,
>
    decreases lines.len() - i,
{
    if i < 0 || i >= lines.len() {
        Ok(rules)
    } else if fields_of(lines[i]).len() == 0 {
        rules_from(lines, i + 1, rules)
    } else {
        match production_of(lines[i]) {
            None => Err(GrammarFault::InvalidProduction(lines[i])),
            Some(rule) => match merged(rules, rule.lhs, rule.alternatives) {
                Err(e) => Err(e),
                Ok(next) => rules_from(lines, i + 1, next),
            },
        }
    }
}

/// The grammar that the lines define, or the first fault in them: the
/// non-terminals, the terminals and the start symbol, one line each, then
/// the productions.
pub open spec fn cfg_of(lines: Seq<Seq<char>>) -> Result<Cfg, GrammarFault> {
    if lines.len() < 1 {
        Err(GrammarFault::Missing(Part::NonTerminals))
    } else if lines.len() < 2 {
        Err(GrammarFault::Missing(Part::Terminals))
    } else if lines.len() < 3 {
        Err(GrammarFault::Missing(Part::StartSymbol))
    } else {
        let non_terminals = symbols_from(fields_of(lines[0]), Seq::empty(), false);
        let terminals = symbols_from(fields_of(lines[1]), Seq::empty(), true);
        let start = fields_of(lines[2]);
        if start.len() != 1 || !non_terminals.contains(start[0]) {
            Err(GrammarFault::InvalidStartSymbol(lines[2]))
        } else {
            match rules_from(lines, 3, Seq::empty()) {
                Err(e) => Err(e),
                Ok(rules) => Ok(Cfg { non_terminals, terminals, start: start[0], rules }),
            }
        }
    }
}

/// The rules are well formed: no left-hand side has two entries, and each has
/// at least one alternative and none twice.
pub open spec fn rules_ok(rules: Seq<Rule>) -> bool {
    &&& forall|a: int, b: int|
        0 <= a < rules.len() && 0 <= b < rules.len() && a != b ==> (#[trigger] rules[a]).lhs
            != (#[trigger] rules[b]).lhs
    &&& forall|a: int|
        0 <= a < rules.len() ==> (#[trigger] rules[a]).alternatives.len() > 0
            && rules[a].alternatives.no_duplicates()
}

/// Symbols that are declared once each stay so when more are declared.
pub proof fn lemma_symbols_once(fields: Seq<Seq<char>>, acc: Seq<Seq<char>>, escapes: bool)
    requires
        acc.no_duplicates(),
    ensures
        symbols_from(fields, acc, escapes).no_duplicates(),
    decreases fields.len(),
{
    if fields.len() > 0 {
        let symbol = if escapes {
            unescaped(fields[0])
        } else {
            fields[0]
        };
        let next = if acc.contains(symbol) {
            acc
        } else {
            acc.push(symbol)
        };
        assert(next.no_duplicates()) by {
            if !acc.contains(symbol) {
                assert forall|i: int, j: int|
                    0 <= i < next.len() && 0 <= j < next.len() && i != j implies next[i]
                    != next[j] by {
                    if i < acc.len() && j < acc.len() {
                    } else if i < acc.len() {
                        assert(acc.contains(next[i]));
                    } else {
                        assert(acc.contains(next[j]));
                    }
                }
            }
        }
        lemma_symbols_once(fields.drop_first(), next, escapes);
    }
}

/// The place of a rule is where the rule for the left-hand side is, if there
/// is one.
pub proof fn lemma_rule_from(rules: Seq<Rule>, lhs: Seq<char>, from: int)
    requires
        0 <= from <= rules.len(),
    ensures
        from <= rule_from(rules, lhs, from) <= rules.len(),
        rule_from(rules, lhs, from) < rules.len() ==> rules[rule_from(rules, lhs, from)].lhs == lhs,
        forall|a: int| from <= a < rule_from(rules, lhs, from) ==> (#[trigger] rules[a]).lhs != lhs,
    decreases rules.len() - from,
{
    if from < rules.len() && rules[from].lhs != lhs {
        lemma_rule_from(rules, lhs, from + 1);
    }
}

/// Well-formed rules stay well formed when alternatives are added to them.
pub proof fn lemma_merged_ok(rules: Seq<Rule>, lhs: Seq<char>, alternatives: Seq<Seq<char>>)
    requires
        rules_ok(rules),
        merged(rules, lhs, alternatives) is Ok,
    ensures
        rules_ok(merged(rules, lhs, alternatives)->Ok_0),
    decreases alternatives.len(),
{
    if alternatives.len() > 0 {
        lemma_rule_from(rules, lhs, 0);
        let at = rule_from(rules, lhs, 0);
        let alternative = alternatives[0];
        if 0 <= at < rules.len() {
            let more = rules[at].alternatives.push(alternative);
            let next = rules.update(at, Rule { lhs, alternatives: more });
            assert(more.no_duplicates()) by {
                assert forall|i: int, j: int|
                    0 <= i < more.len() && 0 <= j < more.len() && i != j implies more[i]
                    != more[j] by {
                    let old = rules[at].alternatives;
                    if i < old.len() && j < old.len() {
                    } else if i < old.len() {
                        assert(old.contains(more[i]));
                    } else {
                        assert(old.contains(more[j]));
                    }
                }
            }
            assert(rules_ok(next)) by {
                assert forall|a: int, b: int|
                    0 <= a < next.len() && 0 <= b < next.len() && a != b implies (
                #[trigger] next[a]).lhs != (#[trigger] next[b]).lhs by {
                    assert(rules[a].lhs != rules[b].lhs);
                }
                assert forall|a: int| 0 <= a < next.len() implies (
                #[trigger] next[a]).alternatives.len() > 0
                    && next[a].alternatives.no_duplicates() by {
                    if a != at {
                        assert(rules[a].alternatives.len() > 0);
                    }
                }
            }
            lemma_merged_ok(next, lhs, alternatives.drop_first());
        } else {
            let next = rules.push(Rule { lhs, alternatives: seq![alternative] });
            assert(rules_ok(next)) by {
                assert forall|a: int, b: int|
                    0 <= a < next.len() && 0 <= b < next.len() && a != b implies (
                #[trigger] next[a]).lhs != (#[trigger] next[b]).lhs by {
                    if a < rules.len() && b < rules.len() {
                        assert(rules[a].lhs != rules[b].lhs);
                    } else if a < rules.len() {
                        assert(rules[a].lhs != lhs);
                    } else {
                        assert(rules[b].lhs != lhs);
                    }
                }
                assert forall|a: int| 0 <= a < next.len() implies (
                #[trigger] next[a]).alternatives.len() > 0
                    && next[a].alternatives.no_duplicates() by {
                    if a < rules.len() {
                        assert(rules[a].alternatives.len() > 0);
                    }
                }
            }
            lemma_merged_ok(next, lhs, alternatives.drop_first());
        }
    }
}

/// Well-formed rules stay well formed when the productions of more lines are
/// added to them.
pub proof fn lemma_rules_ok(lines: Seq<Seq<char>>, i: int, rules: Seq<Rule>)
    requires
        rules_ok(rules),
        rules_from(lines, i, rules) is Ok,
    ensures
        rules_ok(rules_from(lines, i, rules)->Ok_0),
    decreases lines.len() - i,
{
    if !(i < 0 || i >= lines.len()) {
        if fields_of(lines[i]).len() == 0 {
            lemma_rules_ok(lines, i + 1, rules);
        } else {
            let rule = production_of(lines[i])->0;
            lemma_merged_ok(rules, rule.lhs, rule.alternatives);
            lemma_rules_ok(lines, i + 1, merged(rules, rule.lhs, rule.alternatives)->Ok_0);
        }
    }
}

/// A grammar that a definition gives declares each of its symbols once, has
/// a declared non-terminal as its start symbol, and holds for each left-hand
/// side one entry, with at least one alternative and none twice.
pub proof fn lemma_loaded(lines: Seq<Seq<char>>)
    requires
        cfg_of(lines) is Ok,
    ensures
        cfg_of(lines)->Ok_0.non_terminals.no_duplicates(),
        cfg_of(lines)->Ok_0.terminals.no_duplicates(),
        cfg_of(lines)->Ok_0.non_terminals.contains(cfg_of(lines)->Ok_0.start),
        rules_ok(cfg_of(lines)->Ok_0.rules),
{
    lemma_symbols_once(fields_of(lines[0]), Seq::empty(), false);
    lemma_symbols_once(fields_of(lines[1]), Seq::empty(), true);
    lemma_rules_ok(lines, 3, Seq::empty());
}

/// Whether `items` holds the text `item`.
pub fn holds_text(items: &Vec<String>, item: &Vec<char>) -> (found: bool)
    ensures
        found == names_of(items@).contains(item@),
{
    let mut i: usize = 0;
    while i < items.len()
        invariant
            i <= items.len(),
            forall|j: int| 0 <= j < i ==> names_of(items@)[j] != item@,
        decreases items.len() - i,
    {
        let text = chars_of(items[i].as_str());
        if same_text(&text, item) {
            proof {
                assert(names_of(items@)[i as int] == item@);
            }
            return true;
        }
        i += 1;
    }
    false
}

/// The texts of the strings `v`.
pub open spec fn names_of(v: Seq<String>) -> Seq<Seq<char>> {
    Seq::new(v.len(), |i: int| v[i]@)
}

/// The productions of one left-hand side.
pub struct Production {
    lhs: String,
    alternatives: Vec<String>,
}

impl View for Production {
    type V = Rule;

    closed spec fn view(&self) -> Rule {
        Rule { lhs: self.lhs@, alternatives: names_of(self.alternatives@) }
    }
}

impl Production {
    /// The left-hand side.
    pub fn get_lhs(&self) -> (lhs: &str)
        ensures
            lhs@ == self@.lhs,
    {
        self.lhs.as_str()
    }

    /// The alternatives.
    pub fn get_alternatives(&self) -> (alternatives: &Vec<String>)
        ensures
            names_of(alternatives@) == self@.alternatives,
    {
        &self.alternatives
    }
}

/// The rules that the productions `v` hold.
pub open spec fn rules_of(v: Seq<Production>) -> Seq<Rule> {
    Seq::new(v.len(), |i: int| v[i]@)
}

/// A grammar: its non-terminals, its terminals, its start symbol and its
/// productions.
pub struct Grammar {
    non_terminals: Vec<String>,
    terminals: Vec<String>,
    start_symbol: String,
    productions: Vec<Production>,
}

/// Appends the texts `parts[from..to]` to `out`, with single spaces between.
fn join_fields(parts: &Vec<Vec<char>>, from: usize, to: usize) -> (out: Vec<char>)
    requires
        from <= to <= parts.len(),
    ensures
        out@ == joined(texts(parts@).subrange(from as int, to as int)),
{
    let mut out: Vec<char> = Vec::new();
    let mut i: usize = from;
    let ghost all = texts(parts@);
    proof {
        assert(all.subrange(from as int, from as int) =~= Seq::<Seq<char>>::empty());
    }
    while i < to
        invariant
            from <= i <= to,
            to <= parts.len(),
            all == texts(parts@),
            out@ == joined(all.subrange(from as int, i as int)),
        decreases to - i,
    {
        let ghost before = out@;
        if i > from {
            out.push(' ');
        }
        let part = &parts[i];
        let mut j: usize = 0;
        let ghost mid = out@;
        while j < part.len()
            invariant
                j <= part.len(),
                out@ == mid + part@.take(j as int),
            decreases part.len() - j,
        {
            out.push(part[j]);
            proof {
                assert(part@.take(j + 1) =~= part@.take(j as int).push(part@[j as int]));
            }
            j += 1;
        }
        proof {
            reveal_strlit(" ");
            assert(part@.take(j as int) =~= part@);
            let next = all.subrange(from as int, i + 1);
            assert(next.drop_last() =~= all.subrange(from as int, i as int));
            assert(next.last() == part@);
            if i > from {
                assert(mid =~= before + " "@);
            } else {
                assert(mid =~= Seq::<char>::empty());
                assert(out@ =~= part@);
                assert(next.len() == 1);
            }
        }
        i += 1;
    }
    out
}

impl Grammar {
    /// The grammar as a mathematical object.
    pub closed spec fn model(&self) -> Cfg {
        Cfg {
            non_terminals: names_of(self.non_terminals@),
            terminals: names_of(self.terminals@),
            start: self.start_symbol@,
            rules: rules_of(self.productions@),
        }
    }

    /// The non-terminals, in the order of their declaration.
    pub fn get_non_terminals(&self) -> (symbols: &Vec<String>)
        ensures
            names_of(symbols@) == self.model().non_terminals,
    {
        &self.non_terminals
    }

    /// The terminals, in the order of their declaration.
    pub fn get_terminals(&self) -> (symbols: &Vec<String>)
        ensures
            names_of(symbols@) == self.model().terminals,
    {
        &self.terminals
    }

    /// The start symbol.
    pub fn get_start_symbol(&self) -> (symbol: &str)
        ensures
            symbol@ == self.model().start,
    {
        self.start_symbol.as_str()
    }

    /// The productions, one entry for each left-hand side.
    pub fn get_productions(&self) -> (productions: &Vec<Production>)
        ensures
            rules_of(productions@) == self.model().rules,
    {
        &self.productions
    }

    /// Whether every symbol of `alternative` is declared.
    fn alternative_declared(&self, alternative: &str) -> (b: bool)
        ensures
            b == self.model().alternative_ok(alternative@),
    {
        let text = chars_of(alternative);
        let symbols = split_whitespace(&text);
        let ghost all = fields_of(alternative@);
        let mut k: usize = 0;
        while k < symbols.len()
            invariant
                k <= symbols.len(),
                texts(symbols@) == all,
                all == fields_of(alternative@),
                forall|j: int| 0 <= j < k ==> self.model().declares(#[trigger] all[j]),
            decreases symbols.len() - k,
        {
            let symbol = &symbols[k];
            proof {
                assert(all[k as int] == symbol@);
            }
            if !(holds_text(&self.non_terminals, symbol) || holds_text(&self.terminals, symbol)
                || text_is(symbol, "ε")) {
                proof {
                    assert(!self.model().declares(fields_of(alternative@)[k as int]));
                }
                return false;
            }
            k += 1;
        }
        true
    }

    /// Whether the grammar is context free.
    pub fn is_context_free(&self) -> (b: bool)
        ensures
            b == self.model().context_free(),
    {
        let ghost cfg = self.model();
        let mut has_start = false;
        let mut i: usize = 0;
        while i < self.productions.len()
            invariant
                i <= self.productions.len(),
                cfg == self.model(),
                forall|r: int| 0 <= r < i ==> cfg.rule_ok(#[trigger] cfg.rules[r]),
                has_start == exists|r: int| 0 <= r < i && (#[trigger] cfg.rules[r]).lhs == cfg.start,
            decreases self.productions.len() - i,
        {
            let production = &self.productions[i];
            proof {
                assert(cfg.rules[i as int] == production@);
            }
            let lhs = chars_of(production.lhs.as_str());
            if !holds_text(&self.non_terminals, &lhs) {
                proof {
                    assert(!cfg.rule_ok(cfg.rules[i as int]));
                }
                return false;
            }
            let mut j: usize = 0;
            while j < production.alternatives.len()
                invariant
                    j <= production.alternatives.len(),
                    cfg == self.model(),
                    i < self.productions.len(),
                    cfg.rules[i as int] == production@,
                    forall|a: int|
                        0 <= a < j ==> cfg.alternative_ok(#[trigger] production@.alternatives[a]),
                decreases production.alternatives.len() - j,
            {
                proof {
                    assert(production@.alternatives[j as int] == production.alternatives@[j as int]@);
                }
                if !self.alternative_declared(production.alternatives[j].as_str()) {
                    proof {
                        assert(!cfg.alternative_ok(cfg.rules[i as int].alternatives[j as int]));
                        assert(!cfg.rule_ok(cfg.rules[i as int]));
                    }
                    return false;
                }
                j += 1;
            }
            if production.lhs.eq(&self.start_symbol) {
                has_start = true;
            }
            i += 1;
        }
        has_start
    }

    /// Reads what a terminal stands for.
    fn unescape(field: &Vec<char>) -> (symbol: String)
        ensures
            symbol@ == unescaped(field@),
    {
        if text_is(field, "\\s") {
            String::from_str(" ")
        } else if text_is(field, "\\p") {
            String::from_str("|")
        } else if text_is(field, "\\d") {
            String::from_str("||")
        } else {
            string_of(field)
        }
    }

    /// Reads the symbols that a line declares.
    fn parse_symbols(line: &Vec<char>, escapes: bool) -> (symbols: Vec<String>)
        ensures
            names_of(symbols@) == symbols_from(fields_of(line@), Seq::empty(), escapes),
    {
        let fields = split_whitespace(line);
        let ghost all = fields_of(line@);
        let mut symbols: Vec<String> = Vec::new();
        let mut i: usize = 0;
        proof {
            assert(all.skip(0) =~= all);
            assert(names_of(symbols@) =~= Seq::<Seq<char>>::empty());
        }
        while i < fields.len()
            invariant
                i <= fields.len(),
                texts(fields@) == all,
                symbols_from(all, Seq::empty(), escapes) == symbols_from(
                    all.skip(i as int),
                    names_of(symbols@),
                    escapes,
                ),
            decreases fields.len() - i,
        {
            proof {
                assert(all.skip(i as int)[0] == fields@[i as int]@);
                assert(all.skip(i as int).drop_first() =~= all.skip(i + 1));
            }
            let symbol = if escapes {
                Self::unescape(&fields[i])
            } else {
                string_of(&fields[i])
            };
            let text = chars_of(symbol.as_str());
            if !holds_text(&symbols, &text) {
                let ghost before = names_of(symbols@);
                symbols.push(symbol);
                proof {
                    assert(names_of(symbols@) =~= before.push(symbol@));
                }
            }
            i += 1;
        }
        symbols
    }

    /// Reads the alternatives of a production from the fields behind its
    /// arrow.
    fn parse_alternatives(fields: &Vec<Vec<char>>, from: usize) -> (r: Option<Vec<String>>)
        requires
            from <= fields.len(),
        ensures
            match r {
                Some(alternatives) => alternatives_from(
                    texts(fields@).skip(from as int),
                    Seq::empty(),
                    Seq::empty(),
                ) == Some(names_of(alternatives@)),
                None => alternatives_from(
                    texts(fields@).skip(from as int),
                    Seq::empty(),
                    Seq::empty(),
                ) is None,
            },
    {
        let ghost all = texts(fields@);
        let mut alternatives: Vec<String> = Vec::new();
        let mut first: usize = from;
        let mut i: usize = from;
        proof {
            assert(all.subrange(from as int, from as int) =~= Seq::<Seq<char>>::empty());
            assert(names_of(alternatives@) =~= Seq::<Seq<char>>::empty());
        }
        while i < fields.len()
            invariant
                from <= first <= i <= fields.len(),
                all == texts(fields@),
                alternatives_from(all.skip(from as int), Seq::empty(), Seq::empty())
                    == alternatives_from(
                    all.skip(i as int),
                    all.subrange(first as int, i as int),
                    names_of(alternatives@),
                ),
            decreases fields.len() - i,
        {
            proof {
                assert(all.skip(i as int)[0] == fields@[i as int]@);
                assert(all.skip(i as int).drop_first() =~= all.skip(i + 1));
            }
            if text_is(&fields[i], "|") {
                if first == i {
                    return None;
                }
                let alternative = string_of(&join_fields(fields, first, i));
                let ghost before = names_of(alternatives@);
                alternatives.push(alternative);
                proof {
                    assert(names_of(alternatives@) =~= before.push(alternative@));
                    assert(all.subrange(i + 1, i + 1) =~= Seq::<Seq<char>>::empty());
                }
                first = i + 1;
            } else {
                proof {
                    assert(all.subrange(first as int, i + 1) =~= all.subrange(
                        first as int,
                        i as int,
                    ).push(all[i as int]));
                }
            }
            i += 1;
        }
        proof {
            assert(all.skip(i as int) =~= Seq::<Seq<char>>::empty());
        }
        if first == i {
            return None;
        }
        let alternative = string_of(&join_fields(fields, first, i));
        let ghost before = names_of(alternatives@);
        alternatives.push(alternative);
        proof {
            assert(names_of(alternatives@) =~= before.push(alternative@));
        }
        Some(alternatives)
    }

    /// Reads the production that a line gives: its left-hand side and its
    /// alternatives.
    fn parse_production(line: &Vec<char>) -> (r: Option<(String, Vec<String>)>)
        ensures
            match r {
                Some((lhs, alternatives)) => production_of(line@) == Some(
                    Rule { lhs: lhs@, alternatives: names_of(alternatives@) },
                ),
                None => production_of(line@) is None,
            },
    {
        let fields = split_whitespace(line);
        let ghost all = fields_of(line@);
        let mut arrow: usize = 0;
        while arrow < fields.len() && !text_is(&fields[arrow], "->")
            invariant
                arrow <= fields.len(),
                texts(fields@) == all,
                arrow_from(all, 0) == arrow_from(all, arrow as int),
            decreases fields.len() - arrow,
        {
            proof {
                assert(all[arrow as int] == fields@[arrow as int]@);
            }
            arrow += 1;
        }
        proof {
            if arrow < fields.len() {
                assert(all[arrow as int] == fields@[arrow as int]@);
            }
        }
        if arrow == 0 || arrow >= fields.len() {
            return None;
        }
        let alternatives = match Self::parse_alternatives(&fields, arrow + 1) {
            Some(alternatives) => alternatives,
            None => {
                return None;
            },
        };
        let lhs = string_of(&join_fields(&fields, 0, arrow));
        proof {
            assert(all.subrange(0, arrow as int) =~= all.take(arrow as int));
        }
        Some((lhs, alternatives))
    }

    /// Adds the alternatives of `lhs` to the productions.
    fn merge(productions: &mut Vec<Production>, lhs: String, alternatives: Vec<String>) -> (r:
        Result<(), GrammarError>)
        ensures
            match r {
                Ok(_) => merged(rules_of(old(productions)@), lhs@, names_of(alternatives@)) == Ok::<
                    Seq<Rule>,
                    GrammarFault,
                >(rules_of(final(productions)@)),
                Err(e) => merged(rules_of(old(productions)@), lhs@, names_of(alternatives@))
                    == Err::<Seq<Rule>, GrammarFault>(e@),
            },
    {
        let ghost all = names_of(alternatives@);
        let mut pending = alternatives;
        let mut rest: Vec<String> = Vec::new();
        proof {
            assert(names_of(rest@).reverse() =~= Seq::<Seq<char>>::empty());
            assert(names_of(pending@) + Seq::<Seq<char>>::empty() =~= all);
        }
        while pending.len() > 0
            invariant
                names_of(pending@) + names_of(rest@).reverse() == all,
            decreases pending@.len(),
        {
            let ghost a = names_of(pending@);
            let ghost b = names_of(rest@);
            let last = pending.pop().unwrap();
            rest.push(last);
            proof {
                assert(names_of(pending@) =~= a.drop_last());
                assert(names_of(rest@) =~= b.push(a.last()));
                assert(names_of(rest@).reverse() =~= seq![a.last()] + b.reverse());
                assert(a.drop_last() + (seq![a.last()] + b.reverse()) =~= a + b.reverse());
            }
        }
        proof {
            assert(names_of(pending@) =~= Seq::<Seq<char>>::empty());
            assert(names_of(rest@).reverse() =~= all);
            assert(all.skip(0) =~= all);
        }
        let ghost mut done: int = 0;
        while rest.len() > 0
            invariant
                0 <= done <= all.len(),
                all == names_of(alternatives@),
                names_of(rest@).reverse() == all.skip(done),
                merged(rules_of(old(productions)@), lhs@, all) == merged(
                    rules_of(productions@),
                    lhs@,
                    all.skip(done),
                ),
            decreases rest@.len(),
        {
            let ghost b = names_of(rest@);
            let alternative = rest.pop().unwrap();
            proof {
                assert(names_of(rest@) =~= b.drop_last());
                assert(b.reverse()[0] == b.last());
                assert(all.skip(done)[0] == alternative@);
                assert(b.drop_last().reverse() =~= b.reverse().drop_first());
                assert(all.skip(done).drop_first() =~= all.skip(done + 1));
            }
            let ghost rules = rules_of(productions@);
            let mut at: usize = 0;
            while at < productions.len() && !productions[at].lhs.eq(&lhs)
                invariant
                    at <= productions.len(),
                    rules == rules_of(productions@),
                    rule_from(rules, lhs@, 0) == rule_from(rules, lhs@, at as int),
                decreases productions.len() - at,
            {
                proof {
                    assert(rules[at as int].lhs == productions@[at as int].lhs@);
                }
                at += 1;
            }
            let text = chars_of(alternative.as_str());
            if at < productions.len() {
                proof {
                    assert(rules[at as int].lhs == productions@[at as int].lhs@);
                    assert(rules[at as int].alternatives == names_of(
                        productions@[at as int].alternatives@,
                    ));
                }
                if holds_text(&productions[at].alternatives, &text) {
                    return Err(GrammarError::DuplicateProduction(lhs, alternative));
                }
                let ghost before = names_of(productions@[at as int].alternatives@);
                productions[at].alternatives.push(alternative);
                proof {
                    assert(names_of(productions@[at as int].alternatives@) =~= before.push(
                        alternative@,
                    ));
                    assert(rules_of(productions@) =~= rules.update(
                        at as int,
                        Rule { lhs: lhs@, alternatives: before.push(alternative@) },
                    ));
                }
            } else {
                let mut alternatives: Vec<String> = Vec::new();
                alternatives.push(alternative);
                let production = Production { lhs: lhs.clone(), alternatives };
                proof {
                    assert(production@.alternatives =~= seq![alternative@]);
                }
                productions.push(production);
                proof {
                    assert(rules_of(productions@) =~= rules.push(
                        Rule { lhs: lhs@, alternatives: seq![alternative@] },
                    ));
                }
            }
            proof {
                done = done + 1;
            }
        }
        proof {
            assert(all.skip(done) =~= Seq::<Seq<char>>::empty());
        }
        Ok(())
    }

    /// Builds the grammar that the lines of a definition give.
    pub fn parse_file(lines: &Vec<Vec<char>>) -> (r: Result<Grammar, GrammarError>)
        ensures
            match r {
                Ok(grammar) => cfg_of(texts(lines@)) == Ok::<Cfg, GrammarFault>(grammar.model()),
                Err(e) => cfg_of(texts(lines@)) == Err::<Cfg, GrammarFault>(e@),
            },
    {
        let ghost all = texts(lines@);
        if lines.len() < 1 {
            return Err(GrammarError::Missing(Part::NonTerminals));
        }
        if lines.len() < 2 {
            return Err(GrammarError::Missing(Part::Terminals));
        }
        if lines.len() < 3 {
            return Err(GrammarError::Missing(Part::StartSymbol));
        }
        proof {
            assert(all[0] == lines@[0]@);
            assert(all[1] == lines@[1]@);
            assert(all[2] == lines@[2]@);
        }
        let non_terminals = Self::parse_symbols(&lines[0], false);
        let terminals = Self::parse_symbols(&lines[1], true);
        let start = split_whitespace(&lines[2]);
        if start.len() != 1 {
            return Err(GrammarError::InvalidStartSymbol(string_of(&lines[2])));
        }
        proof {
            assert(texts(start@)[0] == start@[0]@);
        }
        if !holds_text(&non_terminals, &start[0]) {
            return Err(GrammarError::InvalidStartSymbol(string_of(&lines[2])));
        }
        let start_symbol = string_of(&start[0]);
        let mut productions: Vec<Production> = Vec::new();
        let mut i: usize = 3;
        proof {
            assert(rules_of(productions@) =~= Seq::<Rule>::empty());
        }
        while i < lines.len()
            invariant
                3 <= i,
                all == texts(lines@),
                lines.len() >= 3,
                names_of(non_terminals@) == symbols_from(fields_of(all[0]), Seq::empty(), false),
                texts(start@) == fields_of(all[2]),
                start.len() == 1,
                names_of(non_terminals@).contains(start@[0]@),
                rules_from(all, 3, Seq::empty()) == rules_from(all, i as int, rules_of(productions@)),
            decreases lines.len() - i,
        {
            let line = &lines[i];
            proof {
                assert(all[i as int] == line@);
            }
            let fields = split_whitespace(line);
            if fields.len() == 0 {
                i += 1;
                continue ;
            }
            let (lhs, alternatives) = match Self::parse_production(line) {
                Some(production) => production,
                None => {
                    return Err(GrammarError::InvalidProduction(string_of(line)));
                },
            };
            match Self::merge(&mut productions, lhs, alternatives) {
                Ok(_) => {},
                Err(e) => {
                    return Err(e);
                },
            }
            i += 1;
        }
        Ok(Grammar { non_terminals, terminals, start_symbol, productions })
    }

    /// Builds the grammar that `source` defines: the text of a definition in
    /// four sections.
    pub fn new(source: &str) -> (r: Result<Grammar, GrammarError>)
        ensures
            match r {
                Ok(grammar) => cfg_of(lines_of(source@)) == Ok::<Cfg, GrammarFault>(grammar.model()),
                Err(e) => cfg_of(lines_of(source@)) == Err::<Cfg, GrammarFault>(e@),
            },
    {
        let text = chars_of(source);
        let lines = split_lines(&text);
        Self::parse_file(&lines)
    }
}

} // verus!
