use crate::grammar::{end_marker, epsilon, names_of, rules_of, Cfg, Grammar, Rule};
use crate::text::{chars_of, fields_of, same_text, split_whitespace, string_of, texts};
use vstd::prelude::*;

verus! {

/// Whether `t` is in the FIRST set of the symbol `x`, by derivations nested
/// at most `d` deep: the empty marker has itself, a terminal has itself,
/// anything else has what its alternatives begin with.
pub open spec fn in_first(cfg: Cfg, x: Seq<char>, t: Seq<char>, d: nat) -> bool
    decreases d, 0nat,
{
    if x == epsilon() {
        t == epsilon()
    } else if cfg.terminals.contains(x) {
        t == x
    } else if d == 0 {
        false
    } else {
        exists|i: int, j: int|
            #![trigger cfg.rules[i].alternatives[j]]
            0 <= i < cfg.rules.len() && 0 <= j < cfg.rules[i].alternatives.len() && cfg.rules[i].lhs
                == x && in_seq_first(
                cfg,
                fields_of(cfg.rules[i].alternatives[j]),
                t,
                (d - 1) as nat,
            )
    }
}

/// Whether `t` is in the FIRST set of the sequence of symbols `symbols`:
/// what a symbol begins with, but for the empty marker, as long as every
/// symbol before it can be empty, and the empty marker if all can.
pub open spec fn in_seq_first(cfg: Cfg, symbols: Seq<Seq<char>>, t: Seq<char>, d: nat) -> bool
    decreases d, symbols.len() + 1,
{
    if symbols.len() == 0 {
        t == epsilon()
    } else {
        (t != epsilon() && in_first(cfg, symbols[0], t, d)) || (in_first(
            cfg,
            symbols[0],
            epsilon(),
            d,
        ) && in_seq_first(cfg, symbols.drop_first(), t, d))
    }
}

/// Whether `t` is in FIRST(`x`).
pub open spec fn first_has(cfg: Cfg, x: Seq<char>, t: Seq<char>) -> bool {
    exists|d: nat| in_first(cfg, x, t, d)
}

/// Whether `t` is in FIRST of the sequence `symbols`.
pub open spec fn seq_first_has(cfg: Cfg, symbols: Seq<Seq<char>>, t: Seq<char>) -> bool {
    exists|d: nat| in_seq_first(cfg, symbols, t, d)
}

/// Whether `t` follows the occurrence of a symbol at place `p` of the
/// alternative `symbols` of `lhs`, given what follows `lhs` at depth `d`.
pub open spec fn follows_at(
    cfg: Cfg,
    lhs: Seq<char>,
    symbols: Seq<Seq<char>>,
    p: int,
    t: Seq<char>,
    d: nat,
) -> bool
    decreases d, 1nat,
{
    (t != epsilon() && seq_first_has(cfg, symbols.skip(p + 1), t)) || (seq_first_has(
        cfg,
        symbols.skip(p + 1),
        epsilon(),
    ) && in_follow(cfg, lhs, t, d))
}

/// Whether `t` is in the FOLLOW set of the symbol `x`, by `d` rounds of the
/// rules: the end marker follows the start symbol; what begins the rest of
/// an alternative follows a symbol in it; and what follows the left-hand
/// side follows a symbol whose rest can be empty.
pub open spec fn in_follow(cfg: Cfg, x: Seq<char>, t: Seq<char>, d: nat) -> bool
    decreases d, 0nat,
{
    if d == 0 {
        x == cfg.start && t == end_marker()
    } else {
        in_follow(cfg, x, t, (d - 1) as nat) || exists|i: int, j: int, p: int|
            #![trigger fields_of(cfg.rules[i].alternatives[j])[p]]
            0 <= i < cfg.rules.len() && 0 <= j < cfg.rules[i].alternatives.len() && 0 <= p
                < fields_of(cfg.rules[i].alternatives[j]).len() && fields_of(
                cfg.rules[i].alternatives[j],
            )[p] == x && follows_at(
                cfg,
                cfg.rules[i].lhs,
                fields_of(cfg.rules[i].alternatives[j]),
                p,
                t,
                (d - 1) as nat,
            )
    }
}

/// Whether `t` is in FOLLOW(`x`).
pub open spec fn follow_has(cfg: Cfg, x: Seq<char>, t: Seq<char>) -> bool {
    exists|d: nat| in_follow(cfg, x, t, d)
}

/// FIRST of a terminal is the terminal itself, and FIRST of the empty marker
/// is the empty marker.
pub proof fn lemma_first_of_terminal(cfg: Cfg, x: Seq<char>, t: Seq<char>)
    requires
        x == epsilon() || cfg.terminals.contains(x),
    ensures
        first_has(cfg, x, t) == (t == x),
{
    if t == x {
        assert(in_first(cfg, x, t, 0));
    }
}

/// What begins an alternative of a symbol that is no terminal is in the
/// symbol's FIRST set.
pub proof fn lemma_first_of_rule(cfg: Cfg, i: int, j: int, t: Seq<char>)
    requires
        0 <= i < cfg.rules.len(),
        0 <= j < cfg.rules[i].alternatives.len(),
        cfg.rules[i].lhs != epsilon(),
        !cfg.terminals.contains(cfg.rules[i].lhs),
        seq_first_has(cfg, fields_of(cfg.rules[i].alternatives[j]), t),
    ensures
        first_has(cfg, cfg.rules[i].lhs, t),
{
    let d = choose|d: nat| in_seq_first(cfg, fields_of(cfg.rules[i].alternatives[j]), t, d);
    assert(in_first(cfg, cfg.rules[i].lhs, t, d + 1));
}

/// The end marker follows the start symbol.
pub proof fn lemma_follow_of_start(cfg: Cfg)
    ensures
        follow_has(cfg, cfg.start, end_marker()),
{
    assert(in_follow(cfg, cfg.start, end_marker(), 0));
}

/// What begins the rest of an alternative behind a symbol follows the
/// symbol; and where the rest can be empty, what follows the left-hand side
/// follows the symbol.
pub proof fn lemma_follow_of_rule(cfg: Cfg, i: int, j: int, p: int, t: Seq<char>)
    requires
        0 <= i < cfg.rules.len(),
        0 <= j < cfg.rules[i].alternatives.len(),
        0 <= p < fields_of(cfg.rules[i].alternatives[j]).len(),
        (t != epsilon() && seq_first_has(
            cfg,
            fields_of(cfg.rules[i].alternatives[j]).skip(p + 1),
            t,
        )) || (seq_first_has(cfg, fields_of(cfg.rules[i].alternatives[j]).skip(p + 1), epsilon())
            && follow_has(cfg, cfg.rules[i].lhs, t)),
    ensures
        follow_has(cfg, fields_of(cfg.rules[i].alternatives[j])[p], t),
{
    let symbols = fields_of(cfg.rules[i].alternatives[j]);
    if t != epsilon() && seq_first_has(cfg, symbols.skip(p + 1), t) {
        assert(follows_at(cfg, cfg.rules[i].lhs, symbols, p, t, 0));
        assert(in_follow(cfg, symbols[p], t, 1));
    } else {
        let d = choose|d: nat| in_follow(cfg, cfg.rules[i].lhs, t, d);
        assert(follows_at(cfg, cfg.rules[i].lhs, symbols, p, t, d));
        assert(in_follow(cfg, symbols[p], t, d + 1));
    }
}

/// What is in a FIRST set at one depth is in it at the next.
pub proof fn lemma_first_mono(cfg: Cfg, x: Seq<char>, t: Seq<char>, d: nat)
    requires
        in_first(cfg, x, t, d),
    ensures
        in_first(cfg, x, t, d + 1),
    decreases d, 0nat,
{
    if x != epsilon() && !cfg.terminals.contains(x) {
        let (i, j) = choose|i: int, j: int|
            #![trigger cfg.rules[i].alternatives[j]]
            0 <= i < cfg.rules.len() && 0 <= j < cfg.rules[i].alternatives.len() && cfg.rules[i].lhs
                == x && in_seq_first(
                cfg,
                fields_of(cfg.rules[i].alternatives[j]),
                t,
                (d - 1) as nat,
            );
        lemma_seq_mono(cfg, fields_of(cfg.rules[i].alternatives[j]), t, (d - 1) as nat);
        assert(in_seq_first(cfg, fields_of(cfg.rules[i].alternatives[j]), t, d));
    }
}

/// What is in the FIRST set of a sequence at one depth is in it at the next.
pub proof fn lemma_seq_mono(cfg: Cfg, symbols: Seq<Seq<char>>, t: Seq<char>, d: nat)
    requires
        in_seq_first(cfg, symbols, t, d),
    ensures
        in_seq_first(cfg, symbols, t, d + 1),
    decreases d, symbols.len() + 1,
{
    if symbols.len() > 0 {
        if t != epsilon() && in_first(cfg, symbols[0], t, d) {
            lemma_first_mono(cfg, symbols[0], t, d);
        } else {
            lemma_first_mono(cfg, symbols[0], epsilon(), d);
            lemma_seq_mono(cfg, symbols.drop_first(), t, d);
        }
    }
}

/// What is in a FIRST set at one depth is in it at every greater depth.
pub proof fn lemma_first_grows(cfg: Cfg, x: Seq<char>, t: Seq<char>, d: nat, e: nat)
    requires
        in_first(cfg, x, t, d),
        d <= e,
    ensures
        in_first(cfg, x, t, e),
    decreases e - d,
{
    if d < e {
        lemma_first_mono(cfg, x, t, d);
        lemma_first_grows(cfg, x, t, d + 1, e);
    }
}

/// Only the empty marker and terminals are in FIRST sets.
pub proof fn lemma_first_range(cfg: Cfg, x: Seq<char>, t: Seq<char>, d: nat)
    requires
        in_first(cfg, x, t, d),
    ensures
        t == epsilon() || cfg.terminals.contains(t),
    decreases d, 0nat,
{
    if x != epsilon() && !cfg.terminals.contains(x) {
        let (i, j) = choose|i: int, j: int|
            #![trigger cfg.rules[i].alternatives[j]]
            0 <= i < cfg.rules.len() && 0 <= j < cfg.rules[i].alternatives.len() && cfg.rules[i].lhs
                == x && in_seq_first(
                cfg,
                fields_of(cfg.rules[i].alternatives[j]),
                t,
                (d - 1) as nat,
            );
        lemma_seq_range(cfg, fields_of(cfg.rules[i].alternatives[j]), t, (d - 1) as nat);
    }
}

/// Only the empty marker and terminals are in the FIRST sets of sequences.
pub proof fn lemma_seq_range(cfg: Cfg, symbols: Seq<Seq<char>>, t: Seq<char>, d: nat)
    requires
        in_seq_first(cfg, symbols, t, d),
    ensures
        t == epsilon() || cfg.terminals.contains(t),
    decreases d, symbols.len() + 1,
{
    if symbols.len() > 0 {
        if t != epsilon() && in_first(cfg, symbols[0], t, d) {
            lemma_first_range(cfg, symbols[0], t, d);
        } else {
            lemma_seq_range(cfg, symbols.drop_first(), t, d);
        }
    }
}

/// The FIRST sets have stopped growing at depth `k`.
pub open spec fn first_stable(cfg: Cfg, k: nat) -> bool {
    forall|x: Seq<char>, t: Seq<char>| #[trigger] in_first(cfg, x, t, k + 1) ==> in_first(cfg, x, t, k)
}

/// Where the FIRST sets have stopped growing, those of sequences have too.
pub proof fn lemma_seq_down(cfg: Cfg, symbols: Seq<Seq<char>>, t: Seq<char>, k: nat)
    requires
        first_stable(cfg, k),
        in_seq_first(cfg, symbols, t, k + 1),
    ensures
        in_seq_first(cfg, symbols, t, k),
    decreases symbols.len(),
{
    if symbols.len() > 0 {
        if t != epsilon() && in_first(cfg, symbols[0], t, k + 1) {
        } else {
            assert(in_first(cfg, symbols[0], epsilon(), k + 1));
            lemma_seq_down(cfg, symbols.drop_first(), t, k);
        }
    }
}

/// FIRST sets that have stopped growing do not grow again.
pub proof fn lemma_first_stays(cfg: Cfg, k: nat, e: nat)
    requires
        first_stable(cfg, k),
        k <= e,
    ensures
        first_stable(cfg, e),
    decreases e - k,
{
    if k < e {
        assert forall|x: Seq<char>, t: Seq<char>| #[trigger]
            in_first(cfg, x, t, k + 2) implies in_first(cfg, x, t, k + 1) by {
            if x != epsilon() && !cfg.terminals.contains(x) {
                let (i, j) = choose|i: int, j: int|
                    #![trigger cfg.rules[i].alternatives[j]]
                    0 <= i < cfg.rules.len() && 0 <= j < cfg.rules[i].alternatives.len()
                        && cfg.rules[i].lhs == x && in_seq_first(
                        cfg,
                        fields_of(cfg.rules[i].alternatives[j]),
                        t,
                        k + 1,
                    );
                lemma_seq_down(cfg, fields_of(cfg.rules[i].alternatives[j]), t, k);
            }
        }
        lemma_first_stays(cfg, k + 1, e);
    }
}

/// Where the FIRST sets have stopped growing at depth `k`, they are the
/// FIRST sets at depth `k`.
pub proof fn lemma_first_limit(cfg: Cfg, k: nat, x: Seq<char>, t: Seq<char>)
    requires
        first_stable(cfg, k),
    ensures
        first_has(cfg, x, t) == in_first(cfg, x, t, k),
{
    if first_has(cfg, x, t) {
        let d = choose|d: nat| in_first(cfg, x, t, d);
        lemma_first_down(cfg, k, x, t, d);
    }
}

/// Where the FIRST sets have stopped growing at depth `k`, what is in one
/// at any depth is in it at depth `k`.
pub proof fn lemma_first_down(cfg: Cfg, k: nat, x: Seq<char>, t: Seq<char>, d: nat)
    requires
        first_stable(cfg, k),
        in_first(cfg, x, t, d),
    ensures
        in_first(cfg, x, t, k),
    decreases d,
{
    if d <= k {
        lemma_first_grows(cfg, x, t, d, k);
    } else {
        lemma_first_stays(cfg, k, (d - 1) as nat);
        assert(in_first(cfg, x, t, ((d - 1) as nat) + 1));
        lemma_first_down(cfg, k, x, t, (d - 1) as nat);
    }
}

/// Where the FIRST sets have stopped growing at depth `k`, the FIRST sets
/// of sequences are those at depth `k`.
pub proof fn lemma_seq_limit(cfg: Cfg, k: nat, symbols: Seq<Seq<char>>, t: Seq<char>)
    requires
        first_stable(cfg, k),
    ensures
        seq_first_has(cfg, symbols, t) == in_seq_first(cfg, symbols, t, k),
{
    if seq_first_has(cfg, symbols, t) {
        let d = choose|d: nat| in_seq_first(cfg, symbols, t, d);
        lemma_seq_at(cfg, k, symbols, t, d);
    }
}

proof fn lemma_seq_at(cfg: Cfg, k: nat, symbols: Seq<Seq<char>>, t: Seq<char>, d: nat)
    requires
        first_stable(cfg, k),
        in_seq_first(cfg, symbols, t, d),
    ensures
        in_seq_first(cfg, symbols, t, k),
    decreases symbols.len(),
{
    if symbols.len() > 0 {
        if t != epsilon() && in_first(cfg, symbols[0], t, d) {
            lemma_first_down(cfg, k, symbols[0], t, d);
        } else {
            lemma_first_down(cfg, k, symbols[0], epsilon(), d);
            lemma_seq_at(cfg, k, symbols.drop_first(), t, d);
        }
    }
}

/// The FOLLOW sets have stopped growing at round `k`.
pub open spec fn follow_stable(cfg: Cfg, k: nat) -> bool {
    forall|x: Seq<char>, t: Seq<char>| #[trigger]
        in_follow(cfg, x, t, k + 1) ==> in_follow(cfg, x, t, k)
}

/// FOLLOW sets that have stopped growing do not grow again.
pub proof fn lemma_follow_stays(cfg: Cfg, k: nat, e: nat)
    requires
        follow_stable(cfg, k),
        k <= e,
    ensures
        follow_stable(cfg, e),
    decreases e - k,
{
    if k < e {
        assert forall|x: Seq<char>, t: Seq<char>| #[trigger]
            in_follow(cfg, x, t, k + 2) implies in_follow(cfg, x, t, k + 1) by {
            if !in_follow(cfg, x, t, k + 1) {
                let (i, j, p) = choose|i: int, j: int, p: int|
                    #![trigger fields_of(cfg.rules[i].alternatives[j])[p]]
                    0 <= i < cfg.rules.len() && 0 <= j < cfg.rules[i].alternatives.len() && 0 <= p
                        < fields_of(cfg.rules[i].alternatives[j]).len() && fields_of(
                        cfg.rules[i].alternatives[j],
                    )[p] == x && follows_at(
                        cfg,
                        cfg.rules[i].lhs,
                        fields_of(cfg.rules[i].alternatives[j]),
                        p,
                        t,
                        k + 1,
                    );
                let symbols = fields_of(cfg.rules[i].alternatives[j]);
                assert(follows_at(cfg, cfg.rules[i].lhs, symbols, p, t, k)) by {
                    if in_follow(cfg, cfg.rules[i].lhs, t, k + 1) {
                        assert(in_follow(cfg, cfg.rules[i].lhs, t, k));
                    }
                }
            }
        }
        lemma_follow_stays(cfg, k + 1, e);
    }
}

/// Where the FOLLOW sets have stopped growing at round `k`, what is in one
/// after any number of rounds is in it at round `k`.
pub proof fn lemma_follow_down(cfg: Cfg, k: nat, x: Seq<char>, t: Seq<char>, d: nat)
    requires
        follow_stable(cfg, k),
        in_follow(cfg, x, t, d),
    ensures
        in_follow(cfg, x, t, k),
    decreases if d <= k {
        k - d
    } else {
        d - k
    },
{
    if d < k {
        assert(in_follow(cfg, x, t, d + 1));
        lemma_follow_down(cfg, k, x, t, d + 1);
    } else if d > k {
        lemma_follow_stays(cfg, k, (d - 1) as nat);
        assert(in_follow(cfg, x, t, ((d - 1) as nat) + 1));
        lemma_follow_down(cfg, k, x, t, (d - 1) as nat);
    }
}

/// Where the FOLLOW sets have stopped growing at round `k`, they are the
/// FOLLOW sets at round `k`.
pub proof fn lemma_follow_limit(cfg: Cfg, k: nat, x: Seq<char>, t: Seq<char>)
    requires
        follow_stable(cfg, k),
    ensures
        follow_has(cfg, x, t) == in_follow(cfg, x, t, k),
{
    if follow_has(cfg, x, t) {
        let d = choose|d: nat| in_follow(cfg, x, t, d);
        lemma_follow_down(cfg, k, x, t, d);
    }
}


/// The number of `true` entries of `row`.
spec fn trues(row: Seq<bool>) -> nat
    decreases row.len(),
{
    if row.len() == 0 {
        0
    } else {
        trues(row.drop_last()) + if row.last() {
            1nat
        } else {
            0nat
        }
    }
}

/// The number of `true` entries of the matrix `m`.
spec fn total(m: Seq<Vec<bool>>) -> nat
    decreases m.len(),
{
    if m.len() == 0 {
        0
    } else {
        total(m.drop_last()) + trues(m.last()@)
    }
}

/// A row that has every entry of another has at least as many, and more if
/// it has one that the other lacks.
proof fn lemma_trues_grow(a: Seq<bool>, b: Seq<bool>)
    requires
        a.len() == b.len(),
        forall|j: int| 0 <= j < a.len() && a[j] ==> b[j],
    ensures
        trues(a) <= trues(b) <= b.len(),
        (exists|j: int| 0 <= j < a.len() && !a[j] && b[j]) ==> trues(a) < trues(b),
    decreases a.len(),
{
    if a.len() > 0 {
        lemma_trues_grow(a.drop_last(), b.drop_last());
        if exists|j: int| 0 <= j < a.len() && !a[j] && b[j] {
            let j = choose|j: int| 0 <= j < a.len() && !a[j] && b[j];
            if j < a.len() - 1 {
                assert(!a.drop_last()[j] && b.drop_last()[j]);
            }
        }
    }
}

/// A matrix that has every entry of another has at least as many, and more
/// if it has one that the other lacks.
proof fn lemma_total_grow(a: Seq<Vec<bool>>, b: Seq<Vec<bool>>, n: nat)
    requires
        a.len() == b.len(),
        forall|i: int| 0 <= i < a.len() ==> (#[trigger] a[i])@.len() == n && b[i]@.len() == n,
        forall|i: int, j: int| 0 <= i < a.len() && 0 <= j < n && a[i]@[j] ==> b[i]@[j],
    ensures
        total(a) <= total(b) <= b.len() * n,
        (exists|i: int, j: int| 0 <= i < a.len() && 0 <= j < n && !a[i]@[j] && b[i]@[j]) ==> total(a)
            < total(b),
    decreases a.len(),
{
    if a.len() > 0 {
        let a1 = a.drop_last();
        let b1 = b.drop_last();
        assert forall|i: int| 0 <= i < a1.len() implies (#[trigger] a1[i])@.len() == n && b1[i]@.len()
            == n by {
            assert(a[i]@.len() == n);
        }
        lemma_total_grow(a1, b1, n);
        assert(a[a.len() - 1]@.len() == n);
        lemma_trues_grow(a.last()@, b.last()@);
        assert(b.len() * n == b1.len() * n + n) by (nonlinear_arith)
            requires
                b.len() == b1.len() + 1,
        ;
        if exists|i: int, j: int| 0 <= i < a.len() && 0 <= j < n && !a[i]@[j] && b[i]@[j] {
            let (i, j) = choose|i: int, j: int|
                0 <= i < a.len() && 0 <= j < n && !a[i]@[j] && b[i]@[j];
            if i < a.len() - 1 {
                assert(!a1[i]@[j] && b1[i]@[j]);
            } else {
                assert(!a.last()@[j] && b.last()@[j]);
            }
        }
    }
}

/// A square matrix of `n` rows.
spec fn square(m: Seq<Vec<bool>>, n: nat) -> bool {
    m.len() == n && forall|i: int| 0 <= i < n ==> (#[trigger] m[i])@.len() == n
}

/// Whether `t` is in the FIRST set of the symbols numbered `codes`, by the
/// sets that the matrix `m` holds.
spec fn seq_in(m: Seq<Vec<bool>>, codes: Seq<usize>, t: int) -> bool
    decreases codes.len(),
{
    if codes.len() == 0 {
        t == 0
    } else {
        (t != 0 && m[codes[0] as int]@[t]) || (m[codes[0] as int]@[0] && seq_in(
            m,
            codes.drop_first(),
            t,
        ))
    }
}

/// The symbols of a grammar, numbered, and its alternatives as sequences of
/// numbers.
pub struct Numbering {
    names: Vec<String>,
    terminal: Vec<bool>,
    start: usize,
    lhs: Vec<usize>,
    rhs: Vec<Vec<usize>>,
    rule: Vec<usize>,
    alternative: Vec<usize>,
}

impl Numbering {
    /// The names of the symbols, by number.
    pub closed spec fn names(&self) -> Seq<Seq<char>> {
        names_of(self.names@)
    }

    /// The numbering fits the grammar `cfg`: the empty marker is symbol 0,
    /// the end marker symbol 1, every symbol of the grammar has one number,
    /// and every alternative of the grammar is held.
    pub closed spec fn fits(&self, cfg: Cfg) -> bool {
        let names = self.names();
        let n = names.len();
        &&& names.no_duplicates()
        &&& n >= 2
        &&& names[0] == epsilon()
        &&& names[1] == end_marker()
        &&& self.terminal@.len() == n
        &&& forall|x: int| 0 <= x < n ==> self.terminal@[x] == cfg.terminals.contains(#[trigger] names[x])
        &&& forall|i: int| 0 <= i < cfg.terminals.len() ==> names.contains(#[trigger] cfg.terminals[i])
        &&& self.start < n
        &&& names[self.start as int] == cfg.start
        &&& self.lhs@.len() == self.rhs@.len()
        &&& self.lhs@.len() == self.rule@.len()
        &&& self.lhs@.len() == self.alternative@.len()
        &&& forall|r: int| 0 <= r < self.lhs@.len() ==> self.holds(cfg, r)
        &&& forall|i: int, j: int|
            0 <= i < cfg.rules.len() && 0 <= j < cfg.rules[i].alternatives.len()
                ==> #[trigger] self.covers(i, j)
    }

    /// Some entry is the alternative `j` of rule `i`.
    pub closed spec fn covers(&self, i: int, j: int) -> bool {
        exists|r: int| self.stands_for(r, i, j)
    }

    /// The numbering holds one entry for each alternative of `cfg`, and no
    /// more symbols than the grammar can have.
    pub closed spec fn bounded(&self, cfg: Cfg) -> bool {
        self.lhs@.len() == alt_count(cfg.rules) && self.names().len() <= symbols_bound(cfg)
    }

    /// Entry `r` is the alternative `j` of rule `i`.
    pub closed spec fn stands_for(&self, r: int, i: int, j: int) -> bool {
        0 <= r < self.lhs@.len() && self.rule@[r] == i && self.alternative@[r] == j
    }

    /// Entry `r` holds an alternative of `cfg`: the number of its left-hand
    /// side and the numbers of its symbols.
    pub closed spec fn holds(&self, cfg: Cfg, r: int) -> bool {
        entry_ok(
            self.names(),
            cfg,
            self.lhs@[r],
            self.rhs@[r]@,
            self.rule@[r] as int,
            self.alternative@[r] as int,
        )
    }

    /// The number of `text`, if it names a symbol.
    fn find(&self, text: &Vec<char>) -> (found: Option<usize>)
        ensures
            match found {
                Some(x) => x < self.names().len() && self.names()[x as int] == text@,
                None => !self.names().contains(text@),
            },
    {
        find_name(&self.names, text)
    }
}

/// The number of alternatives of the rules.
pub open spec fn alt_count(rules: Seq<Rule>) -> nat
    decreases rules.len(),
{
    if rules.len() == 0 {
        0
    } else {
        alt_count(rules.drop_last()) + rules.last().alternatives.len()
    }
}

/// The number of symbols in the alternatives.
pub open spec fn alt_symbols(alternatives: Seq<Seq<char>>) -> nat
    decreases alternatives.len(),
{
    if alternatives.len() == 0 {
        0
    } else {
        alt_symbols(alternatives.drop_last()) + fields_of(alternatives.last()).len()
    }
}

/// The number of symbols in the rules: those of the alternatives, and one
/// for each left-hand side.
pub open spec fn symbol_count(rules: Seq<Rule>) -> nat
    decreases rules.len(),
{
    if rules.len() == 0 {
        0
    } else {
        symbol_count(rules.drop_last()) + 1 + alt_symbols(rules.last().alternatives)
    }
}

/// A bound on the number of different symbols of a grammar, with the two
/// markers.
pub open spec fn symbols_bound(cfg: Cfg) -> nat {
    3 + cfg.terminals.len() + symbol_count(cfg.rules)
}

/// The numbers `codes` are those of the symbols `symbols` among `names`.
spec fn coded(names: Seq<Seq<char>>, codes: Seq<usize>, symbols: Seq<Seq<char>>) -> bool {
    &&& codes.len() == symbols.len()
    &&& forall|p: int|
        0 <= p < codes.len() ==> (#[trigger] codes[p]) < names.len() && names[codes[p] as int]
            == symbols[p]
}

/// `lhs` and `rhs` are the numbers of the left-hand side of rule `i` of
/// `cfg` and of the symbols of its alternative `j`.
spec fn entry_ok(names: Seq<Seq<char>>, cfg: Cfg, lhs: usize, rhs: Seq<usize>, i: int, j: int) -> bool {
    &&& 0 <= i < cfg.rules.len()
    &&& 0 <= j < cfg.rules[i].alternatives.len()
    &&& lhs < names.len()
    &&& names[lhs as int] == cfg.rules[i].lhs
    &&& coded(names, rhs, fields_of(cfg.rules[i].alternatives[j]))
}

/// Entry `r` is the alternative `b` of rule `a`.
spec fn is_entry(rule: Seq<usize>, alternative: Seq<usize>, r: int, a: int, b: int) -> bool {
    0 <= r < rule.len() && r < alternative.len() && rule[r] == a && alternative[r] == b
}

/// Some entry is the alternative `b` of rule `a`.
spec fn has_entry(rule: Seq<usize>, alternative: Seq<usize>, a: int, b: int) -> bool {
    exists|r: int| is_entry(rule, alternative, r, a, b)
}

/// The names `a` stand at the front of the names `b`.
spec fn prefix_of(a: Seq<Seq<char>>, b: Seq<Seq<char>>) -> bool {
    a.len() <= b.len() && forall|x: int| 0 <= x < a.len() ==> a[x] == b[x]
}

/// The place of `text` among `names`, if it is there.
fn find_name(names: &Vec<String>, text: &Vec<char>) -> (found: Option<usize>)
    ensures
        match found {
            Some(x) => x < names@.len() && names_of(names@)[x as int] == text@,
            None => !names_of(names@).contains(text@),
        },
{
    let mut i: usize = 0;
    while i < names.len()
        invariant
            i <= names.len(),
            forall|j: int| 0 <= j < i ==> names_of(names@)[j] != text@,
        decreases names.len() - i,
    {
        let name = chars_of(names[i].as_str());
        if same_text(&name, text) {
            proof {
                assert(names_of(names@)[i as int] == text@);
            }
            return Some(i);
        }
        i += 1;
    }
    None
}

/// The number of `text` among `names`, to which it is added if it is new.
fn intern(names: &mut Vec<String>, text: &Vec<char>) -> (x: usize)
    requires
        names_of(old(names)@).no_duplicates(),
    ensures
        names_of(final(names)@).no_duplicates(),
        x < final(names)@.len(),
        names_of(final(names)@)[x as int] == text@,
        prefix_of(names_of(old(names)@), names_of(final(names)@)),
        final(names)@.len() <= old(names)@.len() + 1,
{
    match find_name(names, text) {
        Some(x) => x,
        None => {
            let ghost before = names_of(names@);
            names.push(string_of(text));
            proof {
                let after = names_of(names@);
                assert(after =~= before.push(text@));
            }
            names.len() - 1
        },
    }
}


/// Names that stand at the front of a longer list keep their numbers there.
proof fn lemma_prefix_entry(
    a: Seq<Seq<char>>,
    b: Seq<Seq<char>>,
    cfg: Cfg,
    lhs: usize,
    rhs: Seq<usize>,
    i: int,
    j: int,
)
    requires
        prefix_of(a, b),
        entry_ok(a, cfg, lhs, rhs, i, j),
    ensures
        entry_ok(b, cfg, lhs, rhs, i, j),
{
    assert forall|p: int| 0 <= p < rhs.len() implies (#[trigger] rhs[p]) < b.len() && b[rhs[p] as int]
        == fields_of(cfg.rules[i].alternatives[j])[p] by {
        assert(rhs[p] < a.len());
    }
}

impl Numbering {
    /// Numbers the symbols of `grammar` and its alternatives.
    pub fn new(grammar: &Grammar) -> (numbering: Numbering)
        ensures
            numbering.fits(grammar.model()),
            numbering.bounded(grammar.model()),
    {
        let ghost cfg = grammar.model();
        let mut names: Vec<String> = Vec::new();
        names.push(String::from_str("ε"));
        names.push(String::from_str("$"));
        proof {
            reveal_strlit("ε");
            reveal_strlit("$");
            let two = names_of(names@);
            assert(two[0] == "ε"@ && two[1] == "$"@);
            assert("ε"@[0] != "$"@[0]);
        }
        let start_text = chars_of(grammar.get_start_symbol());
        let start = intern(&mut names, &start_text);
        let terminals = grammar.get_terminals();
        let mut i: usize = 0;
        while i < terminals.len()
            invariant
                i <= terminals.len(),
                names_of(terminals@) == cfg.terminals,
                names_of(names@).no_duplicates(),
                names@.len() >= 2,
                names_of(names@)[0] == epsilon(),
                names_of(names@)[1] == end_marker(),
                start < names@.len(),
                names_of(names@)[start as int] == cfg.start,
                names@.len() <= 3 + i,
                forall|k: int| 0 <= k < i ==> names_of(names@).contains(#[trigger] cfg.terminals[k]),
            decreases terminals.len() - i,
        {
            let ghost before = names_of(names@);
            let text = chars_of(terminals[i].as_str());
            let x = intern(&mut names, &text);
            proof {
                let after = names_of(names@);
                assert(cfg.terminals[i as int] == text@);
                assert forall|k: int| 0 <= k < i + 1 implies after.contains(
                    #[trigger] cfg.terminals[k],
                ) by {
                    if k < i {
                        let at = choose|at: int| 0 <= at < before.len() && before[at]
                            == cfg.terminals[k];
                        assert(after[at] == cfg.terminals[k]);
                    } else {
                        assert(after[x as int] == cfg.terminals[k]);
                    }
                }
            }
            i += 1;
        }
        let productions = grammar.get_productions();
        proof {
            assert(cfg.rules.take(0) =~= Seq::<Rule>::empty());
        }
        let mut lhs: Vec<usize> = Vec::new();
        let mut rhs: Vec<Vec<usize>> = Vec::new();
        let mut rule: Vec<usize> = Vec::new();
        let mut alternative: Vec<usize> = Vec::new();
        let mut i: usize = 0;
        while i < productions.len()
            invariant
                i <= productions.len(),
                cfg == grammar.model(),
                rules_of(productions@) == cfg.rules,
                names_of(names@).no_duplicates(),
                names@.len() >= 2,
                names_of(names@)[0] == epsilon(),
                names_of(names@)[1] == end_marker(),
                start < names@.len(),
                names_of(names@)[start as int] == cfg.start,
                forall|k: int|
                    0 <= k < cfg.terminals.len() ==> names_of(names@).contains(
                        #[trigger] cfg.terminals[k],
                    ),
                lhs@.len() == rhs@.len(),
                lhs@.len() == rule@.len(),
                lhs@.len() == alternative@.len(),
                lhs@.len() == alt_count(cfg.rules.take(i as int)),
                names@.len() <= 3 + cfg.terminals.len() + symbol_count(cfg.rules.take(i as int)),
                forall|r: int|
                    0 <= r < lhs@.len() ==> #[trigger] entry_ok(
                        names_of(names@),
                        cfg,
                        lhs@[r],
                        rhs@[r]@,
                        rule@[r] as int,
                        alternative@[r] as int,
                    ),
                forall|a: int, b: int|
                    0 <= a < i && 0 <= b < cfg.rules[a].alternatives.len() ==> #[trigger] has_entry(
                        rule@,
                        alternative@,
                        a,
                        b,
                    ),
            decreases productions.len() - i,
        {
            let production = &productions[i];
            proof {
                assert(cfg.rules[i as int] == production@);
            }
            let alternatives = production.get_alternatives();
            let lhs_text = chars_of(production.get_lhs());
            let ghost names0 = names_of(names@);
            let left = intern(&mut names, &lhs_text);
            proof {
                Self::lemma_carry(names0, names_of(names@), cfg, lhs@, rhs@, rule@, alternative@);
                assert(cfg.rules[i as int].alternatives.take(0) =~= Seq::<Seq<char>>::empty());
            }
            let mut j: usize = 0;
            while j < alternatives.len()
                invariant
                    j <= alternatives.len(),
                    i < productions.len(),
                    cfg == grammar.model(),
                    rules_of(productions@) == cfg.rules,
                    cfg.rules[i as int] == production@,
                    names_of(alternatives@) == production@.alternatives,
                    names_of(names@).no_duplicates(),
                    names@.len() >= 2,
                    names_of(names@)[0] == epsilon(),
                    names_of(names@)[1] == end_marker(),
                    start < names@.len(),
                    names_of(names@)[start as int] == cfg.start,
                    forall|k: int|
                        0 <= k < cfg.terminals.len() ==> names_of(names@).contains(
                            #[trigger] cfg.terminals[k],
                        ),
                    left < names@.len(),
                    names_of(names@)[left as int] == cfg.rules[i as int].lhs,
                    lhs@.len() == rhs@.len(),
                    lhs@.len() == rule@.len(),
                    lhs@.len() == alternative@.len(),
                    lhs@.len() == alt_count(cfg.rules.take(i as int)) + j,
                    names@.len() <= 3 + cfg.terminals.len() + symbol_count(cfg.rules.take(i as int))
                        + 1 + alt_symbols(cfg.rules[i as int].alternatives.take(j as int)),
                    forall|r: int|
                        0 <= r < lhs@.len() ==> #[trigger] entry_ok(
                            names_of(names@),
                            cfg,
                            lhs@[r],
                            rhs@[r]@,
                            rule@[r] as int,
                            alternative@[r] as int,
                        ),
                    forall|a: int, b: int|
                        0 <= a < i && 0 <= b < cfg.rules[a].alternatives.len()
                            ==> #[trigger] has_entry(rule@, alternative@, a, b),
                    forall|b: int|
                        0 <= b < j ==> #[trigger] has_entry(rule@, alternative@, i as int, b),
                decreases alternatives.len() - j,
            {
                let text = chars_of(alternatives[j].as_str());
                let symbols = split_whitespace(&text);
                let ghost all = fields_of(cfg.rules[i as int].alternatives[j as int]);
                proof {
                    assert(production@.alternatives[j as int] == alternatives@[j as int]@);
                }
                let ghost names1 = names_of(names@);
                let mut codes: Vec<usize> = Vec::new();
                let mut p: usize = 0;
                while p < symbols.len()
                    invariant
                        p <= symbols.len(),
                        texts(symbols@) == all,
                        codes@.len() == p,
                        names_of(names@).no_duplicates(),
                        prefix_of(names1, names_of(names@)),
                        names@.len() <= names1.len() + p,
                        forall|q: int|
                            0 <= q < p ==> (#[trigger] codes@[q]) < names@.len() && names_of(
                                names@,
                            )[codes@[q] as int] == all[q],
                    decreases symbols.len() - p,
                {
                    let ghost before = names_of(names@);
                    let ghost earlier = codes@;
                    let code = intern(&mut names, &symbols[p]);
                    codes.push(code);
                    proof {
                        assert(all[p as int] == symbols@[p as int]@);
                        assert forall|q: int| 0 <= q < p + 1 implies (#[trigger] codes@[q])
                            < names@.len() && names_of(names@)[codes@[q] as int] == all[q] by {
                            if q < p {
                                assert(earlier[q] < before.len());
                            }
                        }
                    }
                    p += 1;
                }
                proof {
                    let now = names_of(names@);
                    Self::lemma_carry(names1, now, cfg, lhs@, rhs@, rule@, alternative@);
                    assert(now[left as int] == names1[left as int]);
                    assert(now[0] == names1[0] && now[1] == names1[1]);
                    assert(now[start as int] == names1[start as int]);
                    assert forall|k: int| 0 <= k < cfg.terminals.len() implies now.contains(
                        #[trigger] cfg.terminals[k],
                    ) by {
                        let at = choose|at: int| 0 <= at < names1.len() && names1[at]
                            == cfg.terminals[k];
                        assert(now[at] == cfg.terminals[k]);
                    }
                }
                let ghost lhs0 = lhs@;
                let ghost rhs0 = rhs@;
                let ghost rule0 = rule@;
                let ghost alternative0 = alternative@;
                lhs.push(left);
                rhs.push(codes);
                rule.push(i);
                alternative.push(j);
                proof {
                    let now = names_of(names@);
                    let last = lhs0.len() as int;
                    assert(entry_ok(now, cfg, left, codes@, i as int, j as int));
                    assert forall|r: int| 0 <= r < lhs@.len() implies #[trigger] entry_ok(
                        now,
                        cfg,
                        lhs@[r],
                        rhs@[r]@,
                        rule@[r] as int,
                        alternative@[r] as int,
                    ) by {
                        if r < last {
                            assert(entry_ok(
                                now,
                                cfg,
                                lhs0[r],
                                rhs0[r]@,
                                rule0[r] as int,
                                alternative0[r] as int,
                            ));
                        }
                    }
                    assert forall|a: int, b: int|
                        0 <= a < i && 0 <= b < cfg.rules[a].alternatives.len() implies #[trigger] has_entry(
                        rule@,
                        alternative@,
                        a,
                        b,
                    ) by {
                        assert(has_entry(rule0, alternative0, a, b));
                        let r = choose|r: int| is_entry(rule0, alternative0, r, a, b);
                        assert(is_entry(rule@, alternative@, r, a, b));
                    }
                    assert forall|b: int| 0 <= b < j + 1 implies #[trigger] has_entry(
                        rule@,
                        alternative@,
                        i as int,
                        b,
                    ) by {
                        if b < j {
                            assert(has_entry(rule0, alternative0, i as int, b));
                            let r = choose|r: int| is_entry(rule0, alternative0, r, i as int, b);
                            assert(is_entry(rule@, alternative@, r, i as int, b));
                        } else {
                            assert(is_entry(rule@, alternative@, last, i as int, b));
                        }
                    }
                    let alts = cfg.rules[i as int].alternatives;
                    assert(alts.take(j + 1).drop_last() =~= alts.take(j as int));
                    assert(alts.take(j + 1).last() == alts[j as int]);
                }
                j += 1;
            }
            proof {
                let alts = cfg.rules[i as int].alternatives;
                assert(alts.take(j as int) =~= alts);
                assert(cfg.rules.take(i + 1).drop_last() =~= cfg.rules.take(i as int));
                assert(cfg.rules.take(i + 1).last() == cfg.rules[i as int]);
            }
            i += 1;
        }
        proof {
            assert(cfg.rules.take(i as int) =~= cfg.rules);
        }
        let mut terminal: Vec<bool> = Vec::new();
        let mut x: usize = 0;
        while x < names.len()
            invariant
                x <= names.len(),
                names_of(terminals@) == cfg.terminals,
                terminal@.len() == x,
                forall|y: int|
                    0 <= y < x ==> terminal@[y] == cfg.terminals.contains(
                        #[trigger] names_of(names@)[y],
                    ),
            decreases names.len() - x,
        {
            let text = chars_of(names[x].as_str());
            let flag = crate::grammar::holds_text(terminals, &text);
            terminal.push(flag);
            proof {
                assert(names_of(names@)[x as int] == text@);
            }
            x += 1;
        }
        let numbering = Numbering { names, terminal, start, lhs, rhs, rule, alternative };
        proof {
            assert forall|r: int| 0 <= r < numbering.lhs@.len() implies numbering.holds(cfg, r) by {
                assert(entry_ok(
                    names_of(names@),
                    cfg,
                    lhs@[r],
                    rhs@[r]@,
                    rule@[r] as int,
                    alternative@[r] as int,
                ));
            }
            assert forall|a: int, b: int|
                0 <= a < cfg.rules.len() && 0 <= b < cfg.rules[a].alternatives.len() implies #[trigger] numbering.covers(
                a,
                b,
            ) by {
                assert(has_entry(rule@, alternative@, a, b));
                let r = choose|r: int| is_entry(rule@, alternative@, r, a, b);
                assert(numbering.stands_for(r, a, b));
            }
        }
        numbering
    }

    /// Entries that fit a list of names fit a list that these names stand at
    /// the front of.
    proof fn lemma_carry(
        a: Seq<Seq<char>>,
        b: Seq<Seq<char>>,
        cfg: Cfg,
        lhs: Seq<usize>,
        rhs: Seq<Vec<usize>>,
        rule: Seq<usize>,
        alternative: Seq<usize>,
    )
        requires
            prefix_of(a, b),
            lhs.len() == rhs.len(),
            lhs.len() == rule.len(),
            lhs.len() == alternative.len(),
            forall|r: int|
                0 <= r < lhs.len() ==> #[trigger] entry_ok(
                    a,
                    cfg,
                    lhs[r],
                    rhs[r]@,
                    rule[r] as int,
                    alternative[r] as int,
                ),
        ensures
            forall|r: int|
                0 <= r < lhs.len() ==> #[trigger] entry_ok(
                    b,
                    cfg,
                    lhs[r],
                    rhs[r]@,
                    rule[r] as int,
                    alternative[r] as int,
                ),
    {
        assert forall|r: int| 0 <= r < lhs.len() implies #[trigger] entry_ok(
            b,
            cfg,
            lhs[r],
            rhs[r]@,
            rule[r] as int,
            alternative[r] as int,
        ) by {
            lemma_prefix_entry(a, b, cfg, lhs[r], rhs[r]@, rule[r] as int, alternative[r] as int);
        }
    }
}


/// A row of `n` entries, all `false`.
fn empty_row(n: usize) -> (row: Vec<bool>)
    ensures
        row@.len() == n,
        forall|t: int| 0 <= t < n ==> !row@[t],
{
    let mut row: Vec<bool> = Vec::new();
    let mut t: usize = 0;
    while t < n
        invariant
            t <= n,
            row@.len() == t,
            forall|u: int| 0 <= u < t ==> !row@[u],
        decreases n - t,
    {
        row.push(false);
        t += 1;
    }
    row
}

/// Whether two square matrices hold the same entries.
fn same_matrix(a: &Vec<Vec<bool>>, b: &Vec<Vec<bool>>, n: usize) -> (same: bool)
    requires
        square(a@, n as nat),
        square(b@, n as nat),
    ensures
        same == forall|x: int, t: int| 0 <= x < n && 0 <= t < n ==> a@[x]@[t] == b@[x]@[t],
{
    let mut x: usize = 0;
    while x < n
        invariant
            x <= n,
            square(a@, n as nat),
            square(b@, n as nat),
            forall|y: int, t: int| 0 <= y < x && 0 <= t < n ==> a@[y]@[t] == b@[y]@[t],
        decreases n - x,
    {
        let mut t: usize = 0;
        while t < n
            invariant
                t <= n,
                x < n,
                square(a@, n as nat),
                square(b@, n as nat),
                forall|u: int| 0 <= u < t ==> a@[x as int]@[u] == b@[x as int]@[u],
            decreases n - t,
        {
            if a[x][t] != b[x][t] {
                return false;
            }
            t += 1;
        }
        x += 1;
    }
    true
}

/// The FIRST set of the symbols `codes[from..]`, by the sets that `m` holds.
fn seq_row(codes: &Vec<usize>, from: usize, m: &Vec<Vec<bool>>, n: usize) -> (row: Vec<bool>)
    requires
        square(m@, n as nat),
        n >= 1,
        from <= codes@.len(),
        forall|p: int| 0 <= p < codes@.len() ==> (#[trigger] codes@[p]) < n,
    ensures
        row@.len() == n,
        forall|t: int| 0 <= t < n ==> (#[trigger] row@[t]) == seq_in(m@, codes@.skip(from as int), t),
{
    let mut row = empty_row(n);
    row[0] = true;
    let mut p: usize = codes.len();
    proof {
        assert(codes@.skip(p as int).len() == 0);
    }
    while p > from
        invariant
            from <= p <= codes@.len(),
            square(m@, n as nat),
            n >= 1,
            row@.len() == n,
            forall|q: int| 0 <= q < codes@.len() ==> (#[trigger] codes@[q]) < n,
            forall|u: int| 0 <= u < n ==> (#[trigger] row@[u]) == seq_in(m@, codes@.skip(p as int), u),
        decreases p,
    {
        p -= 1;
        let c = codes[p];
        let ghost before = row@;
        let ghost here = codes@.skip(p as int);
        proof {
            assert(here[0] == c);
            assert(here.drop_first() =~= codes@.skip(p + 1));
        }
        let nullable = m[c][0];
        let mut col: usize = 0;
        while col < n
            invariant
                col <= n,
                c < n,
                square(m@, n as nat),
                row@.len() == n,
                before.len() == n,
                nullable == m@[c as int]@[0],
                forall|u: int|
                    0 <= u < n ==> (#[trigger] row@[u]) == (if u < col {
                        (u != 0 && m@[c as int]@[u]) || (nullable && before[u])
                    } else {
                        before[u]
                    }),
            decreases n - col,
        {
            let value = (col != 0 && m[c][col]) || (nullable && row[col]);
            row[col] = value;
            col += 1;
        }
        proof {
            assert forall|u: int| 0 <= u < n implies (#[trigger] row@[u]) == seq_in(m@, here, u) by {
                assert(before[u] == seq_in(m@, here.drop_first(), u));
            }
        }
    }
    row
}

/// The matrix `m` holds the FIRST sets of `cfg` at depth `k`, by the numbers
/// of `names`.
spec fn first_level(cfg: Cfg, names: Seq<Seq<char>>, m: Seq<Vec<bool>>, k: nat) -> bool {
    &&& square(m, names.len())
    &&& forall|x: int, t: int|
        0 <= x < names.len() && 0 <= t < names.len() ==> (#[trigger] m[x]@[t]) == in_first(
            cfg,
            names[x],
            names[t],
            k,
        )
}

/// The matrix `m` holds the FOLLOW sets of `cfg` at round `k`.
spec fn follow_level(cfg: Cfg, names: Seq<Seq<char>>, m: Seq<Vec<bool>>, k: nat) -> bool {
    &&& square(m, names.len())
    &&& forall|x: int, t: int|
        0 <= x < names.len() && 0 <= t < names.len() ==> (#[trigger] m[x]@[t]) == in_follow(
            cfg,
            names[x],
            names[t],
            k,
        )
}

/// By a matrix that holds the FIRST sets at depth `k`, the FIRST set of a
/// sequence of numbers is that of its symbols at depth `k`.
proof fn lemma_seq_link(
    cfg: Cfg,
    names: Seq<Seq<char>>,
    m: Seq<Vec<bool>>,
    k: nat,
    codes: Seq<usize>,
    symbols: Seq<Seq<char>>,
    t: int,
)
    requires
        names.no_duplicates(),
        names.len() >= 1,
        names[0] == epsilon(),
        first_level(cfg, names, m, k),
        coded(names, codes, symbols),
        0 <= t < names.len(),
    ensures
        seq_in(m, codes, t) == in_seq_first(cfg, symbols, names[t], k),
    decreases codes.len(),
{
    if codes.len() > 0 {
        let rest = codes.drop_first();
        let more = symbols.drop_first();
        assert(coded(names, rest, more)) by {
            assert forall|p: int| 0 <= p < rest.len() implies (#[trigger] rest[p]) < names.len()
                && names[rest[p] as int] == more[p] by {
                assert(codes[p + 1] < names.len());
            }
        }
        lemma_seq_link(cfg, names, m, k, rest, more, t);
        let c = codes[0] as int;
        assert(c < names.len() && names[c] == symbols[0]);
        assert(m[c]@[t] == in_first(cfg, names[c], names[t], k));
        assert(m[c]@[0] == in_first(cfg, names[c], names[0], k));
        assert((names[t] == epsilon()) == (t == 0));
    } else {
        assert((names[t] == epsilon()) == (t == 0));
        assert(symbols.len() == 0);
    }
}

/// Numbers that stand for symbols stand for them from any place on.
proof fn lemma_coded_skip(names: Seq<Seq<char>>, codes: Seq<usize>, symbols: Seq<Seq<char>>, p: int)
    requires
        coded(names, codes, symbols),
        0 <= p <= codes.len(),
    ensures
        coded(names, codes.skip(p), symbols.skip(p)),
{
    assert forall|q: int| 0 <= q < codes.skip(p).len() implies (#[trigger] codes.skip(p)[q])
        < names.len() && names[codes.skip(p)[q] as int] == symbols.skip(p)[q] by {
        assert(codes[q + p] < names.len());
    }
}

impl Numbering {
    /// The number of symbols.
    fn size(&self) -> (n: usize)
        ensures
            n == self.names().len(),
    {
        self.names.len()
    }

    /// The FIRST sets one level deeper than those of `old`.
    fn first_round(&self, old: &Vec<Vec<bool>>, Ghost(cfg): Ghost<Cfg>, Ghost(k): Ghost<nat>) -> (new:
        Vec<Vec<bool>>)
        requires
            self.fits(cfg),
            first_level(cfg, self.names(), old@, k),
        ensures
            first_level(cfg, self.names(), new@, k + 1),
    {
        let n = self.names.len();
        let ghost names = self.names();
        let mut new: Vec<Vec<bool>> = Vec::new();
        let mut x: usize = 0;
        while x < n
            invariant
                x <= n,
                n == names.len(),
                names == self.names(),
                self.fits(cfg),
                first_level(cfg, names, old@, k),
                new@.len() == x,
                forall|y: int| 0 <= y < x ==> (#[trigger] new@[y])@.len() == n,
                forall|y: int, t: int|
                    0 <= y < x && 0 <= t < n ==> new@[y]@[t] == in_first(
                        cfg,
                        names[y],
                        names[t],
                        k + 1,
                    ),
            decreases n - x,
        {
            let mut row = empty_row(n);
            if x == 0 {
                row[0] = true;
                proof {
                    assert forall|t: int| 0 <= t < n implies row@[t] == in_first(
                        cfg,
                        names[0],
                        names[t],
                        k + 1,
                    ) by {
                        if t != 0 {
                            assert(names[t] != names[0]);
                        }
                    }
                }
            } else if self.terminal[x] {
                row[x] = true;
                proof {
                    assert(names[x as int] != names[0]);
                    assert forall|t: int| 0 <= t < n implies row@[t] == in_first(
                        cfg,
                        names[x as int],
                        names[t],
                        k + 1,
                    ) by {
                        if t != x {
                            assert(names[t] != names[x as int]);
                        }
                    }
                }
            } else {
                let mut r: usize = 0;
                while r < self.lhs.len()
                    invariant
                        r <= self.lhs@.len(),
                        0 < x < n,
                        n == names.len(),
                        names == self.names(),
                        self.fits(cfg),
                        first_level(cfg, names, old@, k),
                        row@.len() == n,
                        forall|t: int|
                            0 <= t < n ==> (#[trigger] row@[t]) == self.given(old@, x as int, t, r as int),
                    decreases self.lhs@.len() - r,
                {
                    proof {
                        assert(self.holds(cfg, r as int));
                    }
                    if self.lhs[r] == x {
                        let part = seq_row(&self.rhs[r], 0, old, n);
                        let ghost before = row@;
                        let mut t: usize = 0;
                        while t < n
                            invariant
                                t <= n,
                                row@.len() == n,
                                part@.len() == n,
                                before.len() == n,
                                forall|u: int|
                                    0 <= u < n ==> (#[trigger] row@[u]) == (before[u] || (u < t
                                        && part@[u])),
                            decreases n - t,
                        {
                            let ghost was = row@;
                            if part[t] {
                                row[t] = true;
                            }
                            proof {
                                assert forall|u: int| 0 <= u < n implies (#[trigger] row@[u]) == (
                                before[u] || (u < t + 1 && part@[u])) by {
                                    if u != t {
                                        assert(row@[u] == was[u]);
                                    }
                                }
                            }
                            t += 1;
                        }
                        proof {
                            assert(self.rhs@[r as int]@.skip(0) =~= self.rhs@[r as int]@);
                            assert forall|t: int| 0 <= t < n implies row@[t] == self.given(
                                old@,
                                x as int,
                                t,
                                r + 1,
                            ) by {
                                if self.given(old@, x as int, t, r + 1) {
                                    let r1 = r + 1;
                                    let q = choose|q: int| self.gives(old@, x as int, t, r1, q);
                                    if q < r {
                                        assert(self.gives(old@, x as int, t, r as int, q));
                                    }
                                }
                                if before[t] {
                                    let r0 = r as int;
                                    let q = choose|q: int| self.gives(old@, x as int, t, r0, q);
                                    assert(self.gives(old@, x as int, t, r + 1, q));
                                }
                                if part@[t] {
                                    assert(self.gives(old@, x as int, t, r + 1, r as int));
                                }
                            }
                        }
                    } else {
                        proof {
                            assert forall|t: int| 0 <= t < n implies row@[t] == self.given(
                                old@,
                                x as int,
                                t,
                                r + 1,
                            ) by {
                                if self.given(old@, x as int, t, r + 1) {
                                    let r1 = r + 1;
                                    let q = choose|q: int| self.gives(old@, x as int, t, r1, q);
                                    assert(self.gives(old@, x as int, t, r as int, q));
                                }
                                if row@[t] {
                                    let r0 = r as int;
                                    let q = choose|q: int| self.gives(old@, x as int, t, r0, q);
                                    assert(self.gives(old@, x as int, t, r + 1, q));
                                }
                            }
                        }
                    }
                    r += 1;
                }
                proof {
                    assert(names[x as int] != names[0]);
                    assert forall|t: int| 0 <= t < n implies row@[t] == in_first(
                        cfg,
                        names[x as int],
                        names[t],
                        k + 1,
                    ) by {
                        self.lemma_given(cfg, old@, k, x as int, t);
                    }
                }
            }
            new.push(row);
            x += 1;
        }
        new
    }

    /// Entry `q`, one of the first `r`, is an alternative of symbol `x` whose
    /// FIRST set by `m` holds `t`.
    closed spec fn gives(&self, m: Seq<Vec<bool>>, x: int, t: int, r: int, q: int) -> bool {
        0 <= q < r && q < self.lhs@.len() && self.lhs@[q] == x && seq_in(m, self.rhs@[q]@, t)
    }

    /// One of the first `r` entries is an alternative of symbol `x` whose
    /// FIRST set by `m` holds `t`.
    closed spec fn given(&self, m: Seq<Vec<bool>>, x: int, t: int, r: int) -> bool {
        exists|q: int| self.gives(m, x, t, r, q)
    }

    /// What the entries give a symbol that is neither the empty marker nor a
    /// terminal, by the FIRST sets at depth `k`, is its FIRST set at depth
    /// `k + 1`.
    proof fn lemma_given(&self, cfg: Cfg, m: Seq<Vec<bool>>, k: nat, x: int, t: int)
        requires
            self.fits(cfg),
            first_level(cfg, self.names(), m, k),
            0 < x < self.names().len(),
            0 <= t < self.names().len(),
            !self.terminal@[x],
        ensures
            self.given(m, x, t, self.lhs@.len() as int) == in_first(
                cfg,
                self.names()[x],
                self.names()[t],
                k + 1,
            ),
    {
        let names = self.names();
        let all = self.lhs@.len() as int;
        assert(names[x] != names[0]);
        assert(!cfg.terminals.contains(names[x]));
        if self.given(m, x, t, all) {
            let q = choose|q: int| self.gives(m, x, t, all, q);
            assert(self.holds(cfg, q));
            let i = self.rule@[q] as int;
            let j = self.alternative@[q] as int;
            lemma_seq_link(
                cfg,
                names,
                m,
                k,
                self.rhs@[q]@,
                fields_of(cfg.rules[i].alternatives[j]),
                t,
            );
            assert(in_seq_first(cfg, fields_of(cfg.rules[i].alternatives[j]), names[t], k));
        }
        if in_first(cfg, names[x], names[t], k + 1) {
            let (i, j) = choose|i: int, j: int|
                #![trigger cfg.rules[i].alternatives[j]]
                0 <= i < cfg.rules.len() && 0 <= j < cfg.rules[i].alternatives.len()
                    && cfg.rules[i].lhs == names[x] && in_seq_first(
                    cfg,
                    fields_of(cfg.rules[i].alternatives[j]),
                    names[t],
                    k,
                );
            assert(self.covers(i, j));
            let q = choose|q: int| self.stands_for(q, i, j);
            assert(self.holds(cfg, q));
            lemma_seq_link(
                cfg,
                names,
                m,
                k,
                self.rhs@[q]@,
                fields_of(cfg.rules[i].alternatives[j]),
                t,
            );
            assert(self.gives(m, x, t, all, q));
        }
    }

    /// FIRST sets that a round leaves as they are have stopped growing.
    proof fn lemma_first_settled(&self, cfg: Cfg, a: Seq<Vec<bool>>, b: Seq<Vec<bool>>, k: nat)
        requires
            self.fits(cfg),
            first_level(cfg, self.names(), a, k),
            first_level(cfg, self.names(), b, k + 1),
            forall|x: int, t: int|
                0 <= x < self.names().len() && 0 <= t < self.names().len() ==> a[x]@[t] == b[x]@[t],
        ensures
            first_stable(cfg, k),
    {
        let names = self.names();
        assert forall|x: Seq<char>, t: Seq<char>| #[trigger]
            in_first(cfg, x, t, k + 1) implies in_first(cfg, x, t, k) by {
            lemma_first_range(cfg, x, t, k + 1);
            if x != epsilon() && !cfg.terminals.contains(x) {
                let (i, j) = choose|i: int, j: int|
                    #![trigger cfg.rules[i].alternatives[j]]
                    0 <= i < cfg.rules.len() && 0 <= j < cfg.rules[i].alternatives.len()
                        && cfg.rules[i].lhs == x && in_seq_first(
                        cfg,
                        fields_of(cfg.rules[i].alternatives[j]),
                        t,
                        k,
                    );
                assert(self.covers(i, j));
                let q = choose|q: int| self.stands_for(q, i, j);
                assert(self.holds(cfg, q));
                let xi = self.lhs@[q] as int;
                let ti = self.number_of(cfg, t);
                assert(a[xi]@[ti] == b[xi]@[ti]);
            }
        }
    }

    /// The number of the empty marker or of a terminal.
    proof fn number_of(&self, cfg: Cfg, t: Seq<char>) -> (ti: int)
        requires
            self.fits(cfg),
            t == epsilon() || t == end_marker() || cfg.terminals.contains(t),
        ensures
            0 <= ti < self.names().len(),
            self.names()[ti] == t,
    {
        let names = self.names();
        if t == epsilon() {
            0
        } else if t == end_marker() {
            1
        } else {
            let i = choose|i: int| 0 <= i < cfg.terminals.len() && cfg.terminals[i] == t;
            assert(names.contains(cfg.terminals[i]));
            names.index_of(t)
        }
    }

    /// The FIRST sets of the grammar.
    fn first_sets(&self, Ghost(cfg): Ghost<Cfg>) -> (r: (Vec<Vec<bool>>, Ghost<nat>))
        requires
            self.fits(cfg),
        ensures
            first_level(cfg, self.names(), r.0@, r.1@),
            first_stable(cfg, r.1@),
    {
        let n = self.names.len();
        let ghost names = self.names();
        let mut sets: Vec<Vec<bool>> = Vec::new();
        let mut x: usize = 0;
        while x < n
            invariant
                x <= n,
                n == names.len(),
                names == self.names(),
                self.fits(cfg),
                sets@.len() == x,
                forall|y: int| 0 <= y < x ==> (#[trigger] sets@[y])@.len() == n,
                forall|y: int, t: int|
                    0 <= y < x && 0 <= t < n ==> sets@[y]@[t] == in_first(cfg, names[y], names[t], 0),
            decreases n - x,
        {
            let mut row = empty_row(n);
            if x == 0 {
                row[0] = true;
                proof {
                    assert forall|t: int| 0 <= t < n implies row@[t] == in_first(
                        cfg,
                        names[0],
                        names[t],
                        0,
                    ) by {
                        if t != 0 {
                            assert(names[t] != names[0]);
                        }
                    }
                }
            } else if self.terminal[x] {
                row[x] = true;
                proof {
                    assert(names[x as int] != names[0]);
                    assert forall|t: int| 0 <= t < n implies row@[t] == in_first(
                        cfg,
                        names[x as int],
                        names[t],
                        0,
                    ) by {
                        if t != x {
                            assert(names[t] != names[x as int]);
                        }
                    }
                }
            } else {
                proof {
                    assert(names[x as int] != names[0]);
                }
            }
            sets.push(row);
            x += 1;
        }
        let ghost mut k: nat = 0;
        loop
            invariant
                n == names.len(),
                names == self.names(),
                self.fits(cfg),
                first_level(cfg, names, sets@, k),
            ensures
                first_level(cfg, names, sets@, k),
                first_stable(cfg, k),
            decreases n * n - total(sets@),
        {
            let next = self.first_round(&sets, Ghost(cfg), Ghost(k));
            proof {
                assert forall|y: int, t: int| 0 <= y < n && 0 <= t < n && sets@[y]@[t] implies next@[y]@[t] by {
                    lemma_first_mono(cfg, names[y], names[t], k);
                }
                lemma_total_grow(sets@, next@, n as nat);
            }
            if same_matrix(&sets, &next, n) {
                proof {
                    self.lemma_first_settled(cfg, sets@, next@, k);
                }
                break ;
            }
            proof {
                let (y, t) = choose|y: int, t: int|
                    0 <= y < n && 0 <= t < n && sets@[y]@[t] != #[trigger] next@[y]@[t];
                assert(!sets@[y]@[t] && next@[y]@[t]);
                k = k + 1;
            }
            sets = next;
        }
        (sets, Ghost(k))
    }
}


/// Only the end marker and terminals are in FOLLOW sets.
pub proof fn lemma_follow_range(cfg: Cfg, x: Seq<char>, t: Seq<char>, d: nat)
    requires
        in_follow(cfg, x, t, d),
    ensures
        t == end_marker() || cfg.terminals.contains(t),
    decreases d,
{
    if d > 0 {
        if in_follow(cfg, x, t, (d - 1) as nat) {
            lemma_follow_range(cfg, x, t, (d - 1) as nat);
        } else {
            let (i, j, p) = choose|i: int, j: int, p: int|
                #![trigger fields_of(cfg.rules[i].alternatives[j])[p]]
                0 <= i < cfg.rules.len() && 0 <= j < cfg.rules[i].alternatives.len() && 0 <= p
                    < fields_of(cfg.rules[i].alternatives[j]).len() && fields_of(
                    cfg.rules[i].alternatives[j],
                )[p] == x && follows_at(
                    cfg,
                    cfg.rules[i].lhs,
                    fields_of(cfg.rules[i].alternatives[j]),
                    p,
                    t,
                    (d - 1) as nat,
                );
            let rest = fields_of(cfg.rules[i].alternatives[j]).skip(p + 1);
            if t != epsilon() && seq_first_has(cfg, rest, t) {
                let e = choose|e: nat| in_seq_first(cfg, rest, t, e);
                lemma_seq_range(cfg, rest, t, e);
            } else {
                lemma_follow_range(cfg, cfg.rules[i].lhs, t, (d - 1) as nat);
            }
        }
    }
}

impl Numbering {
    /// Whether the symbol at place `s` of entry `q` gets `t` into its FOLLOW
    /// set in a round, by the FIRST sets `first` and the FOLLOW sets `old`.
    closed spec fn feeds(&self, old: Seq<Vec<bool>>, first: Seq<Vec<bool>>, q: int, s: int, t: int) -> bool {
        (t != 0 && seq_in(first, self.rhs@[q]@.skip(s + 1), t)) || (seq_in(
            first,
            self.rhs@[q]@.skip(s + 1),
            0,
        ) && old[self.lhs@[q] as int]@[t])
    }

    /// Place `s` of entry `q` holds the symbol `y`, comes before place `p` of
    /// entry `r`, and gets `t` into the FOLLOW set of `y`.
    closed spec fn adds(
        &self,
        old: Seq<Vec<bool>>,
        first: Seq<Vec<bool>>,
        y: int,
        t: int,
        r: int,
        p: int,
        q: int,
        s: int,
    ) -> bool {
        &&& 0 <= q < self.lhs@.len()
        &&& 0 <= s < self.rhs@[q]@.len()
        &&& (q < r || (q == r && s < p))
        &&& self.rhs@[q]@[s] == y
        &&& self.feeds(old, first, q, s, t)
    }

    /// Some place before place `p` of entry `r` gets `t` into the FOLLOW set
    /// of `y`.
    closed spec fn added(
        &self,
        old: Seq<Vec<bool>>,
        first: Seq<Vec<bool>>,
        y: int,
        t: int,
        r: int,
        p: int,
    ) -> bool {
        exists|q: int, s: int| self.adds(old, first, y, t, r, p, q, s)
    }

    /// What the entries add to a FOLLOW set at round `k` makes it the FOLLOW
    /// set at round `k + 1`.
    proof fn lemma_added(
        &self,
        cfg: Cfg,
        old: Seq<Vec<bool>>,
        first: Seq<Vec<bool>>,
        kf: nat,
        k: nat,
        y: int,
        t: int,
    )
        requires
            self.fits(cfg),
            first_level(cfg, self.names(), first, kf),
            first_stable(cfg, kf),
            follow_level(cfg, self.names(), old, k),
            0 <= y < self.names().len(),
            0 <= t < self.names().len(),
        ensures
            (old[y]@[t] || self.added(old, first, y, t, self.lhs@.len() as int, 0)) == in_follow(
                cfg,
                self.names()[y],
                self.names()[t],
                k + 1,
            ),
    {
        let names = self.names();
        let all = self.lhs@.len() as int;
        assert((names[t] == epsilon()) == (t == 0));
        assert(old[y]@[t] == in_follow(cfg, names[y], names[t], k));
        if self.added(old, first, y, t, all, 0) {
            let (q, s) = choose|q: int, s: int| self.adds(old, first, y, t, all, 0, q, s);
            assert(self.holds(cfg, q));
            let i = self.rule@[q] as int;
            let j = self.alternative@[q] as int;
            let symbols = fields_of(cfg.rules[i].alternatives[j]);
            self.lemma_feeds(cfg, old, first, kf, k, q, s, t);
            assert(symbols[s] == names[y]);
            assert(follows_at(cfg, cfg.rules[i].lhs, symbols, s, names[t], k));
        }
        if in_follow(cfg, names[y], names[t], k + 1) && !old[y]@[t] {
            let (i, j, p) = choose|i: int, j: int, p: int|
                #![trigger fields_of(cfg.rules[i].alternatives[j])[p]]
                0 <= i < cfg.rules.len() && 0 <= j < cfg.rules[i].alternatives.len() && 0 <= p
                    < fields_of(cfg.rules[i].alternatives[j]).len() && fields_of(
                    cfg.rules[i].alternatives[j],
                )[p] == names[y] && follows_at(
                    cfg,
                    cfg.rules[i].lhs,
                    fields_of(cfg.rules[i].alternatives[j]),
                    p,
                    names[t],
                    k,
                );
            assert(self.covers(i, j));
            let q = choose|q: int| self.stands_for(q, i, j);
            assert(self.holds(cfg, q));
            self.lemma_feeds(cfg, old, first, kf, k, q, p, t);
            assert(self.rhs@[q]@[p] < names.len());
            assert(self.rhs@[q]@[p] == y);
            assert(self.adds(old, first, y, t, all, 0, q, p));
        }
    }

    /// What a place of an entry feeds, by the FIRST sets and the FOLLOW sets
    /// at round `k`, is what follows the symbol at this place of the
    /// alternative.
    proof fn lemma_feeds(
        &self,
        cfg: Cfg,
        old: Seq<Vec<bool>>,
        first: Seq<Vec<bool>>,
        kf: nat,
        k: nat,
        q: int,
        s: int,
        t: int,
    )
        requires
            self.fits(cfg),
            first_level(cfg, self.names(), first, kf),
            first_stable(cfg, kf),
            follow_level(cfg, self.names(), old, k),
            0 <= q < self.lhs@.len(),
            0 <= s < self.rhs@[q]@.len(),
            0 <= t < self.names().len(),
        ensures
            self.feeds(old, first, q, s, t) == follows_at(
                cfg,
                cfg.rules[self.rule@[q] as int].lhs,
                fields_of(
                    cfg.rules[self.rule@[q] as int].alternatives[self.alternative@[q] as int],
                ),
                s,
                self.names()[t],
                k,
            ),
    {
        let names = self.names();
        assert(self.holds(cfg, q));
        let i = self.rule@[q] as int;
        let j = self.alternative@[q] as int;
        let symbols = fields_of(cfg.rules[i].alternatives[j]);
        let codes = self.rhs@[q]@;
        assert((names[t] == epsilon()) == (t == 0));
        lemma_coded_skip(names, codes, symbols, s + 1);
        lemma_seq_link(cfg, names, first, kf, codes.skip(s + 1), symbols.skip(s + 1), t);
        lemma_seq_link(cfg, names, first, kf, codes.skip(s + 1), symbols.skip(s + 1), 0);
        lemma_seq_limit(cfg, kf, symbols.skip(s + 1), names[t]);
        lemma_seq_limit(cfg, kf, symbols.skip(s + 1), epsilon());
        assert(old[self.lhs@[q] as int]@[t] == in_follow(cfg, cfg.rules[i].lhs, names[t], k));
    }

    /// The FOLLOW sets after one more round than those of `old`.
    fn follow_round(
        &self,
        old: &Vec<Vec<bool>>,
        first: &Vec<Vec<bool>>,
        Ghost(cfg): Ghost<Cfg>,
        Ghost(kf): Ghost<nat>,
        Ghost(k): Ghost<nat>,
    ) -> (new: Vec<Vec<bool>>)
        requires
            self.fits(cfg),
            first_level(cfg, self.names(), first@, kf),
            first_stable(cfg, kf),
            follow_level(cfg, self.names(), old@, k),
        ensures
            follow_level(cfg, self.names(), new@, k + 1),
    {
        let n = self.names.len();
        let ghost names = self.names();
        let mut new: Vec<Vec<bool>> = Vec::new();
        let mut x: usize = 0;
        while x < n
            invariant
                x <= n,
                n == names.len(),
                square(old@, n as nat),
                new@.len() == x,
                forall|y: int| 0 <= y < x ==> (#[trigger] new@[y])@.len() == n,
                forall|y: int, t: int|
                    0 <= y < x && 0 <= t < n ==> (#[trigger] new@[y]@[t]) == old@[y]@[t],
            decreases n - x,
        {
            let mut row: Vec<bool> = Vec::new();
            let mut t: usize = 0;
            while t < n
                invariant
                    t <= n,
                    x < n,
                    square(old@, n as nat),
                    row@.len() == t,
                    forall|u: int| 0 <= u < t ==> (#[trigger] row@[u]) == old@[x as int]@[u],
                decreases n - t,
            {
                row.push(old[x][t]);
                t += 1;
            }
            new.push(row);
            x += 1;
        }
        let mut r: usize = 0;
        while r < self.lhs.len()
            invariant
                r <= self.lhs@.len(),
                n == names.len(),
                names == self.names(),
                self.fits(cfg),
                first_level(cfg, names, first@, kf),
                follow_level(cfg, names, old@, k),
                square(new@, n as nat),
                forall|y: int, t: int|
                    0 <= y < n && 0 <= t < n ==> (#[trigger] new@[y]@[t]) == (old@[y]@[t]
                        || self.added(old@, first@, y, t, r as int, 0)),
            decreases self.lhs@.len() - r,
        {
            proof {
                assert(self.holds(cfg, r as int));
            }
            let left = self.lhs[r];
            let codes = &self.rhs[r];
            let mut p: usize = 0;
            while p < codes.len()
                invariant
                    p <= codes@.len(),
                    r < self.lhs@.len(),
                    codes@ == self.rhs@[r as int]@,
                    left == self.lhs@[r as int],
                    left < n,
                    forall|q: int| 0 <= q < codes@.len() ==> (#[trigger] codes@[q]) < n,
                    n == names.len(),
                    n >= 2,
                    names == self.names(),
                    self.fits(cfg),
                    first_level(cfg, names, first@, kf),
                    follow_level(cfg, names, old@, k),
                    square(new@, n as nat),
                    forall|y: int, t: int|
                        0 <= y < n && 0 <= t < n ==> (#[trigger] new@[y]@[t]) == (old@[y]@[t]
                            || self.added(old@, first@, y, t, r as int, p as int)),
                decreases codes@.len() - p,
            {
                let x = codes[p];
                let part = seq_row(codes, p + 1, first, n);
                let ghost start = new@;
                let mut t: usize = 0;
                while t < n
                    invariant
                        t <= n,
                        x < n,
                        left < n,
                        n >= 2,
                        part@.len() == n,
                        square(new@, n as nat),
                        square(old@, n as nat),
                        square(start, n as nat),
                        forall|y: int, u: int|
                            0 <= y < n && 0 <= u < n ==> (#[trigger] new@[y]@[u]) == (start[y]@[u] || (
                            y == x && u < t && ((u != 0 && part@[u]) || (part@[0]
                                && old@[left as int]@[u])))),
                    decreases n - t,
                {
                    let ghost was = new@;
                    if (t != 0 && part[t]) || (part[0] && old[left][t]) {
                        new[x][t] = true;
                    }
                    proof {
                        assert forall|y: int, u: int| 0 <= y < n && 0 <= u < n implies (
                        #[trigger] new@[y]@[u]) == (start[y]@[u] || (y == x && u < t + 1 && ((u != 0
                            && part@[u]) || (part@[0] && old@[left as int]@[u])))) by {
                            if y != x || u != t {
                                assert(new@[y]@[u] == was[y]@[u]);
                            }
                        }
                    }
                    t += 1;
                }
                proof {
                    let ri = r as int;
                    let pi = p as int;
                    let beyond = p + 1;
                    assert forall|y: int, t: int| 0 <= y < n && 0 <= t < n implies (
                    #[trigger] new@[y]@[t]) == (old@[y]@[t] || self.added(
                        old@,
                        first@,
                        y,
                        t,
                        ri,
                        beyond,
                    )) by {
                        assert(part@[t] == seq_in(first@, codes@.skip(p + 1), t));
                        assert(part@[0] == seq_in(first@, codes@.skip(p + 1), 0));
                        let fed = self.feeds(old@, first@, ri, pi, t);
                        assert(fed == ((t != 0 && part@[t]) || (part@[0] && old@[left as int]@[t])));
                        assert(start[y]@[t] == (old@[y]@[t] || self.added(
                            old@,
                            first@,
                            y,
                            t,
                            ri,
                            pi,
                        )));
                        if self.added(old@, first@, y, t, ri, beyond) {
                            let (q, s) = choose|q: int, s: int|
                                self.adds(old@, first@, y, t, ri, beyond, q, s);
                            if q == ri && s == pi {
                            } else {
                                assert(self.adds(old@, first@, y, t, ri, pi, q, s));
                            }
                        }
                        if self.added(old@, first@, y, t, ri, pi) {
                            let (q, s) = choose|q: int, s: int|
                                self.adds(old@, first@, y, t, ri, pi, q, s);
                            assert(self.adds(old@, first@, y, t, ri, beyond, q, s));
                        }
                        if y == x && fed {
                            assert(self.adds(old@, first@, y, t, ri, beyond, ri, pi));
                        }
                    }
                }
                p += 1;
            }
            proof {
                let ri = r as int;
                let r1 = r + 1;
                let len = codes@.len() as int;
                assert forall|y: int, t: int| 0 <= y < n && 0 <= t < n implies (
                #[trigger] new@[y]@[t]) == (old@[y]@[t] || self.added(old@, first@, y, t, r1, 0)) by {
                    if self.added(old@, first@, y, t, r1, 0) {
                        let (q, s) = choose|q: int, s: int|
                            self.adds(old@, first@, y, t, r1, 0, q, s);
                        assert(self.adds(old@, first@, y, t, ri, len, q, s));
                    }
                    if self.added(old@, first@, y, t, ri, len) {
                        let (q, s) = choose|q: int, s: int|
                            self.adds(old@, first@, y, t, ri, len, q, s);
                        assert(self.adds(old@, first@, y, t, r1, 0, q, s));
                    }
                }
            }
            r += 1;
        }
        proof {
            assert forall|y: int, t: int| 0 <= y < n && 0 <= t < n implies new@[y]@[t] == in_follow(
                cfg,
                names[y],
                names[t],
                k + 1,
            ) by {
                self.lemma_added(cfg, old@, first@, kf, k, y, t);
            }
        }
        new
    }

    /// FOLLOW sets that a round leaves as they are have stopped growing.
    proof fn lemma_follow_settled(&self, cfg: Cfg, a: Seq<Vec<bool>>, b: Seq<Vec<bool>>, k: nat)
        requires
            self.fits(cfg),
            follow_level(cfg, self.names(), a, k),
            follow_level(cfg, self.names(), b, k + 1),
            forall|x: int, t: int|
                0 <= x < self.names().len() && 0 <= t < self.names().len() ==> a[x]@[t] == b[x]@[t],
        ensures
            follow_stable(cfg, k),
    {
        let names = self.names();
        assert forall|x: Seq<char>, t: Seq<char>| #[trigger]
            in_follow(cfg, x, t, k + 1) implies in_follow(cfg, x, t, k) by {
            lemma_follow_range(cfg, x, t, k + 1);
            if !in_follow(cfg, x, t, k) {
                let (i, j, p) = choose|i: int, j: int, p: int|
                    #![trigger fields_of(cfg.rules[i].alternatives[j])[p]]
                    0 <= i < cfg.rules.len() && 0 <= j < cfg.rules[i].alternatives.len() && 0 <= p
                        < fields_of(cfg.rules[i].alternatives[j]).len() && fields_of(
                        cfg.rules[i].alternatives[j],
                    )[p] == x && follows_at(
                        cfg,
                        cfg.rules[i].lhs,
                        fields_of(cfg.rules[i].alternatives[j]),
                        p,
                        t,
                        k,
                    );
                assert(self.covers(i, j));
                let q = choose|q: int| self.stands_for(q, i, j);
                assert(self.holds(cfg, q));
                let xi = self.rhs@[q]@[p] as int;
                assert(xi < names.len() && names[xi] == x);
                let ti = self.number_of(cfg, t);
                assert(a[xi]@[ti] == b[xi]@[ti]);
            }
        }
    }

    /// The FOLLOW sets of the grammar.
    fn follow_sets(&self, first: &Vec<Vec<bool>>, Ghost(cfg): Ghost<Cfg>, Ghost(kf): Ghost<nat>) -> (r:
        (Vec<Vec<bool>>, Ghost<nat>))
        requires
            self.fits(cfg),
            first_level(cfg, self.names(), first@, kf),
            first_stable(cfg, kf),
        ensures
            follow_level(cfg, self.names(), r.0@, r.1@),
            follow_stable(cfg, r.1@),
    {
        let n = self.names.len();
        let ghost names = self.names();
        let mut sets: Vec<Vec<bool>> = Vec::new();
        let mut x: usize = 0;
        while x < n
            invariant
                x <= n,
                n == names.len(),
                names == self.names(),
                self.fits(cfg),
                sets@.len() == x,
                forall|y: int| 0 <= y < x ==> (#[trigger] sets@[y])@.len() == n,
                forall|y: int, t: int|
                    0 <= y < x && 0 <= t < n ==> (#[trigger] sets@[y]@[t]) == in_follow(
                        cfg,
                        names[y],
                        names[t],
                        0,
                    ),
            decreases n - x,
        {
            let mut row = empty_row(n);
            if x == self.start {
                row[1] = true;
            }
            proof {
                assert forall|t: int| 0 <= t < n implies (#[trigger] row@[t]) == in_follow(
                    cfg,
                    names[x as int],
                    names[t],
                    0,
                ) by {
                    if t != 1 {
                        assert(names[t] != names[1]);
                    }
                    if x != self.start {
                        assert(names[x as int] != names[self.start as int]);
                    }
                }
            }
            sets.push(row);
            x += 1;
        }
        let ghost mut k: nat = 0;
        loop
            invariant
                n == names.len(),
                names == self.names(),
                self.fits(cfg),
                first_level(cfg, names, first@, kf),
                first_stable(cfg, kf),
                follow_level(cfg, names, sets@, k),
            ensures
                follow_level(cfg, names, sets@, k),
                follow_stable(cfg, k),
            decreases n * n - total(sets@),
        {
            let next = self.follow_round(&sets, first, Ghost(cfg), Ghost(kf), Ghost(k));
            proof {
                assert forall|y: int, t: int| 0 <= y < n && 0 <= t < n && sets@[y]@[t] implies next@[y]@[t] by {
                    assert(sets@[y]@[t] == in_follow(cfg, names[y], names[t], k));
                    assert(next@[y]@[t] == in_follow(cfg, names[y], names[t], k + 1));
                }
                lemma_total_grow(sets@, next@, n as nat);
            }
            if same_matrix(&sets, &next, n) {
                proof {
                    self.lemma_follow_settled(cfg, sets@, next@, k);
                }
                break ;
            }
            proof {
                let (y, t) = choose|y: int, t: int|
                    0 <= y < n && 0 <= t < n && sets@[y]@[t] != #[trigger] next@[y]@[t];
                assert(!sets@[y]@[t] && next@[y]@[t]);
                k = k + 1;
            }
            sets = next;
        }
        (sets, Ghost(k))
    }
}


/// Whether the alternative `alternative` of `lhs` is the entry of the parsing
/// table for `lhs` and the terminal `t`: `t` begins the alternative, or the
/// alternative can be empty and `t` follows `lhs`.
pub open spec fn predicts(cfg: Cfg, lhs: Seq<char>, alternative: Seq<char>, t: Seq<char>) -> bool {
    (t != epsilon() && seq_first_has(cfg, fields_of(alternative), t)) || (seq_first_has(
        cfg,
        fields_of(alternative),
        epsilon(),
    ) && follow_has(cfg, lhs, t))
}

/// The FIRST and FOLLOW sets of a grammar.
pub struct Analysis {
    numbering: Numbering,
    first: Vec<Vec<bool>>,
    follow: Vec<Vec<bool>>,
    cfg: Ghost<Cfg>,
}

impl Analysis {
    /// The grammar that was analysed.
    pub closed spec fn grammar(&self) -> Cfg {
        self.cfg@
    }

    /// The names of the grammar's symbols, by number.
    pub closed spec fn names(&self) -> Seq<Seq<char>> {
        self.numbering.names()
    }

    /// The invariant: the sets are the FIRST and FOLLOW sets of the grammar.
    pub closed spec fn wf(&self) -> bool {
        let names = self.numbering.names();
        &&& self.numbering.fits(self.cfg@)
        &&& square(self.first@, names.len())
        &&& square(self.follow@, names.len())
        &&& forall|x: int, t: int|
            0 <= x < names.len() && 0 <= t < names.len() ==> (#[trigger] self.first@[x]@[t])
                == first_has(self.cfg@, names[x], names[t])
        &&& forall|x: int, t: int|
            0 <= x < names.len() && 0 <= t < names.len() ==> (#[trigger] self.follow@[x]@[t])
                == follow_has(self.cfg@, names[x], names[t])
        &&& exists|k: nat| first_level(self.cfg@, names, self.first@, k) && first_stable(self.cfg@, k)
        &&& self.numbering.bounded(self.cfg@)
    }

    /// The symbols are numbered without repetition, and are no more than
    /// the grammar can have.
    pub proof fn lemma_names(&self)
        requires
            self.wf(),
        ensures
            self.names().no_duplicates(),
            self.names().len() <= symbols_bound(self.grammar()),
    {
    }

    /// What an alternative predicts has a number.
    pub proof fn lemma_predicted(&self, lhs: Seq<char>, alternative: Seq<char>, t: Seq<char>)
        requires
            self.wf(),
            predicts(self.grammar(), lhs, alternative, t),
        ensures
            self.names().contains(t),
    {
        let cfg = self.cfg@;
        if t != epsilon() && seq_first_has(cfg, fields_of(alternative), t) {
            let d = choose|d: nat| in_seq_first(cfg, fields_of(alternative), t, d);
            lemma_seq_range(cfg, fields_of(alternative), t, d);
        } else {
            let d = choose|d: nat| in_follow(cfg, lhs, t, d);
            lemma_follow_range(cfg, lhs, t, d);
        }
        let ti = self.numbering.number_of(cfg, t);
    }

    /// The number of symbols.
    pub fn symbols(&self) -> (n: usize)
        ensures
            n == self.names().len(),
    {
        self.numbering.size()
    }

    /// The name of symbol `t`.
    pub fn name(&self, t: usize) -> (name: &String)
        requires
            t < self.names().len(),
        ensures
            name@ == self.names()[t as int],
    {
        &self.numbering.names[t]
    }

    /// The symbols for which alternative `j` of rule `i` is the entry of
    /// the parsing table.
    pub fn predict(&self, i: usize, j: usize) -> (row: Vec<bool>)
        requires
            self.wf(),
            i < self.grammar().rules.len(),
            j < self.grammar().rules[i as int].alternatives.len(),
        ensures
            row@.len() == self.names().len(),
            forall|t: int|
                0 <= t < row@.len() ==> (#[trigger] row@[t]) == predicts(
                    self.grammar(),
                    self.grammar().rules[i as int].lhs,
                    self.grammar().rules[i as int].alternatives[j as int],
                    self.names()[t],
                ),
    {
        let ghost cfg = self.cfg@;
        let ghost names = self.names();
        let n = self.numbering.size();
        let mut r: usize = 0;
        proof {
            assert(self.numbering.covers(i as int, j as int));
        }
        while r < self.numbering.rule.len() && !(self.numbering.rule[r] == i
            && self.numbering.alternative[r] == j)
            invariant
                r <= self.numbering.rule@.len(),
                self.numbering.rule@.len() == self.numbering.lhs@.len(),
                self.numbering.alternative@.len() == self.numbering.lhs@.len(),
                forall|q: int| 0 <= q < r ==> !self.numbering.stands_for(q, i as int, j as int),
            decreases self.numbering.rule@.len() - r,
        {
            r += 1;
        }
        proof {
            let q = choose|q: int| self.numbering.stands_for(q, i as int, j as int);
            assert(r <= q);
            assert(self.numbering.holds(cfg, r as int));
        }
        let begins = seq_row(&self.numbering.rhs[r], 0, &self.first, n);
        let left = self.numbering.lhs[r];
        let mut row: Vec<bool> = Vec::new();
        let mut t: usize = 0;
        while t < n
            invariant
                t <= n,
                n == names.len(),
                left < n,
                begins@.len() == n,
                square(self.follow@, n as nat),
                row@.len() == t,
                forall|u: int|
                    0 <= u < t ==> (#[trigger] row@[u]) == ((u != 0 && begins@[u]) || (begins@[0]
                        && self.follow@[left as int]@[u])),
            decreases n - t,
        {
            row.push((t != 0 && begins[t]) || (begins[0] && self.follow[left][t]));
            t += 1;
        }
        proof {
            let k = choose|k: nat| first_level(cfg, names, self.first@, k) && first_stable(cfg, k);
            let codes = self.numbering.rhs@[r as int]@;
            let symbols = fields_of(cfg.rules[i as int].alternatives[j as int]);
            assert(codes.skip(0) =~= codes);
            assert forall|u: int| 0 <= u < row@.len() implies (#[trigger] row@[u]) == predicts(
                cfg,
                cfg.rules[i as int].lhs,
                cfg.rules[i as int].alternatives[j as int],
                names[u],
            ) by {
                lemma_seq_link(cfg, names, self.first@, k, codes, symbols, u);
                lemma_seq_link(cfg, names, self.first@, k, codes, symbols, 0);
                lemma_seq_limit(cfg, k, symbols, names[u]);
                lemma_seq_limit(cfg, k, symbols, epsilon());
                assert((names[u] == epsilon()) == (u == 0));
                assert(self.follow@[left as int]@[u] == follow_has(cfg, names[left as int], names[u]));
            }
        }
        row
    }

    /// Computes the FIRST and FOLLOW sets of `grammar`.
    pub fn new(grammar: &Grammar) -> (analysis: Analysis)
        ensures
            analysis.wf(),
            analysis.grammar() == grammar.model(),
    {
        let ghost cfg = grammar.model();
        let numbering = Numbering::new(grammar);
        let (first, Ghost(kf)) = numbering.first_sets(Ghost(cfg));
        let (follow, Ghost(k)) = numbering.follow_sets(&first, Ghost(cfg), Ghost(kf));
        proof {
            let names = numbering.names();
            assert forall|x: int, t: int| 0 <= x < names.len() && 0 <= t < names.len() implies (
            #[trigger] first@[x]@[t]) == first_has(cfg, names[x], names[t]) by {
                lemma_first_limit(cfg, kf, names[x], names[t]);
            }
            assert forall|x: int, t: int| 0 <= x < names.len() && 0 <= t < names.len() implies (
            #[trigger] follow@[x]@[t]) == follow_has(cfg, names[x], names[t]) by {
                lemma_follow_limit(cfg, k, names[x], names[t]);
            }
        }
        Analysis { numbering, first, follow, cfg: Ghost(cfg) }
    }

    /// The names of the symbols that `row` holds.
    fn members(&self, row: &Vec<bool>) -> (set: Vec<String>)
        requires
            self.wf(),
            row@.len() == self.names().len(),
        ensures
            names_of(set@).no_duplicates(),
            forall|t: Seq<char>|
                names_of(set@).contains(t) <==> exists|x: int|
                    0 <= x < row@.len() && row@[x] && #[trigger] self.names()[x] == t,
    {
        let n = self.numbering.size();
        let ghost names = self.names();
        let mut set: Vec<String> = Vec::new();
        let ghost mut from: Seq<int> = Seq::empty();
        let mut x: usize = 0;
        while x < n
            invariant
                x <= n,
                n == names.len(),
                names == self.names(),
                names.no_duplicates(),
                row@.len() == n,
                from.len() == set@.len(),
                forall|i: int|
                    0 <= i < from.len() ==> 0 <= #[trigger] from[i] < x && row@[from[i]] && names_of(
                        set@,
                    )[i] == names[from[i]],
                forall|i: int, j: int| 0 <= i < j < from.len() ==> from[i] < from[j],
                forall|y: int| 0 <= y < x && #[trigger] row@[y] ==> from.contains(y),
            decreases n - x,
        {
            if row[x] {
                let ghost before = names_of(set@);
                let ghost earlier = from;
                set.push(self.numbering.names[x].clone());
                proof {
                    from = from.push(x as int);
                    assert(names[x as int] == self.numbering.names@[x as int]@);
                    assert(names_of(set@) =~= before.push(names[x as int]));
                    assert forall|y: int| 0 <= y < x + 1 && #[trigger] row@[y] implies from.contains(
                        y,
                    ) by {
                        if y < x {
                            assert(earlier.contains(y));
                            let i = choose|i: int| 0 <= i < earlier.len() && earlier[i] == y;
                            assert(from[i] == y);
                        } else {
                            assert(from[earlier.len() as int] == y);
                        }
                    }
                }
            }
            x += 1;
        }
        proof {
            let out = names_of(set@);
            assert(out.no_duplicates()) by {
                assert forall|i: int, j: int| 0 <= i < out.len() && 0 <= j < out.len() && i != j implies out[i]
                    != out[j] by {
                    if i < j {
                        assert(from[i] < from[j]);
                    } else {
                        assert(from[j] < from[i]);
                    }
                }
            }
            assert forall|t: Seq<char>| out.contains(t) <==> exists|x: int|
                0 <= x < row@.len() && row@[x] && #[trigger] names[x] == t by {
                if out.contains(t) {
                    let i = choose|i: int| 0 <= i < out.len() && out[i] == t;
                    assert(row@[from[i]] && names[from[i]] == t);
                }
                if exists|x: int| 0 <= x < row@.len() && row@[x] && #[trigger] names[x] == t {
                    let x = choose|x: int| 0 <= x < row@.len() && row@[x] && #[trigger] names[x] == t;
                    assert(from.contains(x));
                    let i = choose|i: int| 0 <= i < from.len() && from[i] == x;
                    assert(out[i] == t);
                }
            }
        }
        set
    }

    /// The FIRST set of `symbol`.
    pub fn first(&self, symbol: &str) -> (set: Vec<String>)
        requires
            self.wf(),
        ensures
            names_of(set@).no_duplicates(),
            forall|t: Seq<char>|
                names_of(set@).contains(t) <==> first_has(self.grammar(), symbol@, t),
    {
        let text = chars_of(symbol);
        let ghost cfg = self.cfg@;
        let ghost names = self.names();
        match self.numbering.find(&text) {
            Some(x) => {
                let set = self.members(&self.first[x]);
                proof {
                    assert forall|t: Seq<char>| names_of(set@).contains(t) <==> first_has(
                        cfg,
                        symbol@,
                        t,
                    ) by {
                        if first_has(cfg, symbol@, t) {
                            let d = choose|d: nat| in_first(cfg, symbol@, t, d);
                            lemma_first_range(cfg, symbol@, t, d);
                            let ti = self.numbering.number_of(cfg, t);
                            assert(self.first@[x as int]@[ti]);
                        }
                        if names_of(set@).contains(t) {
                            let ti = choose|ti: int|
                                0 <= ti < self.first@[x as int]@.len() && self.first@[x as int]@[ti]
                                    && #[trigger] names[ti] == t;
                            assert(self.first@[x as int]@[ti] == first_has(cfg, names[x as int], names[ti]));
                        }
                    }
                }
                set
            },
            None => {
                let set: Vec<String> = Vec::new();
                proof {
                    assert forall|t: Seq<char>| !first_has(cfg, symbol@, t) by {
                        if first_has(cfg, symbol@, t) {
                            let d = choose|d: nat| in_first(cfg, symbol@, t, d);
                            self.numbering.lemma_named(cfg, symbol@, t, d);
                        }
                    }
                }
                set
            },
        }
    }

    /// The FOLLOW set of `symbol`.
    pub fn follow(&self, symbol: &str) -> (set: Vec<String>)
        requires
            self.wf(),
        ensures
            names_of(set@).no_duplicates(),
            forall|t: Seq<char>|
                names_of(set@).contains(t) <==> follow_has(self.grammar(), symbol@, t),
    {
        let text = chars_of(symbol);
        let ghost cfg = self.cfg@;
        let ghost names = self.names();
        match self.numbering.find(&text) {
            Some(x) => {
                let set = self.members(&self.follow[x]);
                proof {
                    assert forall|t: Seq<char>| names_of(set@).contains(t) <==> follow_has(
                        cfg,
                        symbol@,
                        t,
                    ) by {
                        if follow_has(cfg, symbol@, t) {
                            let d = choose|d: nat| in_follow(cfg, symbol@, t, d);
                            lemma_follow_range(cfg, symbol@, t, d);
                            let ti = self.numbering.number_of(cfg, t);
                            assert(self.follow@[x as int]@[ti]);
                        }
                        if names_of(set@).contains(t) {
                            let ti = choose|ti: int|
                                0 <= ti < self.follow@[x as int]@.len() && self.follow@[x as int]@[ti]
                                    && #[trigger] names[ti] == t;
                            assert(self.follow@[x as int]@[ti] == follow_has(
                                cfg,
                                names[x as int],
                                names[ti],
                            ));
                        }
                    }
                }
                set
            },
            None => {
                let set: Vec<String> = Vec::new();
                proof {
                    assert forall|t: Seq<char>| !follow_has(cfg, symbol@, t) by {
                        if follow_has(cfg, symbol@, t) {
                            let d = choose|d: nat| in_follow(cfg, symbol@, t, d);
                            self.numbering.lemma_followed(cfg, symbol@, t, d);
                        }
                    }
                }
                set
            },
        }
    }
}

impl Numbering {
    /// A symbol with something in its FIRST set has a number.
    proof fn lemma_named(&self, cfg: Cfg, x: Seq<char>, t: Seq<char>, d: nat)
        requires
            self.fits(cfg),
            in_first(cfg, x, t, d),
        ensures
            self.names().contains(x),
    {
        let names = self.names();
        if x == epsilon() {
            assert(names[0] == x);
        } else if cfg.terminals.contains(x) {
            let ti = self.number_of(cfg, x);
        } else {
            let (i, j) = choose|i: int, j: int|
                #![trigger cfg.rules[i].alternatives[j]]
                0 <= i < cfg.rules.len() && 0 <= j < cfg.rules[i].alternatives.len()
                    && cfg.rules[i].lhs == x && in_seq_first(
                    cfg,
                    fields_of(cfg.rules[i].alternatives[j]),
                    t,
                    (d - 1) as nat,
                );
            assert(self.covers(i, j));
            let q = choose|q: int| self.stands_for(q, i, j);
            assert(self.holds(cfg, q));
            assert(names[self.lhs@[q] as int] == x);
        }
    }

    /// A symbol with something in its FOLLOW set has a number.
    proof fn lemma_followed(&self, cfg: Cfg, x: Seq<char>, t: Seq<char>, d: nat)
        requires
            self.fits(cfg),
            in_follow(cfg, x, t, d),
        ensures
            self.names().contains(x),
        decreases d,
    {
        let names = self.names();
        if d == 0 {
            assert(names[self.start as int] == x);
        } else if in_follow(cfg, x, t, (d - 1) as nat) {
            self.lemma_followed(cfg, x, t, (d - 1) as nat);
        } else {
            let (i, j, p) = choose|i: int, j: int, p: int|
                #![trigger fields_of(cfg.rules[i].alternatives[j])[p]]
                0 <= i < cfg.rules.len() && 0 <= j < cfg.rules[i].alternatives.len() && 0 <= p
                    < fields_of(cfg.rules[i].alternatives[j]).len() && fields_of(
                    cfg.rules[i].alternatives[j],
                )[p] == x && follows_at(
                    cfg,
                    cfg.rules[i].lhs,
                    fields_of(cfg.rules[i].alternatives[j]),
                    p,
                    t,
                    (d - 1) as nat,
                );
            assert(self.covers(i, j));
            let q = choose|q: int| self.stands_for(q, i, j);
            assert(self.holds(cfg, q));
            assert(self.rhs@[q]@[p] < names.len());
            assert(names[self.rhs@[q]@[p] as int] == x);
        }
    }
}

impl Grammar {
    /// The FIRST set of `symbol`: the terminals that can begin what `symbol`
    /// derives, and the empty marker if it can derive nothing.
    pub fn first(&self, symbol: &str) -> (set: Vec<String>)
        ensures
            names_of(set@).no_duplicates(),
            forall|t: Seq<char>| names_of(set@).contains(t) <==> first_has(self.model(), symbol@, t),
    {
        let analysis = Analysis::new(self);
        analysis.first(symbol)
    }

    /// The FOLLOW set of `symbol`: the terminals that can stand behind
    /// `symbol`, and the end marker if the input can end behind it.
    pub fn follow(&self, symbol: &str) -> (set: Vec<String>)
        ensures
            names_of(set@).no_duplicates(),
            forall|t: Seq<char>| names_of(set@).contains(t) <==> follow_has(self.model(), symbol@, t),
    {
        let analysis = Analysis::new(self);
        analysis.follow(symbol)
    }
}

} // verus!
