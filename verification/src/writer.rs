use crate::table::Table;
use crate::text::{append_number, decimal};
use crate::token::{Token, TokenView};
use vstd::prelude::*;

verus! {

/// A number in a field two characters wide: a number below ten stands behind
/// a space.
pub open spec fn padded(n: nat) -> Seq<char> {
    if n < 10 {
        " "@ + decimal(n)
    } else {
        decimal(n)
    }
}

/// A token as a pair: the number of its kind and its position.
pub open spec fn pair_text(t: TokenView) -> Seq<char> {
    "("@ + padded(t.kind.index() as nat) + ", "@ + padded(t.position as nat) + ")"@
}

/// The tokens as pairs, one per line.
pub open spec fn token_lines(tokens: Seq<TokenView>) -> Seq<char>
    decreases tokens.len(),
{
    if tokens.len() == 0 {
        Seq::empty()
    } else if tokens.len() == 1 {
        pair_text(tokens[0])
    } else {
        token_lines(tokens.drop_last()) + "\n"@ + pair_text(tokens.last())
    }
}

/// The entries of a table, one per line: the name, then its index.
pub open spec fn table_lines(entries: Seq<(usize, String)>) -> Seq<char>
    decreases entries.len(),
{
    if entries.len() == 0 {
        Seq::empty()
    } else {
        table_lines(entries.drop_last()) + "K: "@ + entries.last().1@ + ", V: "@ + decimal(
            entries.last().0 as nat,
        ) + "\n"@
    }
}

/// The report of a scan: the token list and its size, the table of
/// identifiers and its size, the table of constants and its size, and the
/// status line.
pub open spec fn report_text(
    result: Seq<char>,
    tokens: Seq<TokenView>,
    identifiers: Seq<(usize, String)>,
    constants: Seq<(usize, String)>,
) -> Seq<char> {
    "Token list:\n"@ + token_lines(tokens) + "\nToken list size: "@ + decimal(tokens.len())
        + "\n\nIdentifier table:\n"@ + table_lines(identifiers) + "Identifier table size: "@
        + decimal(identifiers.len()) + "\n\nConstant table:\n"@ + table_lines(constants)
        + "Constant table size: "@ + decimal(constants.len()) + "\n\n"@ + result + "\n"@
}

/// Appends `n` in a field two characters wide.
fn append_padded(out: &mut String, n: usize)
    ensures
        final(out)@ == old(out)@ + padded(n as nat),
{
    if n < 10 {
        out.append(" ");
    }
    append_number(out, n);
    proof {
        if n < 10 {
            assert(old(out)@ + " "@ + decimal(n as nat) =~= old(out)@ + (" "@ + decimal(n as nat)));
        }
    }
}

/// Appends the entries of `table`, one per line.
fn append_table(out: &mut String, table: &Table<String>)
    requires
        table.wf(),
    ensures
        final(out)@ == old(out)@ + table_lines(table.entries()),
{
    let ghost entries = table.entries();
    let ghost mut done: int = 0;
    let mut it = table.iter();
    proof {
        assert(entries.skip(0) =~= entries);
        assert(old(out)@ + table_lines(entries.take(0)) =~= old(out)@);
    }
    proof {
        table.lemma_entries();
        table.lemma_indices();
    }
    loop
        invariant
            0 <= done <= entries.len(),
            it.remaining() == entries.skip(done),
            out@ == old(out)@ + table_lines(entries.take(done)),
        ensures
            out@ == old(out)@ + table_lines(entries),
        decreases entries.len() - done,
    {
        match it.next() {
            Some((index, name)) => {
                let ghost before = out@;
                out.append("K: ");
                out.append(name.as_str());
                out.append(", V: ");
                append_number(out, *index);
                out.append("\n");
                proof {
                    let e = entries[done];
                    assert(entries.skip(done)[0] == e);
                    assert(entries.skip(done).drop_first() =~= entries.skip(done + 1));
                    assert(entries.take(done + 1).drop_last() =~= entries.take(done));
                    assert(entries.take(done + 1).last() == e);
                    assert(out@ =~= old(out)@ + table_lines(entries.take(done + 1)));
                    done = done + 1;
                }
            },
            None => {
                proof {
                    assert(entries.take(done) =~= entries);
                }
                break ;
            },
        }
    }
}

/// The report of a scan as a text.
pub fn write_scan_result(
    result: &str,
    token_list: &Vec<Token>,
    identifier_table: &Table<String>,
    constant_table: &Table<String>,
) -> (output: String)
    requires
        identifier_table.wf(),
        constant_table.wf(),
    ensures
        output@ == report_text(
            result@,
            Seq::new(token_list@.len(), |i: int| token_list@[i]@),
            identifier_table.entries(),
            constant_table.entries(),
        ),
{
    let ghost tokens = Seq::new(token_list@.len(), |i: int| token_list@[i]@);
    let mut output = String::from_str("Token list:\n");
    let mut i: usize = 0;
    proof {
        assert(output@ + token_lines(tokens.take(0)) =~= output@);
    }
    while i < token_list.len()
        invariant
            i <= token_list.len(),
            tokens == Seq::new(token_list@.len(), |i: int| token_list@[i]@),
            output@ == "Token list:\n"@ + token_lines(tokens.take(i as int)),
        decreases token_list.len() - i,
    {
        let ghost before = output@;
        if i > 0 {
            output.append("\n");
        }
        output.append("(");
        append_padded(&mut output, token_list[i].key());
        output.append(", ");
        append_padded(&mut output, token_list[i].value());
        output.append(")");
        proof {
            let t = tokens[i as int];
            assert(tokens.take(i + 1).drop_last() =~= tokens.take(i as int));
            assert(tokens.take(i + 1).last() == t);
            let pair = pair_text(t);
            assert("("@ + padded(t.kind.index() as nat) + ", "@ + padded(t.position as nat) + ")"@
                == pair);
            if i > 0 {
                assert(output@ =~= before + "\n"@ + pair);
                assert(before + "\n"@ + pair =~= "Token list:\n"@ + (token_lines(
                    tokens.take(i as int),
                ) + "\n"@ + pair));
            } else {
                assert(output@ =~= before + pair);
                assert(token_lines(tokens.take(0)) =~= Seq::<char>::empty());
                assert(before + pair =~= "Token list:\n"@ + pair);
            }
        }
        i += 1;
    }
    proof {
        assert(tokens.take(i as int) =~= tokens);
        identifier_table.lemma_entries();
    }
    output.append("\nToken list size: ");
    append_number(&mut output, token_list.len());
    output.append("\n\nIdentifier table:\n");
    append_table(&mut output, identifier_table);
    output.append("Identifier table size: ");
    let identifiers = identifier_table.len();
    proof {
        identifier_table.lemma_entry_count();
        constant_table.lemma_entry_count();
    }
    append_number(&mut output, identifiers);
    output.append("\n\nConstant table:\n");
    append_table(&mut output, constant_table);
    output.append("Constant table size: ");
    append_number(&mut output, constant_table.len());
    output.append("\n\n");
    output.append(result);
    output.append("\n");
    output
}

} // verus!
