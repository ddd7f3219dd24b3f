use vstd::prelude::*;

verus! {

/// `String::push` appends one character.
pub assume_specification[ std::string::String::push ](s: &mut std::string::String, ch: char)
    ensures
        final(s)@ == old(s)@.push(ch),
;

/// The characters of `s`.
pub fn chars_of(s: &str) -> (v: Vec<char>)
    ensures
        v@ == s@,
{
    let mut v: Vec<char> = Vec::new();
    for c in it: s.chars()
        invariant
            it.seq() == s@,
            v@.len() == it.index(),
            forall|j: int| 0 <= j < v@.len() ==> v@[j] == it.seq()[j],
    {
        v.push(c);
    }
    assert(v@ =~= s@);
    v
}

/// The string made of the characters `v`.
pub fn string_of(v: &Vec<char>) -> (s: String)
    ensures
        s@ == v@,
{
    let mut s = String::new();
    let mut i: usize = 0;
    while i < v.len()
        invariant
            i <= v.len(),
            s@ == v@.take(i as int),
        decreases v.len() - i,
    {
        s.push(v[i]);
        proof {
            assert(v@.take(i + 1) =~= v@.take(i as int).push(v@[i as int]));
        }
        i += 1;
    }
    proof {
        assert(v@.take(i as int) =~= v@);
    }
    s
}

/// Appends the characters `v` to `s`.
pub fn append_chars(s: &mut String, v: &Vec<char>)
    ensures
        final(s)@ == old(s)@ + v@,
{
    let mut i: usize = 0;
    proof {
        assert(old(s)@ + v@.take(0) =~= old(s)@);
    }
    while i < v.len()
        invariant
            i <= v.len(),
            s@ == old(s)@ + v@.take(i as int),
        decreases v.len() - i,
    {
        s.push(v[i]);
        proof {
            assert(v@.take(i + 1) =~= v@.take(i as int).push(v@[i as int]));
            assert(old(s)@ + v@.take(i + 1) =~= (old(s)@ + v@.take(i as int)).push(v@[i as int]));
        }
        i += 1;
    }
    proof {
        assert(v@.take(i as int) =~= v@);
    }
}

/// Appends the decimal digits of `n` to `s`.
pub fn append_number(s: &mut String, n: usize)
    ensures
        final(s)@ == old(s)@ + decimal(n as nat),
{
    let digits = number_text(n);
    append_chars(s, &digits);
}

/// The characters `v[from..to]`.
pub fn slice_of(v: &Vec<char>, from: usize, to: usize) -> (part: Vec<char>)
    requires
        from <= to <= v.len(),
    ensures
        part@ == v@.subrange(from as int, to as int),
{
    let mut part: Vec<char> = Vec::new();
    let mut i: usize = from;
    while i < to
        invariant
            from <= i <= to,
            to <= v.len(),
            part@ == v@.subrange(from as int, i as int),
        decreases to - i,
    {
        part.push(v[i]);
        proof {
            assert(v@.subrange(from as int, i + 1) =~= v@.subrange(from as int, i as int).push(
                v@[i as int],
            ));
        }
        i += 1;
    }
    part
}

/// Whether two texts are the same.
pub fn same_text(a: &Vec<char>, b: &Vec<char>) -> (same: bool)
    ensures
        same == (a@ == b@),
{
    if a.len() != b.len() {
        return false;
    }
    let mut i: usize = 0;
    while i < a.len()
        invariant
            i <= a.len(),
            a.len() == b.len(),
            forall|j: int| 0 <= j < i ==> a@[j] == b@[j],
        decreases a.len() - i,
    {
        if a[i] != b[i] {
            return false;
        }
        i += 1;
    }
    proof {
        assert(a@ =~= b@);
    }
    true
}

/// The white space of Unicode: what separates the fields of a line.
pub open spec fn is_space(c: char) -> bool {
    let u = c as u32;
    ||| 0x09 <= u <= 0x0d
    ||| u == 0x20
    ||| u == 0x85
    ||| u == 0xa0
    ||| u == 0x1680
    ||| 0x2000 <= u <= 0x200a
    ||| u == 0x2028
    ||| u == 0x2029
    ||| u == 0x202f
    ||| u == 0x205f
    ||| u == 0x3000
}

/// Whether `c` is white space.
pub fn is_whitespace(c: char) -> (b: bool)
    ensures
        b == is_space(c),
{
    let u: u32 = c as u32;
    (0x09 <= u && u <= 0x0d) || u == 0x20 || u == 0x85 || u == 0xa0 || u == 0x1680 || (0x2000 <= u
        && u <= 0x200a) || u == 0x2028 || u == 0x2029 || u == 0x202f || u == 0x205f || u == 0x3000
}

/// An ASCII digit.
pub open spec fn is_digit(c: char) -> bool {
    '0' <= c <= '9'
}

/// Whether `c` is an ASCII digit.
pub fn is_ascii_digit(c: char) -> (b: bool)
    ensures
        b == is_digit(c),
{
    '0' <= c && c <= '9'
}

/// The texts that the vectors `v` hold.
pub open spec fn texts(v: Seq<Vec<char>>) -> Seq<Seq<char>> {
    Seq::new(v.len(), |i: int| v[i]@)
}

/// The end of the line that holds position `from`: the position of the next
/// line feed, or the end of the text.
pub open spec fn line_end(s: Seq<char>, from: int) -> int
    decreases s.len() - from,
{
    if from >= s.len() {
        s.len() as int
    } else if s[from] == '\n' {
        from
    } else {
        line_end(s, from + 1)
    }
}

/// The line `s[from..end]` without the carriage return that stands before
/// its line feed, if it ends in a line feed and has one.
pub open spec fn line_text(s: Seq<char>, from: int, end: int) -> Seq<char> {
    if end < s.len() && from < end && s[end - 1] == '\r' {
        s.subrange(from, end - 1)
    } else {
        s.subrange(from, end)
    }
}

/// The lines of `s` from position `from` on. A line ends at a line feed, or
/// at a carriage return and a line feed, or at the end of the text; after the
/// last line feed no empty line follows.
pub open spec fn lines_from(s: Seq<char>, from: int) -> Seq<Seq<char>>
    decreases s.len() - from,
{
    if from < 0 || from >= s.len() {
        Seq::empty()
    } else {
        let end = line_end(s, from);
        if from <= end < s.len() {
            seq![line_text(s, from, end)] + lines_from(s, end + 1)
        } else {
            seq![line_text(s, from, end)]
        }
    }
}

/// The lines of `s`.
pub open spec fn lines_of(s: Seq<char>) -> Seq<Seq<char>> {
    lines_from(s, 0)
}

/// A line ends within the text, at its first line feed.
pub proof fn lemma_line_end(s: Seq<char>, from: int)
    requires
        0 <= from <= s.len(),
    ensures
        from <= line_end(s, from) <= s.len(),
        line_end(s, from) < s.len() ==> s[line_end(s, from)] == '\n',
        forall|i: int| from <= i < line_end(s, from) ==> s[i] != '\n',
    decreases s.len() - from,
{
    if from < s.len() && s[from] != '\n' {
        lemma_line_end(s, from + 1);
    }
}

/// Splits a text into its lines.
pub fn split_lines(text: &Vec<char>) -> (lines: Vec<Vec<char>>)
    ensures
        texts(lines@) == lines_of(text@),
{
    let mut lines: Vec<Vec<char>> = Vec::new();
    let mut from: usize = 0;
    let len = text.len();
    while from < len
        invariant
            len == text.len(),
            from <= len,
            lines_of(text@) == texts(lines@) + lines_from(text@, from as int),
        decreases len - from,
    {
        let mut end = from;
        while end < len && text[end] != '\n'
            invariant
                len == text.len(),
                from <= end <= len,
                line_end(text@, from as int) == line_end(text@, end as int),
            decreases len - end,
        {
            end += 1;
        }
        proof {
            lemma_line_end(text@, from as int);
        }
        let stop = if end < len && from < end && text[end - 1] == '\r' {
            end - 1
        } else {
            end
        };
        let line = slice_of(text, from, stop);
        let ghost before = texts(lines@);
        lines.push(line);
        proof {
            let l = line_text(text@, from as int, end as int);
            assert(texts(lines@) =~= before.push(l));
            if end < len {
                assert(before + (seq![l] + lines_from(text@, end + 1)) =~= before.push(l)
                    + lines_from(text@, end + 1));
            } else {
                assert(before + seq![l] =~= before.push(l) + lines_from(text@, len as int));
            }
        }
        if end == len {
            from = len;
        } else {
            from = end + 1;
        }
    }
    proof {
        assert(texts(lines@) + Seq::<Seq<char>>::empty() =~= texts(lines@));
    }
    lines
}

/// The first position at or after `from` that holds no white space.
pub open spec fn field_start(s: Seq<char>, from: int) -> int
    decreases s.len() - from,
{
    if from >= s.len() {
        s.len() as int
    } else if !is_space(s[from]) {
        from
    } else {
        field_start(s, from + 1)
    }
}

/// The first position at or after `from` that holds white space.
pub open spec fn field_end(s: Seq<char>, from: int) -> int
    decreases s.len() - from,
{
    if from >= s.len() {
        s.len() as int
    } else if is_space(s[from]) {
        from
    } else {
        field_end(s, from + 1)
    }
}

/// The fields of `s` from position `from` on: the longest runs of characters
/// that are not white space.
pub open spec fn fields_from(s: Seq<char>, from: int) -> Seq<Seq<char>>
    decreases s.len() - from,
{
    if from < 0 {
        Seq::empty()
    } else {
        let start = field_start(s, from);
        let end = field_end(s, start);
        if from <= start < end <= s.len() {
            seq![s.subrange(start, end)] + fields_from(s, end)
        } else {
            Seq::empty()
        }
    }
}

/// The fields of `s`.
pub open spec fn fields_of(s: Seq<char>) -> Seq<Seq<char>> {
    fields_from(s, 0)
}

/// Splits a line into its fields.
pub fn split_whitespace(line: &Vec<char>) -> (fields: Vec<Vec<char>>)
    ensures
        texts(fields@) == fields_of(line@),
{
    let mut fields: Vec<Vec<char>> = Vec::new();
    let mut from: usize = 0;
    let len = line.len();
    loop
        invariant
            len == line.len(),
            from <= len,
            fields_of(line@) == texts(fields@) + fields_from(line@, from as int),
        ensures
            texts(fields@) == fields_of(line@),
        decreases len - from,
    {
        let mut start = from;
        while start < len && is_whitespace(line[start])
            invariant
                len == line.len(),
                from <= start <= len,
                field_start(line@, from as int) == field_start(line@, start as int),
            decreases len - start,
        {
            start += 1;
        }
        let mut end = start;
        while end < len && !is_whitespace(line[end])
            invariant
                len == line.len(),
                start <= end <= len,
                field_end(line@, start as int) == field_end(line@, end as int),
            decreases len - end,
        {
            end += 1;
        }
        if start == end {
            proof {
                assert(texts(fields@) + Seq::<Seq<char>>::empty() =~= texts(fields@));
            }
            break ;
        }
        let field = slice_of(line, start, end);
        let ghost before = texts(fields@);
        fields.push(field);
        proof {
            let f = line@.subrange(start as int, end as int);
            assert(texts(fields@) =~= before.push(f));
            assert(before + (seq![f] + fields_from(line@, end as int)) =~= before.push(f)
                + fields_from(line@, end as int));
        }
        from = end;
    }
    fields
}

/// Why a text is not a number.
#[derive(Clone, Copy, Debug, PartialEq, Eq, Structural)]
pub enum IntError {
    /// The text is empty.
    Empty,
    /// The text holds a character that is no digit, or no digit at all.
    InvalidDigit,
    /// The number does not fit.
    PosOverflow,
}

/// The value of a digit.
pub open spec fn digit_value(c: char) -> nat {
    (c as u32 - 0x30) as nat
}

/// The number that the digits `s` add to `acc`, read left to right.
pub open spec fn number_from(s: Seq<char>, acc: nat) -> Result<nat, IntError>
    decreases s.len(),
{
    if s.len() == 0 {
        Ok(acc)
    } else if !is_digit(s[0]) {
        Err(IntError::InvalidDigit)
    } else if acc * 10 + digit_value(s[0]) > usize::MAX {
        Err(IntError::PosOverflow)
    } else {
        number_from(s.drop_first(), acc * 10 + digit_value(s[0]))
    }
}

/// The number that `s` denotes: decimal digits, after an optional `+`.
pub open spec fn number_of(s: Seq<char>) -> Result<nat, IntError> {
    if s.len() == 0 {
        Err(IntError::Empty)
    } else if s.len() == 1 && (s[0] == '+' || s[0] == '-') {
        Err(IntError::InvalidDigit)
    } else if s[0] == '+' {
        number_from(s.drop_first(), 0)
    } else {
        number_from(s, 0)
    }
}

impl IntError {
    /// The error in words.
    pub open spec fn text(self) -> Seq<char> {
        match self {
            IntError::Empty => "cannot parse integer from empty string"@,
            IntError::InvalidDigit => "invalid digit found in string"@,
            IntError::PosOverflow => "number too large to fit in target type"@,
        }
    }

    /// The error in words.
    pub fn describe(&self) -> (s: &'static str)
        ensures
            s@ == self.text(),
    {
        match self {
            IntError::Empty => "cannot parse integer from empty string",
            IntError::InvalidDigit => "invalid digit found in string",
            IntError::PosOverflow => "number too large to fit in target type",
        }
    }
}

/// Reads a non-negative decimal number.
pub fn parse_usize(s: &Vec<char>) -> (r: Result<usize, IntError>)
    ensures
        match r {
            Ok(n) => number_of(s@) == Ok::<nat, IntError>(n as nat),
            Err(e) => number_of(s@) == Err::<nat, IntError>(e),
        },
{
    let len = s.len();
    if len == 0 {
        return Err(IntError::Empty);
    }
    if len == 1 && (s[0] == '+' || s[0] == '-') {
        return Err(IntError::InvalidDigit);
    }
    let first: usize = if s[0] == '+' {
        1
    } else {
        0
    };
    let ghost digits = s@.skip(first as int);
    proof {
        assert(s@.drop_first() =~= s@.skip(1));
        assert(s@.skip(0) =~= s@);
    }
    let mut i: usize = first;
    let mut acc: usize = 0;
    while i < len
        invariant
            len == s.len(),
            first <= i <= len,
            number_of(s@) == number_from(s@.skip(i as int), acc as nat),
        decreases len - i,
    {
        let c = s[i];
        let ghost rest = s@.skip(i as int);
        proof {
            assert(rest[0] == c);
            assert(rest.drop_first() =~= s@.skip(i + 1));
        }
        if !is_ascii_digit(c) {
            return Err(IntError::InvalidDigit);
        }
        let d: usize = (c as u32 - 0x30) as usize;
        if acc > usize::MAX / 10 {
            proof {
                assert(acc * 10 + d > usize::MAX) by (nonlinear_arith)
                    requires
                        acc > usize::MAX / 10,
                        d >= 0,
                ;
            }
            return Err(IntError::PosOverflow);
        }
        let tens: usize = acc * 10;
        if tens > usize::MAX - d {
            return Err(IntError::PosOverflow);
        }
        acc = tens + d;
        i += 1;
    }
    Ok(acc)
}

/// The decimal digits of `n`, without leading zeros.
pub open spec fn decimal(n: nat) -> Seq<char>
    decreases n,
{
    if n < 10 {
        seq![(0x30 + n) as u8 as char]
    } else {
        decimal(n / 10).push((0x30 + n % 10) as u8 as char)
    }
}

/// The decimal digits of `n`.
pub fn number_text(n: usize) -> (digits: Vec<char>)
    ensures
        digits@ == decimal(n as nat),
    decreases n,
{
    let last: u8 = 0x30 + (n % 10) as u8;
    if n < 10 {
        let mut digits: Vec<char> = Vec::new();
        digits.push(last as char);
        assert(digits@ =~= seq![last as char]);
        digits
    } else {
        let mut digits = number_text(n / 10);
        digits.push(last as char);
        digits
    }
}

} // verus!
