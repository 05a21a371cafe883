use vstd::prelude::*;
use crate::decode::EncodingTables;

verus! {

/// The columns of an encoding table row that give byte codes, in order:
/// Standard, MacRoman, WinAnsi, PDFDoc and Symbol.
pub const CODE_COLUMNS: usize = 5;

/// A row of the encoding table: a character, its glyph name, and its code
/// in each encoding's column, where it has one.
#[derive(Debug, Clone)]
pub struct EncodingRow {
    pub character: char,
    pub name: String,
    pub codes: Vec<Option<u8>>,
}

#[derive(Debug, Clone, Copy, PartialEq, Eq)]
pub enum TableError {
    /// The character field is neither one character nor `U+` and a scalar value in hex.
    BadCharacter,
    /// A code field is neither `-` nor an octal number below 256.
    BadCode,
}

/// Whether a Unicode code point is a scalar value (not a surrogate, not beyond the range).
pub open spec fn is_scalar_value(v: int) -> bool {
    (0 <= v < 0xd800) || (0xe000 <= v <= 0x10ffff)
}

/// Relies on `char::from_u32`: the character with code point `v`, where `v` is a scalar value.
#[verifier::external_body]
fn char_from_u32(v: u32) -> (r: Option<char>)
    ensures
        r is Some <==> is_scalar_value(v as int),
        r matches Some(c) ==> c as int == v as int,
{
    char::from_u32(v)
}

/// The pieces of `s` between occurrences of `sep`; there is always at least one.
pub open spec fn split_on(s: Seq<char>, sep: char) -> Seq<Seq<char>>
    decreases s.len(),
{
    if s.len() == 0 {
        seq![Seq::empty()]
    } else {
        let prev = split_on(s.drop_last(), sep);
        if s.last() == sep {
            prev.push(Seq::empty())
        } else {
            prev.update(prev.len() - 1, prev.last().push(s.last()))
        }
    }
}

proof fn lemma_split_nonempty(s: Seq<char>, sep: char)
    ensures
        split_on(s, sep).len() > 0,
    decreases s.len(),
{
    if s.len() > 0 {
        lemma_split_nonempty(s.drop_last(), sep);
    }
}

pub open spec fn views(v: Seq<Vec<char>>) -> Seq<Seq<char>> {
    v.map_values(|x: Vec<char>| x@)
}

/// Splits `s` at every `sep`.
pub fn split_chars(s: &Vec<char>, sep: char) -> (r: Vec<Vec<char>>)
    ensures
        views(r@) == split_on(s@, sep),
{
    let mut done: Vec<Vec<char>> = Vec::new();
    let mut cur: Vec<char> = Vec::new();
    let mut i: usize = 0;
    assert(s@.take(0) =~= Seq::<char>::empty());
    assert(views(done@).push(cur@) =~= split_on(s@.take(0), sep));
    while i < s.len()
        invariant
            i <= s.len(),
            views(done@).push(cur@) == split_on(s@.take(i as int), sep),
        decreases s.len() - i,
    {
        proof {
            assert(s@.take(i + 1).drop_last() =~= s@.take(i as int));
            assert(s@.take(i + 1).last() == s@[i as int]);
        }
        let c = s[i];
        if c == sep {
            let full = cur;
            done.push(full);
            cur = Vec::new();
            assert(views(done@).push(cur@) =~= split_on(s@.take(i + 1), sep));
        } else {
            cur.push(c);
            assert(views(done@).push(cur@) =~= split_on(s@.take(i + 1), sep));
        }
        i = i + 1;
    }
    assert(s@.take(s@.len() as int) =~= s@);
    done.push(cur);
    assert(views(done@) =~= split_on(s@, sep));
    done
}

/// `s` without its trailing carriage returns.
pub open spec fn trim_cr(s: Seq<char>) -> Seq<char>
    decreases s.len(),
{
    if s.len() > 0 && s.last() == '\r' {
        trim_cr(s.drop_last())
    } else {
        s
    }
}

pub open spec fn is_octal_digit(c: char) -> bool {
    '0' <= c <= '7'
}

pub open spec fn hex_digit_value(c: char) -> Option<int> {
    if '0' <= c <= '9' {
        Some(c as int - '0' as int)
    } else if 'a' <= c <= 'f' {
        Some(c as int - 'a' as int + 10)
    } else if 'A' <= c <= 'F' {
        Some(c as int - 'A' as int + 10)
    } else {
        None
    }
}

/// The value of a string of octal digits, where it is one.
pub open spec fn octal_value(d: Seq<char>) -> Option<int>
    decreases d.len(),
{
    if d.len() == 0 {
        Some(0)
    } else if !is_octal_digit(d.last()) {
        None
    } else {
        match octal_value(d.drop_last()) {
            Some(v) => Some(8 * v + (d.last() as int - '0' as int)),
            None => None,
        }
    }
}

/// The value of a string of hex digits, where it is one.
pub open spec fn hex_value(d: Seq<char>) -> Option<int>
    decreases d.len(),
{
    if d.len() == 0 {
        Some(0)
    } else {
        match (hex_value(d.drop_last()), hex_digit_value(d.last())) {
            (Some(v), Some(x)) => Some(16 * v + x),
            _ => None,
        }
    }
}

/// A code field: `-` for none, else a nonempty octal number below 256.
pub open spec fn code_field(f: Seq<char>) -> Option<Option<u8>> {
    if f == seq!['-'] {
        Some(None)
    } else if f.len() > 0 && octal_value(f) is Some && octal_value(f)->Some_0 < 256 {
        Some(Some(octal_value(f)->Some_0 as u8))
    } else {
        None
    }
}

/// The code point of a character field: `U+` and a scalar value in hex, or a single character.
pub open spec fn character_field(f: Seq<char>) -> Option<int> {
    if f.len() >= 2 && f[0] == 'U' && f[1] == '+' {
        let d = f.subrange(2, f.len() as int);
        if d.len() > 0 && hex_value(d) is Some && is_scalar_value(hex_value(d)->Some_0) {
            Some(hex_value(d)->Some_0)
        } else {
            None
        }
    } else if f.len() == 1 {
        Some(f[0] as int)
    } else {
        None
    }
}

/// Reads an octal code field.
fn parse_code(f: &Vec<char>) -> (r: Option<Option<u8>>)
    ensures
        r == code_field(f@),
{
    if f.len() == 1 && f[0] == '-' {
        assert(f@ =~= seq!['-']);
        return Some(None);
    }
    assert(f@ != seq!['-']);
    if f.len() == 0 {
        return None;
    }
    let mut v: u32 = 0;
    let mut i: usize = 0;
    // the value so far, held at 256 once it is too large for a byte
    while i < f.len()
        invariant
            i <= f.len(),
            f@ != seq!['-'],
            f@.len() > 0,
            octal_value(f@.take(i as int)) matches Some(x) && (if x < 256 { v as int == x } else { v == 256 }),
        decreases f.len() - i,
    {
        proof {
            assert(f@.take(i + 1).drop_last() =~= f@.take(i as int));
            assert(f@.take(i + 1).last() == f@[i as int]);
        }
        let c = f[i];
        if !('0' <= c && c <= '7') {
            proof {
                lemma_octal_fail_onwards(f@, (i + 1) as nat);
            }
            return None;
        }
        let d = (c as u32) - ('0' as u32);
        if v >= 256 {
            v = 256;
        } else {
            let n = v * 8 + d;
            v = if n >= 256 { 256 } else { n };
        }
        proof {
            let x = octal_value(f@.take(i as int))->Some_0;
            assert(x >= 0) by {
                lemma_octal_nonneg(f@.take(i as int));
            }
        }
        i = i + 1;
    }
    assert(f@.take(f@.len() as int) =~= f@);
    if v >= 256 {
        None
    } else {
        Some(Some(v as u8))
    }
}

proof fn lemma_octal_nonneg(d: Seq<char>)
    requires
        octal_value(d) is Some,
    ensures
        octal_value(d)->Some_0 >= 0,
    decreases d.len(),
{
    if d.len() > 0 {
        lemma_octal_nonneg(d.drop_last());
    }
}

proof fn lemma_octal_fail_onwards(f: Seq<char>, i: nat)
    requires
        i <= f.len(),
        octal_value(f.take(i as int)) is None,
    ensures
        octal_value(f) is None,
    decreases f.len() - i,
{
    if i < f.len() {
        assert(f.take(i + 1int).drop_last() =~= f.take(i as int));
        lemma_octal_fail_onwards(f, i + 1);
    } else {
        assert(f.take(i as int) =~= f);
    }
}

proof fn lemma_hex_fail_onwards(f: Seq<char>, i: nat)
    requires
        i <= f.len(),
        hex_value(f.take(i as int)) is None,
    ensures
        hex_value(f) is None,
    decreases f.len() - i,
{
    if i < f.len() {
        assert(f.take(i + 1int).drop_last() =~= f.take(i as int));
        lemma_hex_fail_onwards(f, i + 1);
    } else {
        assert(f.take(i as int) =~= f);
    }
}

proof fn lemma_hex_nonneg(d: Seq<char>)
    requires
        hex_value(d) is Some,
    ensures
        hex_value(d)->Some_0 >= 0,
    decreases d.len(),
{
    if d.len() > 0 {
        lemma_hex_nonneg(d.drop_last());
    }
}

/// Reads a character field.
fn parse_character(f: &Vec<char>) -> (r: Option<char>)
    ensures
        r is Some <==> character_field(f@) is Some,
        r matches Some(c) ==> c as int == character_field(f@)->Some_0,
{
    if f.len() >= 2 && f[0] == 'U' && f[1] == '+' {
        let ghost d = f@.subrange(2, f@.len() as int);
        if f.len() == 2 {
            return None;
        }
        // the value so far, held at 0x110000 once it is beyond every code point
        let mut v: u32 = 0;
        let mut i: usize = 2;
        while i < f.len()
            invariant
                2 <= i <= f.len(),
                d == f@.subrange(2, f@.len() as int),
                hex_value(f@.subrange(2, i as int)) matches Some(x) && (if x < 0x110000 { v as int == x } else { v == 0x110000 }),
            decreases f.len() - i,
        {
            proof {
                assert(f@.subrange(2, i + 1).drop_last() =~= f@.subrange(2, i as int));
                assert(f@.subrange(2, i + 1).last() == f@[i as int]);
            }
            let c = f[i];
            let x: u32 = if '0' <= c && c <= '9' {
                (c as u32) - ('0' as u32)
            } else if 'a' <= c && c <= 'f' {
                (c as u32) - ('a' as u32) + 10
            } else if 'A' <= c && c <= 'F' {
                (c as u32) - ('A' as u32) + 10
            } else {
                proof {
                    assert(d.take(i - 1) =~= f@.subrange(2, i + 1));
                    lemma_hex_fail_onwards(d, (i - 1) as nat);
                }
                return None;
            };
            proof {
                lemma_hex_nonneg(f@.subrange(2, i as int));
            }
            if v >= 0x110000 {
                v = 0x110000;
            } else {
                let n = v * 16 + x;
                v = if n >= 0x110000 { 0x110000 } else { n };
            }
            i = i + 1;
        }
        assert(f@.subrange(2, f@.len() as int) == d);
        if v >= 0x110000 {
            return None;
        }
        let r = char_from_u32(v);
        r
    } else if f.len() == 1 {
        Some(f[0])
    } else {
        None
    }
}

/// The model of a table row: code point, glyph name, codes per column.
pub type RowModel = (int, Seq<char>, Seq<Option<u8>>);

/// The fields of a line: split at tabs after trailing carriage returns are dropped.
pub open spec fn line_fields(line: Seq<char>) -> Seq<Seq<char>> {
    split_on(trim_cr(line), '\t')
}

pub open spec fn is_comment(f: Seq<char>) -> bool {
    f.len() >= 2 && f[0] == '#' && f[1] == '#'
}

/// The codes of the five code columns (fields 2 to 6), where each is well formed.
pub open spec fn codes_of(p: Seq<Seq<char>>) -> Option<Seq<Option<u8>>> {
    if forall|k: int| 2 <= k < 7 ==> #[trigger] code_field(p[k]) is Some {
        Some(Seq::new(5, |k: int| code_field(p[k + 2])->Some_0))
    } else {
        None
    }
}

/// What a line of the encoding table holds: no row where it has other than
/// seven fields or is a comment (`##`), else a row or the first error in it.
pub open spec fn line_row(line: Seq<char>) -> Result<Option<RowModel>, TableError> {
    let p = line_fields(line);
    if p.len() != 7 || is_comment(p[0]) {
        Ok(None)
    } else {
        match character_field(p[0]) {
            None => Err(TableError::BadCharacter),
            Some(cp) => match codes_of(p) {
                None => Err(TableError::BadCode),
                Some(codes) => Ok(Some((cp, p[1], codes))),
            },
        }
    }
}

/// Drops trailing carriage returns.
fn trim_trailing_cr(line: &Vec<char>) -> (r: Vec<char>)
    ensures
        r@ == trim_cr(line@),
{
    let mut n: usize = line.len();
    assert(line@.take(n as int) =~= line@);
    while n > 0 && line[n - 1] == '\r'
        invariant
            n <= line.len(),
            trim_cr(line@) == trim_cr(line@.take(n as int)),
        decreases n,
    {
        proof {
            assert(line@.take(n as int).drop_last() =~= line@.take(n - 1));
        }
        n = n - 1;
    }
    let mut r: Vec<char> = Vec::new();
    let mut i: usize = 0;
    while i < n
        invariant
            i <= n <= line.len(),
            r@ == line@.take(i as int),
        decreases n - i,
    {
        r.push(line[i]);
        i = i + 1;
        assert(r@ =~= line@.take(i as int));
    }
    assert(n == 0 || line@.take(n as int).last() != '\r');
    r
}

/// Reads one line of the encoding table.
pub fn parse_line(line: &Vec<char>) -> (r: Result<Option<EncodingRow>, TableError>)
    ensures
        match line_row(line@) {
            Err(e) => r == Err::<Option<EncodingRow>, TableError>(e),
            Ok(None) => r matches Ok(None),
            Ok(Some(m)) => r matches Ok(Some(row)) && row.character as int == m.0 && row.name@ == m.1
                && row.codes@ == m.2,
        },
{
    let trimmed = trim_trailing_cr(line);
    let p = split_chars(&trimmed, '\t');
    let ghost pv = views(p@);
    assert(pv == line_fields(line@));
    if p.len() != 7 {
        return Ok(None);
    }
    assert(pv[0] == p@[0]@);
    if p[0].len() >= 2 && p[0][0] == '#' && p[0][1] == '#' {
        return Ok(None);
    }
    let character = match parse_character(&p[0]) {
        Some(c) => c,
        None => return Err(TableError::BadCharacter),
    };
    let mut codes: Vec<Option<u8>> = Vec::new();
    let mut k: usize = 2;
    while k < 7
        invariant
            2 <= k <= 7,
            p@.len() == 7,
            pv == views(p@),
            pv == line_fields(line@),
            !is_comment(pv[0]),
            character_field(pv[0]) is Some,
            character as int == character_field(pv[0])->Some_0,
            codes@.len() == k - 2,
            forall|j: int| 2 <= j < k ==> #[trigger] code_field(pv[j]) is Some && codes@[j - 2] == code_field(pv[j])->Some_0,
        decreases 7 - k,
    {
        assert(pv[k as int] == p@[k as int]@);
        match parse_code(&p[k]) {
            Some(c) => codes.push(c),
            None => {
                assert(!(code_field(pv[k as int]) is Some));
                assert(codes_of(pv) is None);
                return Err(TableError::BadCode);
            },
        }
        k = k + 1;
    }
    assert(codes@ =~= Seq::new(5, |j: int| code_field(pv[j + 2])->Some_0));
    assert(codes_of(pv) is Some);
    let mut name: Vec<char> = Vec::new();
    let mut i: usize = 0;
    while i < p[1].len()
        invariant
            i <= p@[1]@.len(),
            name@ == p@[1]@.take(i as int),
            codes@ == codes_of(pv)->Some_0,
            codes_of(pv) is Some,
            p@.len() == 7,
            pv == views(p@),
            pv == line_fields(line@),
            !is_comment(pv[0]),
            character_field(pv[0]) is Some,
            character as int == character_field(pv[0])->Some_0,

        decreases p@[1]@.len() - i,
    {
        name.push(p[1][i]);
        i = i + 1;
        assert(name@ =~= p@[1]@.take(i as int));
    }
    assert(name@ =~= pv[1]);
    Ok(Some(EncodingRow { character, name: string_from_chars(&name), codes }))
}

/// Relies on `String::from_iter`: the string of the given characters in order.
#[verifier::external_body]
fn string_from_chars(v: &Vec<char>) -> (r: String)
    ensures
        r@ == v@,
{
    v.iter().collect()
}

/// The rows are well formed: five code columns each.
pub open spec fn rows_wf(rows: Seq<EncodingRow>) -> bool {
    forall|i: int| 0 <= i < rows.len() ==> (#[trigger] rows[i]).codes@.len() == CODE_COLUMNS
}

/// The byte table of code column `col`: each row with a code there maps that
/// byte to its character; a later row wins.
pub open spec fn column_table(rows: Seq<EncodingRow>, col: int) -> Seq<Option<char>>
    decreases rows.len(),
{
    if rows.len() == 0 {
        Seq::new(256, |i: int| None)
    } else {
        let prev = column_table(rows.drop_last(), col);
        match rows.last().codes@[col] {
            Some(b) => prev.update(b as int, Some(rows.last().character)),
            None => prev,
        }
    }
}

proof fn lemma_column_len(rows: Seq<EncodingRow>, col: int)
    ensures
        column_table(rows, col).len() == 256,
    decreases rows.len(),
{
    if rows.len() > 0 {
        lemma_column_len(rows.drop_last(), col);
    }
}

/// The byte table of one code column.
fn build_column(rows: &Vec<EncodingRow>, col: usize) -> (r: Vec<Option<char>>)
    requires
        rows_wf(rows@),
        col < CODE_COLUMNS,
    ensures
        r@ == column_table(rows@, col as int),
        r@.len() == 256,
{
    let mut t: Vec<Option<char>> = Vec::new();
    let mut b: usize = 0;
    while b < 256
        invariant
            b <= 256,
            t@ == Seq::new(b as nat, |i: int| None::<char>),
        decreases 256 - b,
    {
        t.push(None);
        b = b + 1;
        assert(t@ =~= Seq::new(b as nat, |i: int| None::<char>));
    }
    let mut i: usize = 0;
    assert(rows@.take(0) =~= Seq::<EncodingRow>::empty());
    while i < rows.len()
        invariant
            i <= rows.len(),
            rows_wf(rows@),
            col < CODE_COLUMNS,
            t@ == column_table(rows@.take(i as int), col as int),
            t@.len() == 256,
        decreases rows.len() - i,
    {
        proof {
            assert(rows@.take(i + 1).drop_last() =~= rows@.take(i as int));
            assert(rows@.take(i + 1).last() == rows@[i as int]);
            assert(rows@[i as int].codes@.len() == CODE_COLUMNS);
        }
        if let Some(code) = rows[i].codes[col] {
            t.set(code as usize, Some(rows[i].character));
        }
        i = i + 1;
    }
    assert(rows@.take(rows@.len() as int) =~= rows@);
    t
}

/// A glyph-name table as names and characters.
pub open spec fn names_view(v: Seq<(String, char)>) -> Seq<(Seq<char>, char)> {
    v.map_values(|e: (String, char)| (e.0@, e.1))
}

/// The name table after row `(name, c)`: the entry for `c` takes the name,
/// or a new entry goes before the first with a greater character.
pub open spec fn name_add(m: Seq<(Seq<char>, char)>, name: Seq<char>, c: char) -> Seq<(Seq<char>, char)>
    decreases m.len(),
{
    if m.len() == 0 {
        seq![(name, c)]
    } else if (m[0].1 as int) < (c as int) {
        seq![m[0]] + name_add(m.drop_first(), name, c)
    } else if m[0].1 == c {
        seq![(name, c)] + m.drop_first()
    } else {
        seq![(name, c)] + m
    }
}

/// The glyph-name table of the rows: one entry per character, in ascending
/// order of characters, each with the name of the last row for it. Where
/// characters share a name, a lookup (last entry wins) gives the greatest.
pub open spec fn names_of(rows: Seq<EncodingRow>) -> Seq<(Seq<char>, char)>
    decreases rows.len(),
{
    if rows.len() == 0 {
        Seq::empty()
    } else {
        name_add(names_of(rows.drop_last()), rows.last().name@, rows.last().character)
    }
}

proof fn lemma_name_add_skip(m: Seq<(Seq<char>, char)>, name: Seq<char>, c: char, i: int)
    requires
        0 <= i <= m.len(),
        forall|j: int| 0 <= j < i ==> (#[trigger] m[j].1 as int) < (c as int),
    ensures
        name_add(m, name, c) == m.take(i) + name_add(m.skip(i), name, c),
    decreases i,
{
    if i == 0 {
        assert(m.skip(0) =~= m);
        assert(m.take(0) + name_add(m, name, c) =~= name_add(m, name, c));
    } else {
        let d = m.drop_first();
        assert((m[0].1 as int) < (c as int));
        assert forall|j: int| 0 <= j < i - 1 implies (#[trigger] d[j].1 as int) < (c as int) by {
            assert(d[j] == m[j + 1]);
        }
        lemma_name_add_skip(d, name, c, i - 1);
        assert(d.skip(i - 1) =~= m.skip(i));
        assert(seq![m[0]] + d.take(i - 1) =~= m.take(i));
        assert(seq![m[0]] + (d.take(i - 1) + name_add(m.skip(i), name, c)) =~= m.take(i) + name_add(
            m.skip(i),
            name,
            c,
        ));
    }
}

/// Adds the name of character `c` to the table.
fn add_name(names: &mut Vec<(String, char)>, name: &String, c: char)
    ensures
        names_view(final(names)@) == name_add(names_view(old(names)@), name@, c),
{
    let ghost m = names_view(names@);
    let mut i: usize = 0;
    while i < names.len() && names[i].1 < c
        invariant
            i <= names.len(),
            m == names_view(names@),
            forall|j: int| 0 <= j < i ==> (#[trigger] m[j].1 as int) < (c as int),
        decreases names.len() - i,
    {
        i = i + 1;
    }
    proof {
        lemma_name_add_skip(m, name@, c, i as int);
    }
    let ghost rest = m.skip(i as int);
    if i == names.len() {
        names.push((name.clone(), c));
        assert(names_view(names@) =~= m.take(i as int) + name_add(rest, name@, c));
    } else if names[i].1 == c {
        let ghost before = names@;
        names.set(i, (name.clone(), c));
        assert(rest[0] == m[i as int]);
        assert(rest[0].1 == c);
        assert(name_add(rest, name@, c) == seq![(name@, c)] + rest.drop_first());
        assert(names_view(names@) =~= m.take(i as int) + name_add(rest, name@, c));
    } else {
        assert(!(names@[i as int].1 < c));
        assert(!((m[i as int].1 as int) < (c as int)));
        names.insert(i, (name.clone(), c));
        assert(rest[0] == m[i as int]);
        assert(names_view(names@) =~= m.take(i as int) + name_add(rest, name@, c));
    }
}

/// The decoder's tables from the rows: the Standard, MacRoman, WinAnsi and
/// Symbol columns, and the glyph-name table of `names_of`.
pub fn build_tables(rows: &Vec<EncodingRow>) -> (r: EncodingTables)
    requires
        rows_wf(rows@),
    ensures
        r.wf(),
        r.standard@ == column_table(rows@, 0),
        r.mac_roman@ == column_table(rows@, 1),
        r.win_ansi@ == column_table(rows@, 2),
        r.symbol@ == column_table(rows@, 4),
        names_view(r.names@) == names_of(rows@),
{
    let mut names: Vec<(String, char)> = Vec::new();
    let mut i: usize = 0;
    assert(names_view(names@) =~= names_of(rows@.take(0)));
    while i < rows.len()
        invariant
            i <= rows.len(),
            names_view(names@) == names_of(rows@.take(i as int)),
        decreases rows.len() - i,
    {
        proof {
            assert(rows@.take(i + 1).drop_last() =~= rows@.take(i as int));
            assert(rows@.take(i + 1).last() == rows@[i as int]);
        }
        add_name(&mut names, &rows[i].name, rows[i].character);
        i = i + 1;
    }
    assert(rows@.take(rows@.len() as int) =~= rows@);
    EncodingTables {
        standard: build_column(rows, 0),
        mac_roman: build_column(rows, 1),
        win_ansi: build_column(rows, 2),
        symbol: build_column(rows, 4),
        names,
    }
}

/// The rows that the lines of the table give, in order.
pub open spec fn line_rows(lines: Seq<Seq<char>>) -> Seq<RowModel>
    decreases lines.len(),
{
    if lines.len() == 0 {
        Seq::empty()
    } else {
        let prev = line_rows(lines.drop_last());
        match line_row(lines.last()) {
            Ok(Some(m)) => prev.push(m),
            _ => prev,
        }
    }
}

/// Whether `row` holds what the model `m` says.
pub open spec fn row_matches(row: EncodingRow, m: RowModel) -> bool {
    row.character as int == m.0 && row.name@ == m.1 && row.codes@ == m.2
}

/// Whether `t` holds the tables that `build_tables` makes of `rows`.
pub open spec fn tables_of(t: EncodingTables, rows: Seq<EncodingRow>) -> bool {
    &&& t.standard@ == column_table(rows, 0)
    &&& t.mac_roman@ == column_table(rows, 1)
    &&& t.win_ansi@ == column_table(rows, 2)
    &&& t.symbol@ == column_table(rows, 4)
    &&& names_view(t.names@) == names_of(rows)
}

/// Reads the encoding table: the lines are split at '\n' and each is read as
/// `parse_line` reads it. The first malformed line fails the whole table;
/// otherwise the tables are built from the rows of all lines in order.
pub fn parse_encoding_table(text: &str) -> (r: Result<EncodingTables, TableError>)
    ensures
        r is Ok <==> forall|l: int|
            0 <= l < split_on(text@, '\n').len() ==> #[trigger] line_row(split_on(text@, '\n')[l]) is Ok,
        r matches Ok(t) ==> t.wf() && exists|rows: Seq<EncodingRow>|
            rows.len() == line_rows(split_on(text@, '\n')).len() && (forall|i: int|
                0 <= i < rows.len() ==> row_matches(#[trigger] rows[i], line_rows(split_on(text@, '\n'))[i]))
                && tables_of(t, rows),
        r matches Err(e) ==> exists|l: int|
            0 <= l < split_on(text@, '\n').len() && line_row(#[trigger] split_on(text@, '\n')[l]) == Err::<
                Option<RowModel>,
                TableError,
            >(e) && forall|k: int| 0 <= k < l ==> line_row(#[trigger] split_on(text@, '\n')[k]) is Ok,
{
    let chars = crate::offset::chars_of(text);
    let lines = split_chars(&chars, '\n');
    let ghost lv = views(lines@);
    let mut rows: Vec<EncodingRow> = Vec::new();
    let mut i: usize = 0;
    while i < lines.len()
        invariant
            i <= lines.len(),
            lv == views(lines@),
            lv == split_on(text@, '\n'),
            rows_wf(rows@),
            rows@.len() == line_rows(lv.take(i as int)).len(),
            forall|j: int| 0 <= j < rows@.len() ==> row_matches(#[trigger] rows@[j], line_rows(lv.take(i as int))[j]),
            forall|k: int| 0 <= k < i ==> line_row(#[trigger] lv[k]) is Ok,
        decreases lines.len() - i,
    {
        assert(lv[i as int] == lines@[i as int]@);
        proof {
            assert(lv.take(i + 1).drop_last() =~= lv.take(i as int));
            assert(lv.take(i + 1).last() == lv[i as int]);
        }
        match parse_line(&lines[i]) {
            Err(e) => {
                return Err(e);
            },
            Ok(None) => {},
            Ok(Some(row)) => {
                rows.push(row);
                assert(rows@.last().codes@.len() == CODE_COLUMNS);
            },
        }
        i = i + 1;
    }
    assert(lv.take(lv.len() as int) =~= lv);
    let t = build_tables(&rows);
    let ghost rs = rows@;
    assert(rs.len() == line_rows(split_on(text@, '\n')).len() && (forall|i: int|
        0 <= i < rs.len() ==> row_matches(#[trigger] rs[i], line_rows(split_on(text@, '\n'))[i]))
        && tables_of(t, rs));
    Ok(t)
}

} // verus!
