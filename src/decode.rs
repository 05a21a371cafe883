use vstd::prelude::*;
use crate::error::DocumentError;
use crate::text::push_char;

verus! {

/// The base encodings that a font may declare. The ones the decoder has no
/// table for are `Unsupported`.
#[derive(Debug, Clone, Copy, PartialEq, Eq, Structural)]
pub enum BaseEncoding {
    Standard,
    Symbol,
    MacRoman,
    WinAnsi,
    Unsupported,
}

/// A font's simple encoding: a base table and `(code, glyph name)` overrides.
#[derive(Debug, Clone)]
pub struct FontEncoding {
    pub base: BaseEncoding,
    pub differences: Vec<(u32, String)>,
}

/// What the decoder reads of a font: its direct code-to-text map, if it has
/// one (codes unique), and its encoding, if it declares one.
#[derive(Debug, Clone)]
pub struct FontInfo {
    pub to_unicode: Option<Vec<(u16, String)>>,
    pub encoding: Option<FontEncoding>,
}

/// The byte-to-character tables of the four base encodings and the
/// glyph-name-to-character table.
#[derive(Debug, Clone)]
pub struct EncodingTables {
    pub standard: Vec<Option<char>>,
    pub symbol: Vec<Option<char>>,
    pub mac_roman: Vec<Option<char>>,
    pub win_ansi: Vec<Option<char>>,
    pub names: Vec<(String, char)>,
}

impl EncodingTables {
    /// Each byte table has one entry per byte value.
    pub open spec fn wf(&self) -> bool {
        &&& self.standard@.len() == 256
        &&& self.symbol@.len() == 256
        &&& self.mac_roman@.len() == 256
        &&& self.win_ansi@.len() == 256
    }
}

/// The overrides of a font address single bytes.
pub open spec fn font_wf(f: FontInfo) -> bool {
    f.encoding matches Some(e) ==> forall|k: int|
        0 <= k < e.differences@.len() ==> #[trigger] e.differences@[k].0 < 256
}

/// The byte table of a supported base encoding.
pub open spec fn base_table(t: EncodingTables, b: BaseEncoding) -> Seq<Option<char>> {
    match b {
        BaseEncoding::Standard => t.standard@,
        BaseEncoding::Symbol => t.symbol@,
        BaseEncoding::MacRoman => t.mac_roman@,
        BaseEncoding::WinAnsi => t.win_ansi@,
        BaseEncoding::Unsupported => Seq::empty(),
    }
}

/// The character that the glyph-name table gives `name`; a later row wins.
pub open spec fn name_lookup(names: Seq<(String, char)>, name: Seq<char>) -> Option<char>
    decreases names.len(),
{
    if names.len() == 0 {
        None
    } else if names.last().0@ == name {
        Some(names.last().1)
    } else {
        name_lookup(names.drop_last(), name)
    }
}

/// The base table with the overrides applied in order: each override whose
/// glyph name is known sets its byte to that character.
pub open spec fn overridden_table(
    base: Seq<Option<char>>,
    diffs: Seq<(u32, String)>,
    names: Seq<(String, char)>,
) -> Seq<Option<char>>
    decreases diffs.len(),
{
    if diffs.len() == 0 {
        base
    } else {
        let prev = overridden_table(base, diffs.drop_last(), names);
        match name_lookup(names, diffs.last().1@) {
            Some(c) => prev.update(diffs.last().0 as int, Some(c)),
            None => prev,
        }
    }
}

/// Single-byte decoding: each byte with an entry gives its character, the others are dropped.
pub open spec fn decode_bytes(table: Seq<Option<char>>, bytes: Seq<u8>) -> Seq<char>
    decreases bytes.len(),
{
    if bytes.len() == 0 {
        Seq::empty()
    } else {
        let prev = decode_bytes(table, bytes.drop_last());
        match table[bytes.last() as int] {
            Some(c) => prev.push(c),
            None => prev,
        }
    }
}

/// The text that a direct map gives `code`; the first row for it counts.
pub open spec fn code_lookup(map: Seq<(u16, String)>, code: int) -> Option<Seq<char>>
    decreases map.len(),
{
    if map.len() == 0 {
        None
    } else if map[0].0 as int == code {
        Some(map[0].1@)
    } else {
        code_lookup(map.drop_first(), code)
    }
}

/// The big-endian two-byte code at position `k`.
pub open spec fn code_at(bytes: Seq<u8>, k: int) -> int {
    bytes[2 * k] as int * 256 + bytes[2 * k + 1] as int
}

/// Decoding of the first `n` two-byte codes through a direct map; `None` at an unknown code.
pub open spec fn decode_codes(map: Seq<(u16, String)>, bytes: Seq<u8>, n: nat) -> Option<Seq<char>>
    decreases n,
{
    if n == 0 {
        Some(Seq::empty())
    } else {
        match decode_codes(map, bytes, (n - 1) as nat) {
            None => None,
            Some(p) => match code_lookup(map, code_at(bytes, n - 1)) {
                None => None,
                Some(t) => Some(p + t),
            },
        }
    }
}

/// What decoding `bytes` in `font` gives: `Ok(None)` for no text, `Ok(Some(text))`,
/// or the error `UnmappableCode`.
pub open spec fn decoded(font: Option<FontInfo>, bytes: Seq<u8>, t: EncodingTables) -> Result<
    Option<Seq<char>>,
    DocumentError,
> {
    match font {
        None => Ok(None),
        Some(f) => match f.to_unicode {
            Some(map) => if bytes.len() % 2 != 0 {
                Err(DocumentError::UnmappableCode)
            } else {
                match decode_codes(map@, bytes, (bytes.len() / 2) as nat) {
                    Some(s) => Ok(Some(s)),
                    None => Err(DocumentError::UnmappableCode),
                }
            },
            None => match f.encoding {
                Some(e) => if e.base == BaseEncoding::Unsupported {
                    Ok(None)
                } else {
                    Ok(
                        Some(
                            decode_bytes(
                                overridden_table(base_table(t, e.base), e.differences@, t.names@),
                                bytes,
                            ),
                        ),
                    )
                },
                None => Ok(None),
            },
        },
    }
}

/// A decoding result with its text as a character sequence.
pub open spec fn decode_outcome(r: Result<Option<String>, DocumentError>) -> Result<
    Option<Seq<char>>,
    DocumentError,
> {
    match r {
        Ok(Some(s)) => Ok(Some(s@)),
        Ok(None) => Ok(None),
        Err(e) => Err(e),
    }
}

pub open spec fn option_font(font: Option<&FontInfo>) -> Option<FontInfo> {
    match font {
        Some(f) => Some(*f),
        None => None,
    }
}

/// Finds a glyph name in the name table; a later row wins.
fn find_name(names: &Vec<(String, char)>, name: &String) -> (r: Option<char>)
    ensures
        r == name_lookup(names@, name@),
{
    let mut r: Option<char> = None;
    let mut i: usize = 0;
    while i < names.len()
        invariant
            i <= names.len(),
            r == name_lookup(names@.take(i as int), name@),
        decreases names.len() - i,
    {
        proof {
            assert(names@.take(i + 1).drop_last() =~= names@.take(i as int));
        }
        if names[i].0 == *name {
            r = Some(names[i].1);
        }
        i = i + 1;
    }
    assert(names@.take(names@.len() as int) =~= names@);
    r
}

/// Finds a code in a direct map; the first row for it counts.
fn find_code(map: &Vec<(u16, String)>, code: u16) -> (r: Option<&String>)
    ensures
        match code_lookup(map@, code as int) {
            Some(t) => r matches Some(s) && s@ == t,
            None => r is None,
        },
{
    let mut i: usize = 0;
    assert(map@.subrange(0, map@.len() as int) =~= map@);
    while i < map.len()
        invariant
            i <= map.len(),
            code_lookup(map@, code as int) == code_lookup(map@.subrange(i as int, map@.len() as int), code as int),
        decreases map.len() - i,
    {
        let ghost rest = map@.subrange(i as int, map@.len() as int);
        assert(rest[0] == map@[i as int]);
        assert(rest.drop_first() =~= map@.subrange(i + 1, map@.len() as int));
        if map[i].0 == code {
            return Some(&map[i].1);
        }
        i = i + 1;
    }
    None
}

/// The byte table of a supported base encoding, with the overrides applied.
fn build_table(tables: &EncodingTables, enc: &FontEncoding) -> (r: Vec<Option<char>>)
    requires
        tables.wf(),
        enc.base != BaseEncoding::Unsupported,
        forall|k: int| 0 <= k < enc.differences@.len() ==> #[trigger] enc.differences@[k].0 < 256,
    ensures
        r@ == overridden_table(base_table(*tables, enc.base), enc.differences@, tables.names@),
        r@.len() == 256,
{
    let base = match enc.base {
        BaseEncoding::Standard => &tables.standard,
        BaseEncoding::Symbol => &tables.symbol,
        BaseEncoding::MacRoman => &tables.mac_roman,
        _ => &tables.win_ansi,
    };
    let mut table: Vec<Option<char>> = Vec::new();
    let mut i: usize = 0;
    while i < base.len()
        invariant
            i <= base.len(),
            table@ == base@.take(i as int),
        decreases base.len() - i,
    {
        table.push(base[i]);
        i = i + 1;
        assert(table@ =~= base@.take(i as int));
    }
    assert(table@ =~= base_table(*tables, enc.base));
    let diffs = &enc.differences;
    let mut j: usize = 0;
    while j < diffs.len()
        invariant
            j <= diffs.len(),
            table@.len() == 256,
            forall|k: int| 0 <= k < diffs@.len() ==> #[trigger] diffs@[k].0 < 256,
            table@ == overridden_table(base_table(*tables, enc.base), diffs@.take(j as int), tables.names@),
        decreases diffs.len() - j,
    {
        proof {
            assert(diffs@.take(j + 1).drop_last() =~= diffs@.take(j as int));
            assert(diffs@[j as int].0 < 256);
        }
        let (code, name) = (diffs[j].0, &diffs[j].1);
        if let Some(c) = find_name(&tables.names, name) {
            table.set(code as usize, Some(c));
        }
        j = j + 1;
    }
    assert(diffs@.take(diffs@.len() as int) =~= diffs@);
    table
}

/// Decodes the bytes of a text operand in the active font. Without a font, or
/// for a font with neither a direct map nor a supported encoding, there is no
/// text. A direct map reads big-endian two-byte codes and fails with
/// `UnmappableCode` on an unknown code or an odd byte left over. An encoding
/// reads single bytes and drops those without a character.
pub fn font_decode(font: Option<&FontInfo>, text: &Vec<u8>, tables: &EncodingTables) -> (r: Result<
    Option<String>,
    DocumentError,
>)
    requires
        tables.wf(),
        font matches Some(f) ==> font_wf(*f),
    ensures
        decode_outcome(r) == decoded(option_font(font), text@, *tables),
{
    let f = match font {
        Some(f) => f,
        None => return Ok(None),
    };
    if let Some(map) = &f.to_unicode {
        if text.len() % 2 != 0 {
            return Err(DocumentError::UnmappableCode);
        }
        let len = text.len();
        let n = len / 2;
        let mut out = String::new();
        let mut k: usize = 0;
        while k < n
            invariant
                n == text@.len() / 2,
                text@.len() % 2 == 0,
                2 * n == text@.len(),
                len == text@.len(),
                font == Some(f),
                f.to_unicode == Some(*map),
                k <= n,
                decode_codes(map@, text@, k as nat) == Some(out@),
            decreases n - k,
        {
            assert(2 * k + 1 < text@.len());
            let hi: u16 = text[2 * k] as u16;
            let lo: u16 = text[2 * k + 1] as u16;
            assert(hi < 256 && lo < 256);
            let code: u16 = hi * 256 + lo;
            assert(code as int == code_at(text@, k as int));
            match find_code(map, code) {
                Some(s) => {
                    out.append(s.as_str());
                },
                None => {
                    assert(decode_codes(map@, text@, (k + 1) as nat) is None);
                    proof {
                        lemma_codes_fail_onwards(map@, text@, (k + 1) as nat, n as nat);
                        assert(decode_codes(map@, text@, (text@.len() / 2) as nat) is None);
                    }
                    return Err(DocumentError::UnmappableCode);
                },
            }
            k = k + 1;
        }
        return Ok(Some(out));
    }
    match &f.encoding {
        Some(enc) => {
            if enc.base == BaseEncoding::Unsupported {
                return Ok(None);
            }
            let table = build_table(tables, enc);
            let mut out = String::new();
            let mut i: usize = 0;
            while i < text.len()
                invariant
                    i <= text.len(),
                    table@.len() == 256,
                    out@ == decode_bytes(table@, text@.take(i as int)),
                decreases text.len() - i,
            {
                proof {
                    assert(text@.take(i + 1).drop_last() =~= text@.take(i as int));
                }
                if let Some(c) = table[text[i] as usize] {
                    push_char(&mut out, c);
                }
                i = i + 1;
            }
            assert(text@.take(text@.len() as int) =~= text@);
            Ok(Some(out))
        },
        None => Ok(None),
    }
}

/// Decoding is deterministic: results that both meet the contract of
/// `font_decode` for the same bytes, font and tables are the same.
pub proof fn lemma_decode_deterministic(
    font: Option<FontInfo>,
    bytes: Seq<u8>,
    tables: EncodingTables,
    r1: Result<Option<String>, DocumentError>,
    r2: Result<Option<String>, DocumentError>,
)
    requires
        decode_outcome(r1) == decoded(font, bytes, tables),
        decode_outcome(r2) == decoded(font, bytes, tables),
    ensures
        decode_outcome(r1) == decode_outcome(r2),
{
}

/// Every override addresses an entry of a table of length `n`.
pub open spec fn codes_within(diffs: Seq<(u32, String)>, n: int) -> bool {
    forall|k: int| 0 <= k < diffs.len() ==> (#[trigger] diffs[k]).0 < n
}

/// Applying overrides keeps the table's length.
pub proof fn lemma_overridden_len(base: Seq<Option<char>>, diffs: Seq<(u32, String)>, names: Seq<(String, char)>)
    requires
        codes_within(diffs, base.len() as int),
    ensures
        overridden_table(base, diffs, names).len() == base.len(),
    decreases diffs.len(),
{
    if diffs.len() > 0 {
        let p = diffs.drop_last();
        assert(codes_within(p, base.len() as int)) by {
            assert forall|k: int| 0 <= k < p.len() implies (#[trigger] p[k]).0 < base.len() by {
                assert(p[k] == diffs[k]);
            }
        }
        assert(diffs[diffs.len() - 1].0 < base.len());
        lemma_overridden_len(base, p, names);
    }
}

/// No two overrides address the same byte.
pub open spec fn distinct_codes(diffs: Seq<(u32, String)>) -> bool {
    forall|i: int, j: int| 0 <= i < j < diffs.len() ==> #[trigger] diffs[i].0 != #[trigger] diffs[j].0
}

/// The entry that override `d` leaves at its byte, over `prev`.
pub open spec fn override_value(prev: Option<char>, d: (u32, String), names: Seq<(String, char)>) -> Option<char> {
    match name_lookup(names, d.1@) {
        Some(c) => Some(c),
        None => prev,
    }
}

/// With overrides on distinct bytes, each byte holds what its own override
/// gives it, or its base entry where it has none.
proof fn lemma_overridden_entry(
    base: Seq<Option<char>>,
    diffs: Seq<(u32, String)>,
    names: Seq<(String, char)>,
    b: int,
)
    requires
        codes_within(diffs, base.len() as int),
        distinct_codes(diffs),
        0 <= b < base.len(),
    ensures
        forall|k: int|
            0 <= k < diffs.len() && diffs[k].0 == b ==> overridden_table(base, diffs, names)[b]
                == override_value(base[b], #[trigger] diffs[k], names),
        (forall|k: int| 0 <= k < diffs.len() ==> #[trigger] diffs[k].0 != b) ==> overridden_table(
            base,
            diffs,
            names,
        )[b] == base[b],
    decreases diffs.len(),
{
    if diffs.len() > 0 {
        let p = diffs.drop_last();
        let last = diffs.last();
        assert(codes_within(p, base.len() as int)) by {
            assert forall|k: int| 0 <= k < p.len() implies (#[trigger] p[k]).0 < base.len() by {
                assert(p[k] == diffs[k]);
            }
        }
        assert(distinct_codes(p)) by {
            assert forall|i: int, j: int| 0 <= i < j < p.len() implies #[trigger] p[i].0 != #[trigger] p[j].0 by {
                assert(p[i] == diffs[i] && p[j] == diffs[j]);
            }
        }
        assert(last.0 < base.len()) by {
            assert(diffs[diffs.len() - 1] == last);
        }
        lemma_overridden_entry(base, p, names, b);
        lemma_overridden_len(base, p, names);
        let t = overridden_table(base, diffs, names);
        let q = overridden_table(base, p, names);
        assert forall|k: int| 0 <= k < diffs.len() && diffs[k].0 == b implies t[b] == override_value(
            base[b],
            #[trigger] diffs[k],
            names,
        ) by {
            if k == diffs.len() - 1 {
                assert forall|m: int| 0 <= m < p.len() implies #[trigger] p[m].0 != b by {
                    assert(p[m] == diffs[m]);
                }
            } else {
                assert(p[k] == diffs[k]);
                assert(last.0 != b) by {
                    assert(diffs[diffs.len() - 1] == last);
                }
            }
        }
        if forall|k: int| 0 <= k < diffs.len() ==> #[trigger] diffs[k].0 != b {
            assert forall|m: int| 0 <= m < p.len() implies #[trigger] p[m].0 != b by {
                assert(p[m] == diffs[m]);
            }
            assert(diffs[diffs.len() - 1].0 != b);
        }
    }
}

/// The order of overrides on distinct bytes does not matter: two override
/// lists with the same entries give the same table.
pub proof fn lemma_override_order_irrelevant(
    base: Seq<Option<char>>,
    d1: Seq<(u32, String)>,
    d2: Seq<(u32, String)>,
    names: Seq<(String, char)>,
)
    requires
        codes_within(d1, base.len() as int),
        codes_within(d2, base.len() as int),
        distinct_codes(d1),
        distinct_codes(d2),
        forall|x: (u32, String)| d1.contains(x) <==> d2.contains(x),
    ensures
        overridden_table(base, d1, names) == overridden_table(base, d2, names),
{
    let t1 = overridden_table(base, d1, names);
    let t2 = overridden_table(base, d2, names);
    lemma_overridden_len(base, d1, names);
    lemma_overridden_len(base, d2, names);
    assert forall|b: int| 0 <= b < t1.len() implies t1[b] == t2[b] by {
        lemma_overridden_entry(base, d1, names, b);
        lemma_overridden_entry(base, d2, names, b);
        if exists|k: int| 0 <= k < d1.len() && d1[k].0 == b {
            let k = choose|k: int| 0 <= k < d1.len() && d1[k].0 == b;
            assert(d1.contains(d1[k]));
            assert(d2.contains(d1[k]));
            let k2 = choose|k2: int| 0 <= k2 < d2.len() && d2[k2] == d1[k];
            assert(t1[b] == override_value(base[b], d1[k], names));
            assert(t2[b] == override_value(base[b], d2[k2], names));
        } else {
            assert forall|k2: int| 0 <= k2 < d2.len() implies #[trigger] d2[k2].0 != b by {
                assert(d2.contains(d2[k2]));
                assert(d1.contains(d2[k2]));
                let k = choose|k: int| 0 <= k < d1.len() && d1[k] == d2[k2];
                assert(d1[k].0 != b);
            }
            assert forall|k: int| 0 <= k < d1.len() implies #[trigger] d1[k].0 != b by {}
        }
    }
    assert(t1 =~= t2);
}

/// An override whose glyph name is known sets its byte, over the base table
/// and over every earlier override.
pub proof fn lemma_later_override_wins(
    base: Seq<Option<char>>,
    diffs: Seq<(u32, String)>,
    d: (u32, String),
    names: Seq<(String, char)>,
)
    requires
        (d.0 as int) < base.len(),
        codes_within(diffs, base.len() as int),
        name_lookup(names, d.1@) is Some,
    ensures
        overridden_table(base, diffs.push(d), names)[d.0 as int] == Some(
            name_lookup(names, d.1@)->Some_0,
        ),
{
    assert(diffs.push(d).drop_last() == diffs);
    lemma_overridden_len(base, diffs, names);
}

proof fn lemma_codes_fail_onwards(map: Seq<(u16, String)>, bytes: Seq<u8>, i: nat, n: nat)
    requires
        decode_codes(map, bytes, i) is None,
        i <= n,
    ensures
        decode_codes(map, bytes, n) is None,
    decreases n - i,
{
    if i < n {
        lemma_codes_fail_onwards(map, bytes, i, (n - 1) as nat);
    }
}

} // verus!
