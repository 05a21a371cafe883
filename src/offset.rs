use vstd::prelude::*;

verus! {

/// The minus sign as typeset in the source material (an en dash).
pub open spec fn is_dash(c: char) -> bool {
    c == '\u{2013}'
}

/// Every en dash replaced by an ASCII minus.
pub open spec fn dashes_to_minus(s: Seq<char>) -> Seq<char> {
    s.map_values(|c: char| if is_dash(c) { '-' } else { c })
}

/// The text after normalization: dashes become '-', then one leading '+' or ' ' is dropped.
pub open spec fn normalized_text(s: Seq<char>) -> Seq<char> {
    let t = dashes_to_minus(s);
    if t.len() > 0 && (t[0] == '+' || t[0] == ' ') {
        t.drop_first()
    } else {
        t
    }
}

pub open spec fn is_digit(c: char) -> bool {
    '0' <= c && c <= '9'
}

pub open spec fn all_digits(d: Seq<char>) -> bool {
    forall|i: int| 0 <= i < d.len() ==> is_digit(#[trigger] d[i])
}

pub open spec fn digit_value(c: char) -> int {
    c as int - '0' as int
}

/// The value of a string of decimal digits, most significant first.
pub open spec fn digits_value(d: Seq<char>) -> int
    decreases d.len(),
{
    if d.len() == 0 {
        0
    } else {
        10 * digits_value(d.drop_last()) + digit_value(d.last())
    }
}

/// The integer that a decimal literal with an optional sign denotes, if it is one.
pub open spec fn decimal_value(t: Seq<char>) -> Option<int> {
    if t.len() > 0 && (t[0] == '-' || t[0] == '+') {
        let d = t.drop_first();
        if d.len() > 0 && all_digits(d) {
            Some(if t[0] == '-' { -digits_value(d) } else { digits_value(d) })
        } else {
            None
        }
    } else if t.len() > 0 && all_digits(t) {
        Some(digits_value(t))
    } else {
        None
    }
}

pub open spec fn fits_i8(v: int) -> bool {
    -128 <= v && v <= 127
}

/// The offset that a captured offset text stands for, if it is a decimal that fits in `i8`.
pub open spec fn offset_value(s: Seq<char>) -> Option<int> {
    match decimal_value(normalized_text(s)) {
        Some(v) => if fits_i8(v) { Some(v) } else { None },
        None => None,
    }
}

/// A reversed offset ("12-") with its trailing sign moved to the front ("-12").
pub open spec fn rotated(s: Seq<char>) -> Seq<char> {
    if s.len() == 0 {
        s
    } else {
        seq![s.last()] + s.drop_last()
    }
}

/// The daylight offset after the sign correction for a known transcription error:
/// with a standard offset below -2, a daylight offset above 2 lost its minus sign.
pub open spec fn corrected_daylight_spec(standard: int, daylight: int) -> int {
    if standard < -2 && daylight > 2 {
        -daylight
    } else {
        daylight
    }
}

proof fn lemma_digits_value_nonneg(d: Seq<char>)
    requires
        all_digits(d),
    ensures
        digits_value(d) >= 0,
    decreases d.len(),
{
    if d.len() > 0 {
        let p = d.drop_last();
        assert(all_digits(p)) by {
            assert forall|i: int| 0 <= i < p.len() implies is_digit(#[trigger] p[i]) by {
                assert(p[i] == d[i]);
            }
        }
        lemma_digits_value_nonneg(p);
        assert(is_digit(d[d.len() - 1]));
    }
}

/// Reads the characters of a string slice into a vector.
pub(crate) fn chars_of(s: &str) -> (r: Vec<char>)
    ensures
        r@ == s@,
{
    let n = s.unicode_len();
    let mut r: Vec<char> = Vec::new();
    let mut i: usize = 0;
    while i < n
        invariant
            n == s@.len(),
            i <= n,
            r@ == s@.take(i as int),
        decreases n - i,
    {
        r.push(s.get_char(i));
        i = i + 1;
        assert(r@ =~= s@.take(i as int));
    }
    assert(r@ =~= s@);
    r
}

/// The normalized characters of an offset text.
fn normalize_chars(s: &Vec<char>) -> (r: Vec<char>)
    ensures
        r@ == normalized_text(s@),
{
    let mut t: Vec<char> = Vec::new();
    let mut i: usize = 0;
    while i < s.len()
        invariant
            i <= s.len(),
            t@ == dashes_to_minus(s@.take(i as int)),
        decreases s.len() - i,
    {
        let c = s[i];
        t.push(if c == '\u{2013}' { '-' } else { c });
        i = i + 1;
        assert(t@ =~= dashes_to_minus(s@.take(i as int)));
    }
    assert(s@.take(s.len() as int) =~= s@);
    if t.len() > 0 && (t[0] == '+' || t[0] == ' ') {
        let mut u: Vec<char> = Vec::new();
        let mut j: usize = 1;
        while j < t.len()
            invariant
                1 <= j <= t.len(),
                u@ == t@.subrange(1, j as int),
            decreases t.len() - j,
        {
            u.push(t[j]);
            j = j + 1;
            assert(u@ =~= t@.subrange(1, j as int));
        }
        assert(u@ =~= t@.drop_first());
        u
    } else {
        t
    }
}

/// Parses a decimal literal with an optional sign into an `i8`.
fn parse_i8(t: &Vec<char>) -> (r: Option<i8>)
    ensures
        match decimal_value(t@) {
            Some(v) => if fits_i8(v) { r == Some(v as i8) } else { r is None },
            None => r is None,
        },
{
    if t.len() == 0 {
        return None;
    }
    let signed = t[0] == '-' || t[0] == '+';
    let start: usize = if signed { 1 } else { 0 };
    if start >= t.len() {
        return None;
    }
    let ghost d = t@.subrange(start as int, t@.len() as int);
    assert(signed ==> d =~= t@.drop_first());
    assert(!signed ==> d =~= t@);
    // the magnitude so far, held at 1000 once it is beyond any i8
    let mut acc: u32 = 0;
    let mut i: usize = start;
    while i < t.len()
        invariant
            start <= i <= t.len(),
            d == t@.subrange(start as int, t@.len() as int),
            t@.len() > 0,
            signed == (t@[0] == '-' || t@[0] == '+'),
            signed ==> d == t@.drop_first(),
            !signed ==> d == t@,
            all_digits(t@.subrange(start as int, i as int)),
            digits_value(t@.subrange(start as int, i as int)) >= 1000 ==> acc == 1000,
            digits_value(t@.subrange(start as int, i as int)) < 1000 ==> acc as int == digits_value(
                t@.subrange(start as int, i as int),
            ),
        decreases t.len() - i,
    {
        let c = t[i];
        let ghost p = t@.subrange(start as int, i as int);
        if !('0' <= c && c <= '9') {
            assert(!is_digit(d[i - start]));
            assert(!all_digits(d));
            assert(signed ==> d == t@.drop_first());
            assert(!signed ==> d == t@);
            return None;
        }
        let ghost q = t@.subrange(start as int, i + 1);
        assert(q.drop_last() =~= p);
        assert(q.last() == c);
        assert(all_digits(q)) by {
            assert forall|k: int| 0 <= k < q.len() implies is_digit(#[trigger] q[k]) by {
                if k < p.len() {
                    assert(q[k] == p[k]);
                }
            }
        }
        proof { lemma_digits_value_nonneg(p); }
        let dv = (c as u32) - ('0' as u32);
        assert(dv as int == digit_value(c));
        if acc >= 1000 {
            acc = 1000;
        } else {
            let n = acc * 10 + dv;
            acc = if n >= 1000 { 1000 } else { n };
        }
        i = i + 1;
    }
    assert(t@.subrange(start as int, t@.len() as int) == d);
    assert(all_digits(d));
    if acc >= 1000 {
        return None;
    }
    let m = acc as i32;
    let v: i32 = if t[0] == '-' { -m } else { m };
    if v < -128 || v > 127 {
        None
    } else {
        Some(v as i8)
    }
}

/// The offset that `s` stands for, or `None` where it is no decimal that fits in `i8`.
fn checked_offset(s: &Vec<char>) -> (r: Option<i8>)
    ensures
        match offset_value(s@) {
            Some(v) => r == Some(v as i8),
            None => r is None,
        },
{
    let t = normalize_chars(s);
    parse_i8(&t)
}

/// Whether `offset` can be normalized (see `normalize_offset`).
pub fn offset_is_valid(offset: &str) -> (r: bool)
    ensures
        r == offset_value(offset@) is Some,
{
    let s = chars_of(offset);
    checked_offset(&s).is_some()
}

/// Normalizes a captured UTC offset: an en dash becomes '-', one leading '+'
/// or space is dropped, and the rest is read as a decimal integer.
pub fn normalize_offset(offset: &str) -> (r: i8)
    requires
        offset_value(offset@) is Some,
    ensures
        r as int == offset_value(offset@)->Some_0,
{
    let s = chars_of(offset);
    match checked_offset(&s) {
        Some(v) => v,
        None => 0,
    }
}

/// Normalizes a reversed offset ("12-"): the trailing sign moves to the
/// front, and the result is normalized as by `normalize_offset`.
pub fn normalize_reverse_offset(offset: &str) -> (r: i8)
    requires
        offset@.len() > 0,
        offset_value(rotated(offset@)) is Some,
    ensures
        r as int == offset_value(rotated(offset@))->Some_0,
{
    let s = chars_of(offset);
    let n = s.len();
    let mut t: Vec<char> = Vec::new();
    t.push(s[n - 1]);
    let mut i: usize = 0;
    while i < n - 1
        invariant
            n == s@.len(),
            n > 0,
            i <= n - 1,
            t@ == seq![s@.last()] + s@.take(i as int),
        decreases n - 1 - i,
    {
        t.push(s[i]);
        i = i + 1;
        assert(t@ =~= seq![s@.last()] + s@.take(i as int));
    }
    assert(t@ =~= rotated(s@));
    match checked_offset(&t) {
        Some(v) => v,
        None => 0,
    }
}

/// Applies the daylight sign correction (see `corrected_daylight_spec`).
pub fn corrected_daylight(standard: i8, daylight: i8) -> (r: i8)
    ensures
        r as int == corrected_daylight_spec(standard as int, daylight as int),
{
    if standard < -2 && daylight > 2 {
        -daylight
    } else {
        daylight
    }
}

} // verus!
