use vstd::prelude::*;
use crate::error::DocumentError;
use crate::offset::{
    corrected_daylight, corrected_daylight_spec, normalize_offset, normalize_reverse_offset,
    offset_is_valid, offset_value, rotated,
};
use crate::pattern::compile_regex;

verus! {

/// The pattern of a line that carries an airport code and its UTC offsets:
/// the code in parentheses, later "UTC" and the standard offset, then
/// optionally the daylight offset in parentheses, signed as usual or with
/// the sign after the digits, optionally followed by daylight letters.
pub const ICAO_AND_UTC: &'static str = "\\((?P<icao>[A-Z0-9]{4})\\).+UTC[ ]?(?P<utc>[-+\u{2013}][0-9]+)(?:[ ]?\\((?:(?P<utcdst>[-+\u{2013} ]?[0-9]+)|(?P<dstutc>[0-9]+[-+\u{2013}]))(?:DT|D|T)?\\))?";

/// Whether the regular expression `pattern` matches somewhere in `text`.
pub uninterp spec fn pattern_matches(pattern: Seq<char>, text: Seq<char>) -> bool;

/// The groups of the leftmost match of `ICAO_AND_UTC` in `line`, group 0
/// first, or `None` where the pattern does not match.
pub uninterp spec fn icao_utc_captures(line: Seq<char>) -> Option<Seq<Option<Seq<char>>>>;

/// A regular expression, with its source, that restricts which codes a
/// definition applies to.
pub struct SerializableRegex {
    source: String,
    re: regex::Regex,
}

impl View for SerializableRegex {
    type V = Seq<char>;

    /// The source of the expression.
    closed spec fn view(&self) -> Seq<char> {
        self.source@
    }
}

/// Relies on `regex::Regex::is_match`: whether the expression compiled from
/// `r`'s source matches somewhere in `text`.
#[verifier::external_body]
fn regex_is_match(r: &SerializableRegex, text: &str) -> (b: bool)
    ensures
        b == pattern_matches(r@, text@),
{
    r.re.is_match(text)
}

impl SerializableRegex {
    /// Compiles `pattern`; `None` where it is no valid regular expression.
    pub fn new(pattern: &str) -> (r: Option<SerializableRegex>)
        ensures
            r matches Some(x) ==> x@ == pattern@,
    {
        match compile_regex(pattern) {
            Ok(re) => Some(SerializableRegex { source: String::from_str(pattern), re }),
            Err(_) => None,
        }
    }

    /// The source of the expression.
    pub fn as_str(&self) -> (r: &str)
        ensures
            r@ == self@,
    {
        self.source.as_str()
    }

    /// Whether the expression matches somewhere in `text`.
    pub fn is_match(&self, text: &str) -> (r: bool)
        ensures
            r == pattern_matches(self@, text@),
    {
        regex_is_match(self, text)
    }
}

/// A configured time zone: the offsets it stands for, and optionally the
/// codes it is restricted to.
pub struct TimeZoneDefinition {
    pub icao_match: Option<SerializableRegex>,
    pub iana: String,
    pub utc_standard: i8,
    pub utc_daylight: Option<i8>,
}

/// An airport code with its standard and (optional) daylight UTC offsets.
#[derive(Debug, Clone, PartialEq, Eq)]
pub struct OffsetRecord {
    pub icao: String,
    pub utc_standard: i8,
    pub utc_daylight: Option<i8>,
}

/// The groups of a match as characters.
pub open spec fn groups_view(g: Seq<Option<String>>) -> Seq<Option<Seq<char>>> {
    g.map_values(|o: Option<String>| match o {
        Some(s) => Some(s@),
        None => None,
    })
}

pub open spec fn groups_outcome(r: Option<Vec<Option<String>>>) -> Option<Seq<Option<Seq<char>>>> {
    match r {
        Some(g) => Some(groups_view(g@)),
        None => None,
    }
}

/// Group `k` of a match, where it is there.
pub open spec fn group(g: Seq<Option<Seq<char>>>, k: int) -> Option<Seq<char>> {
    if 0 <= k < g.len() {
        g[k]
    } else {
        None
    }
}

/// The daylight offset of a match with standard offset `standard`: the
/// usual form (group 3) corrected for the known sign error, else the
/// reversed form (group 4), else none.
pub open spec fn daylight_of(g: Seq<Option<Seq<char>>>, standard: int) -> Result<Option<int>, DocumentError> {
    match group(g, 3) {
        Some(d) => match offset_value(d) {
            Some(v) => Ok(Some(corrected_daylight_spec(standard, v))),
            None => Err(DocumentError::InvalidOffset),
        },
        None => match group(g, 4) {
            Some(d) => if d.len() > 0 && offset_value(rotated(d)) is Some {
                Ok(Some(offset_value(rotated(d))->Some_0))
            } else {
                Err(DocumentError::InvalidOffset)
            },
            None => Ok(None),
        },
    }
}

/// The record that the groups of a match give: the code (group 1) and the
/// standard offset (group 2), with the daylight offset of `daylight_of`. A
/// match without code or standard offset gives none; an offset that is no
/// signed byte is an error.
pub open spec fn record_of(g: Seq<Option<Seq<char>>>) -> Result<Option<(Seq<char>, int, Option<int>)>, DocumentError> {
    match (group(g, 1), group(g, 2)) {
        (Some(icao), Some(utc)) => match offset_value(utc) {
            Some(s) => match daylight_of(g, s) {
                Ok(d) => Ok(Some((icao, s, d))),
                Err(e) => Err(e),
            },
            None => Err(DocumentError::InvalidOffset),
        },
        _ => Ok(None),
    }
}

/// The record on a line: none where the pattern does not match it.
pub open spec fn line_record(line: Seq<char>) -> Result<Option<(Seq<char>, int, Option<int>)>, DocumentError> {
    match icao_utc_captures(line) {
        None => Ok(None),
        Some(g) => record_of(g),
    }
}

pub open spec fn opt_int(o: Option<i8>) -> Option<int> {
    match o {
        Some(v) => Some(v as int),
        None => None,
    }
}

/// A record result in the terms of `record_of`.
pub open spec fn record_outcome(r: Result<Option<OffsetRecord>, DocumentError>) -> Result<Option<(Seq<char>, int, Option<int>)>, DocumentError> {
    match r {
        Ok(Some(rec)) => Ok(Some((rec.icao@, rec.utc_standard as int, opt_int(rec.utc_daylight)))),
        Ok(None) => Ok(None),
        Err(e) => Err(e),
    }
}

/// Builds the record from the groups of a match of `ICAO_AND_UTC`.
pub fn record_from_groups(groups: &Vec<Option<String>>) -> (r: Result<Option<OffsetRecord>, DocumentError>)
    ensures
        record_outcome(r) == record_of(groups_view(groups@)),
{
    if groups.len() < 3 {
        return Ok(None);
    }
    let (icao, utc) = match (&groups[1], &groups[2]) {
        (Some(i), Some(u)) => (i, u),
        _ => return Ok(None),
    };
    if !offset_is_valid(utc.as_str()) {
        return Err(DocumentError::InvalidOffset);
    }
    let standard = normalize_offset(utc.as_str());
    let mut daylight: Option<i8> = None;
    let mut usual = false;
    if groups.len() > 3 {
        if let Some(d) = &groups[3] {
            usual = true;
            if !offset_is_valid(d.as_str()) {
                return Err(DocumentError::InvalidOffset);
            }
            daylight = Some(corrected_daylight(standard, normalize_offset(d.as_str())));
        }
    }
    if !usual && groups.len() > 4 {
        if let Some(d) = &groups[4] {
            if d.as_str().unicode_len() == 0 {
                return Err(DocumentError::InvalidOffset);
            }
            proof {
                assert(d@.len() > 0);
            }
            if !reverse_offset_is_valid(d.as_str()) {
                return Err(DocumentError::InvalidOffset);
            }
            daylight = Some(normalize_reverse_offset(d.as_str()));
        }
    }
    Ok(Some(OffsetRecord { icao: icao.clone(), utc_standard: standard, utc_daylight: daylight }))
}

/// Whether a reversed offset text can be normalized.
pub fn reverse_offset_is_valid(offset: &str) -> (r: bool)
    requires
        offset@.len() > 0,
    ensures
        r == offset_value(rotated(offset@)) is Some,
{
    let n = offset.unicode_len();
    let mut t = String::from_str(offset.substring_char(n - 1, n));
    t.append(offset.substring_char(0, n - 1));
    assert(t@ =~= rotated(offset@));
    offset_is_valid(t.as_str())
}

/// Whether definition `z` stands for exactly these offsets (absence matching absence).
pub open spec fn offsets_fit(z: TimeZoneDefinition, standard: int, daylight: Option<int>) -> bool {
    z.utc_standard as int == standard && opt_int(z.utc_daylight) == daylight
}

/// Whether definition `z` admits the code: it has no pattern, or its pattern matches.
pub open spec fn admits(z: TimeZoneDefinition, icao: Seq<char>) -> bool {
    match z.icao_match {
        Some(p) => pattern_matches(p@, icao),
        None => true,
    }
}

/// For each definition, whether it admits the code.
pub open spec fn admitted_of(zones: Seq<TimeZoneDefinition>, icao: Seq<char>) -> Seq<bool> {
    Seq::new(zones.len(), |i: int| admits(zones[i], icao))
}

/// Definition `i` is restricted by a pattern that admitted the code, and fits the offsets.
pub open spec fn restricted_fit(
    admitted: Seq<bool>,
    zones: Seq<TimeZoneDefinition>,
    i: int,
    standard: int,
    daylight: Option<int>,
) -> bool {
    zones[i].icao_match is Some && admitted[i] && offsets_fit(zones[i], standard, daylight)
}

/// Definition `i` applies to every code and fits the offsets.
pub open spec fn open_fit(zones: Seq<TimeZoneDefinition>, i: int, standard: int, daylight: Option<int>) -> bool {
    zones[i].icao_match is None && offsets_fit(zones[i], standard, daylight)
}

/// The first of the first `n` definitions that is a restricted fit.
pub open spec fn first_restricted(
    admitted: Seq<bool>,
    zones: Seq<TimeZoneDefinition>,
    standard: int,
    daylight: Option<int>,
    n: nat,
) -> Option<int>
    decreases n,
{
    if n == 0 {
        None
    } else {
        match first_restricted(admitted, zones, standard, daylight, (n - 1) as nat) {
            Some(i) => Some(i),
            None => if restricted_fit(admitted, zones, n - 1, standard, daylight) {
                Some(n - 1)
            } else {
                None
            },
        }
    }
}

/// The first of the first `n` definitions that is an unrestricted fit.
pub open spec fn first_open(zones: Seq<TimeZoneDefinition>, standard: int, daylight: Option<int>, n: nat) -> Option<int>
    decreases n,
{
    if n == 0 {
        None
    } else {
        match first_open(zones, standard, daylight, (n - 1) as nat) {
            Some(i) => Some(i),
            None => if open_fit(zones, n - 1, standard, daylight) {
                Some(n - 1)
            } else {
                None
            },
        }
    }
}

/// The definition chosen for a record: the first restricted one that fits
/// and admitted the code, else the first unrestricted one that fits, else none.
pub open spec fn zone_choice(
    admitted: Seq<bool>,
    zones: Seq<TimeZoneDefinition>,
    standard: int,
    daylight: Option<int>,
) -> Option<int> {
    match first_restricted(admitted, zones, standard, daylight, zones.len()) {
        Some(i) => Some(i),
        None => first_open(zones, standard, daylight, zones.len()),
    }
}

pub open spec fn opt_index(r: Option<usize>) -> Option<int> {
    match r {
        Some(i) => Some(i as int),
        None => None,
    }
}

proof fn lemma_first_restricted_stays(
    admitted: Seq<bool>,
    zones: Seq<TimeZoneDefinition>,
    standard: int,
    daylight: Option<int>,
    i: nat,
    n: nat,
)
    requires
        first_restricted(admitted, zones, standard, daylight, i) is Some,
        i <= n,
    ensures
        first_restricted(admitted, zones, standard, daylight, n) == first_restricted(admitted, zones, standard, daylight, i),
    decreases n - i,
{
    if i < n {
        lemma_first_restricted_stays(admitted, zones, standard, daylight, i, (n - 1) as nat);
    }
}

proof fn lemma_first_open_stays(zones: Seq<TimeZoneDefinition>, standard: int, daylight: Option<int>, i: nat, n: nat)
    requires
        first_open(zones, standard, daylight, i) is Some,
        i <= n,
    ensures
        first_open(zones, standard, daylight, n) == first_open(zones, standard, daylight, i),
    decreases n - i,
{
    if i < n {
        lemma_first_open_stays(zones, standard, daylight, i, (n - 1) as nat);
    }
}

proof fn lemma_choice_in_range(admitted: Seq<bool>, zones: Seq<TimeZoneDefinition>, standard: int, daylight: Option<int>, n: nat)
    ensures
        first_restricted(admitted, zones, standard, daylight, n) matches Some(i) ==> 0 <= i < n,
        first_open(zones, standard, daylight, n) matches Some(i) ==> 0 <= i < n,
    decreases n,
{
    if n > 0 {
        lemma_choice_in_range(admitted, zones, standard, daylight, (n - 1) as nat);
    }
}

/// Chooses the definition for a record, given for each definition whether its
/// pattern admitted the record's code.
pub fn select_time_zone(
    admitted: &Vec<bool>,
    zones: &Vec<TimeZoneDefinition>,
    standard: i8,
    daylight: Option<i8>,
) -> (r: Option<usize>)
    requires
        admitted@.len() == zones@.len(),
    ensures
        opt_index(r) == zone_choice(admitted@, zones@, standard as int, opt_int(daylight)),
{
    let ghost s = standard as int;
    let ghost d = opt_int(daylight);
    let mut i: usize = 0;
    while i < zones.len()
        invariant
            i <= zones.len(),
            admitted@.len() == zones@.len(),
            s == standard as int,
            d == opt_int(daylight),
            first_restricted(admitted@, zones@, s, d, i as nat) is None,
        decreases zones.len() - i,
    {
        let z = &zones[i];
        if z.icao_match.is_some() && admitted[i] && z.utc_standard == standard && z.utc_daylight == daylight {
            proof {
                assert(restricted_fit(admitted@, zones@, i as int, s, d));
                lemma_first_restricted_stays(admitted@, zones@, s, d, (i + 1) as nat, zones@.len());
            }
            return Some(i);
        }
        proof {
            assert(!restricted_fit(admitted@, zones@, i as int, s, d));
        }
        i = i + 1;
    }
    let mut k: usize = 0;
    while k < zones.len()
        invariant
            k <= zones.len(),
            s == standard as int,
            d == opt_int(daylight),
            first_restricted(admitted@, zones@, s, d, zones@.len()) is None,
            first_open(zones@, s, d, k as nat) is None,
        decreases zones.len() - k,
    {
        let z = &zones[k];
        if z.icao_match.is_none() && z.utc_standard == standard && z.utc_daylight == daylight {
            proof {
                assert(open_fit(zones@, k as int, s, d));
                lemma_first_open_stays(zones@, s, d, (k + 1) as nat, zones@.len());
            }
            return Some(k);
        }
        proof {
            assert(!open_fit(zones@, k as int, s, d));
        }
        k = k + 1;
    }
    None
}

/// Chooses the definition for a record (see `zone_choice`): a restricted
/// definition counts only where its pattern matches the code.
pub fn resolve_time_zone(zones: &Vec<TimeZoneDefinition>, record: &OffsetRecord) -> (r: Option<usize>)
    ensures
        opt_index(r) == zone_choice(
            admitted_of(zones@, record.icao@),
            zones@,
            record.utc_standard as int,
            opt_int(record.utc_daylight),
        ),
{
    let mut admitted: Vec<bool> = Vec::new();
    let mut i: usize = 0;
    while i < zones.len()
        invariant
            i <= zones.len(),
            admitted@ == admitted_of(zones@, record.icao@).take(i as int),
        decreases zones.len() - i,
    {
        let ok = match &zones[i].icao_match {
            Some(re) => re.is_match(record.icao.as_str()),
            None => true,
        };
        admitted.push(ok);
        i = i + 1;
        assert(admitted@ =~= admitted_of(zones@, record.icao@).take(i as int));
    }
    assert(admitted@ =~= admitted_of(zones@, record.icao@));
    select_time_zone(&admitted, zones, record.utc_standard, record.utc_daylight)
}

/// The text that stands for a zone in an output line: its identifier, or "?".
pub open spec fn zone_text(zone: Option<Seq<char>>) -> Seq<char> {
    match zone {
        Some(z) => z,
        None => seq!['?'],
    }
}

/// The output line of a record: the code, a space, and the zone or "?".
pub fn record_line(icao: &str, zone: Option<&str>) -> (r: String)
    ensures
        r@ == icao@ + seq![' '] + zone_text(
            match zone {
                Some(z) => Some(z@),
                None => None,
            },
        ),
{
    let mut r = String::from_str(icao);
    crate::text::push_char(&mut r, ' ');
    match zone {
        Some(z) => r.append(z),
        None => crate::text::push_char(&mut r, '?'),
    }
    r
}

/// The output line of a record: its code, a space, and the identifier of the
/// chosen definition (see `zone_choice`), or "?" where none is chosen.
pub open spec fn record_text(zones: Seq<TimeZoneDefinition>, icao: Seq<char>, standard: int, daylight: Option<int>) -> Seq<char> {
    icao + seq![' '] + zone_text(
        match zone_choice(admitted_of(zones, icao), zones, standard, daylight) {
            Some(i) => Some(zones[i].iana@),
            None => None,
        },
    )
}

/// The output line of a record, with the zone that `resolve_time_zone` chooses.
pub fn describe_record(zones: &Vec<TimeZoneDefinition>, record: &OffsetRecord) -> (r: String)
    ensures
        r@ == record_text(zones@, record.icao@, record.utc_standard as int, opt_int(record.utc_daylight)),
{
    let c = resolve_time_zone(zones, record);
    proof {
        lemma_choice_in_range(
            admitted_of(zones@, record.icao@),
            zones@,
            record.utc_standard as int,
            opt_int(record.utc_daylight),
            zones@.len(),
        );
    }
    match c {
        Some(i) => record_line(record.icao.as_str(), Some(zones[i].iana.as_str())),
        None => record_line(record.icao.as_str(), None),
    }
}

/// Relies on `regex::Regex::captures` and `Captures::iter`: the groups of the
/// leftmost match of the matcher's expression, which is `ICAO_AND_UTC`.
#[verifier::external_body]
fn line_captures(m: &LineMatcher, line: &str) -> (r: Option<Vec<Option<String>>>)
    ensures
        groups_outcome(r) == icao_utc_captures(line@),
{
    m.re.captures(line).map(|c| c.iter().map(|g| g.map(|g| g.as_str().to_string())).collect())
}

/// The output of one line: nothing without a record, else its record's line.
pub open spec fn line_output(zones: Seq<TimeZoneDefinition>, line: Seq<char>) -> Result<Option<Seq<char>>, DocumentError> {
    match line_record(line) {
        Err(e) => Err(e),
        Ok(None) => Ok(None),
        Ok(Some(m)) => Ok(Some(record_text(zones, m.0, m.1, m.2))),
    }
}

/// The output of the lines in order; the first error ends it.
pub open spec fn lines_output(zones: Seq<TimeZoneDefinition>, lines: Seq<Seq<char>>) -> Result<Seq<Seq<char>>, DocumentError>
    decreases lines.len(),
{
    if lines.len() == 0 {
        Ok(Seq::empty())
    } else {
        match lines_output(zones, lines.drop_last()) {
            Err(e) => Err(e),
            Ok(p) => match line_output(zones, lines.last()) {
                Err(e) => Err(e),
                Ok(None) => Ok(p),
                Ok(Some(t)) => Ok(p.push(t)),
            },
        }
    }
}

pub open spec fn strings_view(v: Seq<String>) -> Seq<Seq<char>> {
    v.map_values(|s: String| s@)
}

pub open spec fn strings_outcome(r: Result<Vec<String>, DocumentError>) -> Result<Seq<Seq<char>>, DocumentError> {
    match r {
        Ok(v) => Ok(strings_view(v@)),
        Err(e) => Err(e),
    }
}

proof fn lemma_lines_output_fail_onwards(zones: Seq<TimeZoneDefinition>, lines: Seq<Seq<char>>, i: int)
    requires
        0 <= i <= lines.len(),
        lines_output(zones, lines.take(i)) is Err,
    ensures
        lines_output(zones, lines) == lines_output(zones, lines.take(i)),
    decreases lines.len() - i,
{
    if i < lines.len() {
        assert(lines.take(i + 1).drop_last() =~= lines.take(i));
        lemma_lines_output_fail_onwards(zones, lines, i + 1);
    } else {
        assert(lines.take(i) =~= lines);
    }
}

/// The line pattern, compiled.
pub struct LineMatcher {
    re: regex::Regex,
}

impl LineMatcher {
    /// Compiles `ICAO_AND_UTC`.
    pub fn new() -> Option<LineMatcher> {
        match compile_regex(ICAO_AND_UTC) {
            Ok(re) => Some(LineMatcher { re }),
            Err(_) => None,
        }
    }

    /// The groups of the leftmost match in `line`, if the pattern matches.
    pub fn groups(&self, line: &str) -> (r: Option<Vec<Option<String>>>)
        ensures
            groups_outcome(r) == icao_utc_captures(line@),
    {
        line_captures(self, line)
    }

    /// The record on a line: none where the pattern does not match, else what
    /// `record_from_groups` makes of the match.
    pub fn extract(&self, line: &str) -> (r: Result<Option<OffsetRecord>, DocumentError>)
        ensures
            record_outcome(r) == line_record(line@),
    {
        match self.groups(line) {
            None => Ok(None),
            Some(g) => record_from_groups(&g),
        }
    }

    /// The output lines for the records on `lines`, in order: one for each
    /// line with a record (see `describe_record`), none for the others. An
    /// offset that is no signed byte aborts.
    pub fn records(&self, zones: &Vec<TimeZoneDefinition>, lines: &Vec<String>) -> (r: Result<Vec<String>, DocumentError>)
        ensures
            strings_outcome(r) == lines_output(zones@, strings_view(lines@)),
    {
        let ghost lv = strings_view(lines@);
        let mut out: Vec<String> = Vec::new();
        let mut i: usize = 0;
        assert(lv.take(0) =~= Seq::<Seq<char>>::empty());
        assert(strings_view(out@) =~= Seq::<Seq<char>>::empty());
        while i < lines.len()
            invariant
                i <= lines.len(),
                lv == strings_view(lines@),
                lines_output(zones@, lv.take(i as int)) == Ok::<Seq<Seq<char>>, DocumentError>(strings_view(out@)),
            decreases lines.len() - i,
        {
            proof {
                assert(lv.take(i + 1).drop_last() =~= lv.take(i as int));
                assert(lv.take(i + 1).last() == lines@[i as int]@);
            }
            match self.extract(lines[i].as_str()) {
                Err(e) => {
                    proof {
                        lemma_lines_output_fail_onwards(zones@, lv, i + 1);
                        assert(lv.take(lv.len() as int) =~= lv);
                    }
                    return Err(e);
                },
                Ok(None) => {
                    assert(line_output(zones@, lv.take(i + 1).last()) == Ok::<Option<Seq<char>>, DocumentError>(None));
                },
                Ok(Some(record)) => {
                    let t = describe_record(zones, &record);
                    let ghost before = out@;
                    out.push(t);
                    assert(line_output(zones@, lv.take(i + 1).last()) == Ok::<Option<Seq<char>>, DocumentError>(Some(t@)));
                    assert(strings_view(out@) =~= strings_view(before).push(t@));
                },
            }
            i = i + 1;
        }
        assert(lv.take(lv.len() as int) =~= lv);
        Ok(out)
    }
}

} // verus!
