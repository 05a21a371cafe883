use tzextract::chapter::{directory_page_range, title_ends_with};
use tzextract::content::{page_lines, replay_page, TextOp};
use tzextract::decode::{BaseEncoding, EncodingTables, FontEncoding, FontInfo};
use tzextract::error::DocumentError;
use tzextract::geometry::{Matrix2D, NoNonsenseF32};
use tzextract::outline::{get_destination_pages, get_top_level_bookmarks, NamedDestination, OutlineAction, OutlineEntry};
use tzextract::pages::{get_page_references, ObjectRef, PageNode};
use tzextract::zones::{
    describe_record, record_from_groups, record_line, resolve_time_zone, select_time_zone, LineMatcher,
    OffsetRecord, SerializableRegex, TimeZoneDefinition,
};

fn s(v: f32) -> NoNonsenseF32 {
    NoNonsenseF32::from_bits(v.to_bits()).unwrap()
}

fn at(x: f32, y: f32) -> TextOp {
    TextOp::SetTextMatrix(Matrix2D::from_text_matrix(s(1.0), s(0.0), s(0.0), s(1.0), s(x), s(y)))
}

fn draw(t: &str) -> TextOp {
    TextOp::Draw(t.as_bytes().to_vec())
}

fn ascii_table() -> Vec<Option<char>> {
    (0u32..256).map(|b| if (32..127).contains(&b) { char::from_u32(b) } else { None }).collect()
}

fn tables() -> EncodingTables {
    EncodingTables {
        standard: ascii_table(),
        symbol: vec![None; 256],
        mac_roman: ascii_table(),
        win_ansi: ascii_table(),
        names: vec![],
    }
}

fn fonts() -> Vec<(String, FontInfo)> {
    vec![(
        "F1".to_string(),
        FontInfo { to_unicode: None, encoding: Some(FontEncoding { base: BaseEncoding::WinAnsi, differences: vec![] }) },
    )]
}

fn zone(pattern: Option<&str>, iana: &str, standard: i8, daylight: Option<i8>) -> TimeZoneDefinition {
    TimeZoneDefinition {
        icao_match: pattern.map(|p| SerializableRegex::new(p).unwrap()),
        iana: iana.to_string(),
        utc_standard: standard,
        utc_daylight: daylight,
    }
}

fn groups(g: &[Option<&str>]) -> Vec<Option<String>> {
    g.iter().map(|o| o.map(|t| t.to_string())).collect()
}

#[test]
fn lines_join_fragments_by_row_in_order_of_x() {
    let ops = vec![
        TextOp::BeginText,
        TextOp::SetFont("F1".to_string()),
        at(200.0, 700.0),
        draw("UTC-8(7DT)"),
        at(10.0, 700.0),
        draw("(KSFO) "),
        at(10.0, 650.0),
        draw("next"),
        at(60.0, 700.0),
        draw("SAN FRANCISCO "),
        at(10.0, 650.0),
        draw(" line"),
        TextOp::EndText,
        draw("dropped"),
    ];
    let lines = page_lines(&ops, &fonts(), &tables()).unwrap();
    assert_eq!(lines, vec!["(KSFO) SAN FRANCISCO UTC-8(7DT)".to_string(), "next line".to_string()]);
}

#[test]
fn begin_text_anchors_at_origin_and_adjusted_draws_share_it() {
    let ops = vec![
        TextOp::BeginText,
        TextOp::SetFont("F1".to_string()),
        TextOp::DrawAdjusted(vec![b"AB".to_vec(), b"CD".to_vec()]),
        TextOp::Other,
    ];
    let acc = replay_page(&ops, &fonts(), &tables()).unwrap();
    assert_eq!(acc.len(), 1);
    assert_eq!(acc[0].1, "ABCD");
    assert_eq!(acc[0].0.x.key(), 0);
    assert_eq!(acc[0].0.y.key(), 0);
}

#[test]
fn drawing_without_font_gives_nothing() {
    let ops = vec![TextOp::BeginText, draw("lost")];
    assert_eq!(page_lines(&ops, &fonts(), &tables()).unwrap(), Vec::<String>::new());
}

#[test]
fn unknown_font_aborts() {
    let ops = vec![TextOp::BeginText, TextOp::SetFont("F9".to_string())];
    assert_eq!(page_lines(&ops, &fonts(), &tables()).unwrap_err(), DocumentError::UnknownFont);
}

#[test]
fn line_without_pattern_gives_no_record() {
    let m = LineMatcher::new().unwrap();
    assert_eq!(m.extract("SAN FRANCISCO INTL"), Ok(None));
    assert_eq!(m.extract("(KSFO) no offset here"), Ok(None));
}

#[test]
fn line_with_daylight_correction() {
    let m = LineMatcher::new().unwrap();
    let rec = m.extract("(KSFO) SAN FRANCISCO UTC-8(7DT)").unwrap().unwrap();
    assert_eq!(rec, OffsetRecord { icao: "KSFO".to_string(), utc_standard: -8, utc_daylight: Some(-7) });
}

#[test]
fn line_with_reversed_daylight() {
    let m = LineMatcher::new().unwrap();
    let rec = m.extract("(KDEN) DENVER UTC \u{2013}7(6\u{2013}DT)").unwrap().unwrap();
    assert_eq!(rec, OffsetRecord { icao: "KDEN".to_string(), utc_standard: -7, utc_daylight: Some(-6) });
}

#[test]
fn line_without_daylight() {
    let m = LineMatcher::new().unwrap();
    let rec = m.extract("(PHNL) HONOLULU UTC-10").unwrap().unwrap();
    assert_eq!(rec, OffsetRecord { icao: "PHNL".to_string(), utc_standard: -10, utc_daylight: None });
}

#[test]
fn groups_make_records() {
    let g = groups(&[Some("x"), Some("KXYZ"), Some("-7"), Some("5"), None]);
    let rec = record_from_groups(&g).unwrap().unwrap();
    assert_eq!((rec.utc_standard, rec.utc_daylight), (-7, Some(-5)));
    let g = groups(&[Some("x"), Some("KXYZ"), Some("-1"), Some("5"), None]);
    assert_eq!(record_from_groups(&g).unwrap().unwrap().utc_daylight, Some(5));
    let g = groups(&[Some("x"), Some("KXYZ"), Some("+3"), None, Some("12-")]);
    assert_eq!(record_from_groups(&g).unwrap().unwrap().utc_daylight, Some(-12));
    let g = groups(&[Some("x"), None, Some("-3"), None, None]);
    assert_eq!(record_from_groups(&g), Ok(None));
    let g = groups(&[Some("x"), Some("KXYZ"), Some("-300"), None, None]);
    assert_eq!(record_from_groups(&g), Err(DocumentError::InvalidOffset));
}

#[test]
fn unmatched_code_prints_question_mark() {
    let zones = vec![zone(None, "America/Los_Angeles", -8, Some(-7))];
    let rec = OffsetRecord { icao: "PHNL".to_string(), utc_standard: -10, utc_daylight: None };
    assert_eq!(describe_record(&zones, &rec), "PHNL ?");
    assert_eq!(record_line("KSFO", None), "KSFO ?");
}

#[test]
fn restricted_definitions_come_first() {
    let zones = vec![
        zone(None, "America/Denver", -7, Some(-6)),
        zone(Some("^KPH"), "America/Phoenix", -7, Some(-6)),
    ];
    let phx = OffsetRecord { icao: "KPHX".to_string(), utc_standard: -7, utc_daylight: Some(-6) };
    let den = OffsetRecord { icao: "KDEN".to_string(), utc_standard: -7, utc_daylight: Some(-6) };
    assert_eq!(resolve_time_zone(&zones, &phx), Some(1));
    assert_eq!(resolve_time_zone(&zones, &den), Some(0));
    assert_eq!(select_time_zone(&vec![false, false], &zones, -7, Some(-6)), Some(0));
    assert_eq!(select_time_zone(&vec![true, true], &zones, -7, None), None);
}

#[test]
fn directory_title_suffix() {
    assert!(title_ends_with("Section 4: AIRPORT/FACILITY DIRECTORY", ": AIRPORT/FACILITY DIRECTORY"));
    assert!(!title_ends_with("AIRPORT/FACILITY DIRECTORY", ": AIRPORT/FACILITY DIRECTORY"));
}

#[test]
fn end_to_end_two_page_document() {
    let p0 = ObjectRef { id: 3, generation: 0 };
    let p1 = ObjectRef { id: 4, generation: 0 };
    let tree = PageNode::Tree(vec![PageNode::Leaf(p0), PageNode::Leaf(p1)]);
    let pages = get_page_references(&tree).unwrap();
    let entries = vec![
        OutlineEntry { title: Some("Section 1: GENERAL".to_string()), dest: Some("general".to_string()), action: OutlineAction::Absent },
        OutlineEntry {
            title: Some("Section 2: AIRPORT/FACILITY DIRECTORY".to_string()),
            dest: None,
            action: OutlineAction::GotoPage(Some(p1)),
        },
    ];
    let bookmarks = get_top_level_bookmarks(&entries);
    let named = vec![NamedDestination { name: "general".to_string(), page: Some(p0) }];
    let table = get_destination_pages(&named, &pages);
    let (start, end) = directory_page_range(&bookmarks, &table, &pages, pages.len() as u32).unwrap();
    assert_eq!((start, end), (1, 2));

    let ops = vec![
        TextOp::BeginText,
        TextOp::SetFont("F1".to_string()),
        at(10.0, 700.0),
        draw("(KSFO) SAN FRANCISCO "),
        at(300.0, 700.0),
        draw("UTC-8(7DT)"),
        TextOp::EndText,
    ];
    let zones = vec![zone(None, "America/Los_Angeles", -8, Some(-7))];
    let matcher = LineMatcher::new().unwrap();
    let lines = page_lines(&ops, &fonts(), &tables()).unwrap();
    assert_eq!(lines, vec!["(KSFO) SAN FRANCISCO UTC-8(7DT)".to_string()]);
    let out = matcher.records(&zones, &lines).unwrap();
    assert_eq!(out, vec!["KSFO America/Los_Angeles".to_string()]);
}

#[test]
fn missing_directory_bookmark_fails() {
    let pages = vec![ObjectRef { id: 1, generation: 0 }];
    let entries = vec![OutlineEntry { title: Some("Other".to_string()), dest: Some("x".to_string()), action: OutlineAction::Absent }];
    let bookmarks = get_top_level_bookmarks(&entries);
    let r = directory_page_range(&bookmarks, &vec![], &pages, 1);
    assert_eq!(r, Err(DocumentError::ResolutionFailure));
}

#[test]
fn records_skip_lines_without_match() {
    let zones = vec![zone(None, "America/Los_Angeles", -8, Some(-7)), zone(Some("^PH"), "Pacific/Honolulu", -10, None)];
    let lines = vec![
        "HEADER".to_string(),
        "(PHNL) HONOLULU UTC-10".to_string(),
        "(KSFO) SAN FRANCISCO UTC-8(7DT)".to_string(),
        "(KDEN) DENVER UTC-7(6DT)".to_string(),
    ];
    let out = LineMatcher::new().unwrap().records(&zones, &lines).unwrap();
    assert_eq!(out, vec!["PHNL Pacific/Honolulu", "KSFO America/Los_Angeles", "KDEN ?"]);
}
