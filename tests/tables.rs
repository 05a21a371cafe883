use tzextract::decode::{font_decode, BaseEncoding, FontEncoding, FontInfo};
use tzextract::tables::{parse_encoding_table, parse_line, TableError};

const SAMPLE: &str = "## char\tname\tstd\tmac\twin\tpdf\tsym\n\
A\tA\t101\t101\t101\t101\t101\n\
U+00C4\tAdieresis\t-\t200\t304\t304\t-\r\n\
U+2022\tbullet\t267\t245\t225\t200\t-\n\
U+03B1\talpha\t-\t-\t-\t-\t141\n\
short line\n";

#[test]
fn table_columns_fill_their_encodings() {
    let t = parse_encoding_table(SAMPLE).unwrap();
    assert_eq!(t.standard.len(), 256);
    assert_eq!(t.standard[0o101], Some('A'));
    assert_eq!(t.standard[0o267], Some('\u{2022}'));
    assert_eq!(t.standard[0o200], None);
    assert_eq!(t.mac_roman[0o200], Some('\u{c4}'));
    assert_eq!(t.win_ansi[0o304], Some('\u{c4}'));
    assert_eq!(t.symbol[0o141], Some('\u{3b1}'));
    assert_eq!(t.names.len(), 4);
    assert_eq!(t.names[3], ("bullet".to_string(), '\u{2022}'));
    assert_eq!(t.names[2], ("alpha".to_string(), '\u{3b1}'));
}

#[test]
fn table_drives_the_decoder() {
    let t = parse_encoding_table(SAMPLE).unwrap();
    let font = FontInfo {
        to_unicode: None,
        encoding: Some(FontEncoding { base: BaseEncoding::WinAnsi, differences: vec![(0x41, "alpha".to_string())] }),
    };
    assert_eq!(font_decode(Some(&font), &vec![0x41, 0o225, 0o304], &t), Ok(Some("\u{3b1}\u{2022}\u{c4}".to_string())));
}

#[test]
fn table_line_errors() {
    let bad_code: Vec<char> = "A\tA\t401\t-\t-\t-\t-".chars().collect();
    assert_eq!(parse_line(&bad_code).unwrap_err(), TableError::BadCode);
    let bad_digit: Vec<char> = "A\tA\t18\t-\t-\t-\t-".chars().collect();
    assert_eq!(parse_line(&bad_digit).unwrap_err(), TableError::BadCode);
    let bad_char: Vec<char> = "AB\tA\t-\t-\t-\t-\t-".chars().collect();
    assert_eq!(parse_line(&bad_char).unwrap_err(), TableError::BadCharacter);
    let surrogate: Vec<char> = "U+D800\tx\t-\t-\t-\t-\t-".chars().collect();
    assert_eq!(parse_line(&surrogate).unwrap_err(), TableError::BadCharacter);
    assert_eq!(parse_encoding_table("A\tA\t9\t-\t-\t-\t-\n").unwrap_err(), TableError::BadCode);
}

#[test]
fn table_line_without_seven_fields_is_skipped() {
    let short: Vec<char> = "A\tA\t101".chars().collect();
    assert!(parse_line(&short).unwrap().is_none());
    let comment: Vec<char> = "##\tA\t101\t-\t-\t-\t-".chars().collect();
    assert!(parse_line(&comment).unwrap().is_none());
}

#[test]
fn table_names_one_per_character_greatest_wins() {
    let text = "B\tsecond\t102\t-\t-\t-\t-\nA\tfirst\t101\t-\t-\t-\t-\nA\tshared\t101\t-\t-\t-\t-\nB\tshared\t102\t-\t-\t-\t-\n";
    let t = parse_encoding_table(text).unwrap();
    assert_eq!(t.names, vec![("shared".to_string(), 'A'), ("shared".to_string(), 'B')]);
    let font = FontInfo {
        to_unicode: None,
        encoding: Some(FontEncoding { base: BaseEncoding::Standard, differences: vec![(0x5a, "shared".to_string())] }),
    };
    assert_eq!(font_decode(Some(&font), &vec![0x5a], &t), Ok(Some("B".to_string())));
}
