use tzextract::decode::{font_decode, BaseEncoding, EncodingTables, FontEncoding, FontInfo};
use tzextract::error::DocumentError;

fn ascii_table() -> Vec<Option<char>> {
    (0u32..256).map(|b| if (32..127).contains(&b) { char::from_u32(b) } else { None }).collect()
}

fn tables() -> EncodingTables {
    let mut symbol = vec![None; 256];
    symbol[0x61] = Some('\u{3b1}');
    EncodingTables {
        standard: ascii_table(),
        symbol,
        mac_roman: ascii_table(),
        win_ansi: ascii_table(),
        names: vec![("bullet".to_string(), '\u{2022}'), ("Adieresis".to_string(), '\u{c4}')],
    }
}

fn encoded(base: BaseEncoding, differences: Vec<(u32, &str)>) -> FontInfo {
    FontInfo {
        to_unicode: None,
        encoding: Some(FontEncoding {
            base,
            differences: differences.into_iter().map(|(c, n)| (c, n.to_string())).collect(),
        }),
    }
}

#[test]
fn no_font_gives_no_text() {
    assert_eq!(font_decode(None, &b"abc".to_vec(), &tables()), Ok(None));
}

#[test]
fn direct_map_reads_two_byte_codes() {
    let font = FontInfo {
        to_unicode: Some(vec![(0x0041, "K".to_string()), (0x0102, "SF".to_string())]),
        encoding: None,
    };
    let r = font_decode(Some(&font), &vec![0x00, 0x41, 0x01, 0x02, 0x00, 0x41], &tables());
    assert_eq!(r, Ok(Some("KSFK".to_string())));
}

#[test]
fn direct_map_unknown_code_fails() {
    let font = FontInfo { to_unicode: Some(vec![(0x0041, "K".to_string())]), encoding: None };
    let r = font_decode(Some(&font), &vec![0x00, 0x41, 0x00, 0x42], &tables());
    assert_eq!(r, Err(DocumentError::UnmappableCode));
}

#[test]
fn direct_map_odd_length_fails() {
    let font = FontInfo { to_unicode: Some(vec![(0x0041, "K".to_string())]), encoding: None };
    let r = font_decode(Some(&font), &vec![0x00, 0x41, 0x00], &tables());
    assert_eq!(r, Err(DocumentError::UnmappableCode));
}

#[test]
fn direct_map_wins_over_encoding() {
    let font = FontInfo {
        to_unicode: Some(vec![(0x4142, "x".to_string())]),
        encoding: Some(FontEncoding { base: BaseEncoding::WinAnsi, differences: vec![] }),
    };
    assert_eq!(font_decode(Some(&font), &b"AB".to_vec(), &tables()), Ok(Some("x".to_string())));
}

#[test]
fn base_encoding_drops_unmapped_bytes() {
    let font = encoded(BaseEncoding::WinAnsi, vec![]);
    let r = font_decode(Some(&font), &vec![b'U', 0x01, b'T', 0xff, b'C'], &tables());
    assert_eq!(r, Ok(Some("UTC".to_string())));
}

#[test]
fn each_base_encoding_has_its_table() {
    let font = encoded(BaseEncoding::Symbol, vec![]);
    assert_eq!(font_decode(Some(&font), &b"ab".to_vec(), &tables()), Ok(Some("\u{3b1}".to_string())));
}

#[test]
fn override_replaces_base_entry() {
    let font = encoded(BaseEncoding::Standard, vec![(0x41, "bullet")]);
    assert_eq!(font_decode(Some(&font), &b"AB".to_vec(), &tables()), Ok(Some("\u{2022}B".to_string())));
}

#[test]
fn override_with_unknown_name_is_ignored() {
    let font = encoded(BaseEncoding::Standard, vec![(0x41, "nosuchglyph")]);
    assert_eq!(font_decode(Some(&font), &b"AB".to_vec(), &tables()), Ok(Some("AB".to_string())));
}

#[test]
fn later_override_of_a_byte_wins() {
    let font = encoded(BaseEncoding::Standard, vec![(0x41, "bullet"), (0x41, "Adieresis")]);
    assert_eq!(font_decode(Some(&font), &b"A".to_vec(), &tables()), Ok(Some("\u{c4}".to_string())));
}

#[test]
fn overrides_of_different_bytes_commute() {
    let one = encoded(BaseEncoding::Standard, vec![(0x41, "bullet"), (0x42, "Adieresis")]);
    let two = encoded(BaseEncoding::Standard, vec![(0x42, "Adieresis"), (0x41, "bullet")]);
    let t = tables();
    assert_eq!(font_decode(Some(&one), &b"ABC".to_vec(), &t), font_decode(Some(&two), &b"ABC".to_vec(), &t));
}

#[test]
fn decoding_is_deterministic() {
    let font = encoded(BaseEncoding::MacRoman, vec![(0x20, "bullet")]);
    let t = tables();
    let bytes = b"KSFO UTC".to_vec();
    assert_eq!(font_decode(Some(&font), &bytes, &t), font_decode(Some(&font), &bytes, &t));
}

#[test]
fn unsupported_encoding_gives_no_text() {
    let font = encoded(BaseEncoding::Unsupported, vec![]);
    assert_eq!(font_decode(Some(&font), &b"A".to_vec(), &tables()), Ok(None));
    let bare = FontInfo { to_unicode: None, encoding: None };
    assert_eq!(font_decode(Some(&bare), &b"A".to_vec(), &tables()), Ok(None));
}

#[test]
fn overrides_in_any_order_give_the_same_text() {
    let t = tables();
    let a = encoded(BaseEncoding::Standard, vec![(0x41, "bullet"), (0x42, "Adieresis"), (0x43, "nosuch")]);
    let b = encoded(BaseEncoding::Standard, vec![(0x43, "nosuch"), (0x41, "bullet"), (0x42, "Adieresis")]);
    let bytes = b"ABCD".to_vec();
    assert_eq!(font_decode(Some(&a), &bytes, &t), Ok(Some("\u{2022}\u{c4}CD".to_string())));
    assert_eq!(font_decode(Some(&a), &bytes, &t), font_decode(Some(&b), &bytes, &t));
}
