use fitslook::card::{parse_header_card, parse_value_and_comment, HeaderCard};
use fitslook::header_map::HeaderMap;
use fitslook::inspector::{card_line, card_matches};
use fitslook::numbers::{fortran_exponent_as_e, is_float_literal, parse_i32_text, parse_i64_text, parse_usize_text};
use fitslook::text::{decode_bytes, upper_chars};

fn chars(s: &str) -> Vec<char> {
    s.chars().collect()
}

#[test]
fn test_header_card_formatting() {
    let card1 = HeaderCard::new("OBJECT", "'M31'", "Andromeda Galaxy");
    assert_eq!(card1.keyword, "OBJECT");
    assert!(card1.raw.contains("M31"));
    assert!(card1.raw.contains("Andromeda Galaxy"));

    let card2 = HeaderCard::new("HIERARCH ESO DET CHIP1 ID", "'1234'", "Detector ID");
    assert!(card2.raw.starts_with("HIERARCH ESO DET CHIP1 ID"));
}

#[test]
fn format_card_lays_out_a_standard_card() {
    let raw = HeaderCard::format_card("object", "'M31'", "Andromeda Galaxy");
    let expected = format!("{:<80}", "OBJECT  = 'M31'                / Andromeda Galaxy");
    assert_eq!(raw, expected);
    assert_eq!(raw.len(), 80);
}

#[test]
fn format_card_quotes_plain_text_and_keeps_numbers() {
    assert_eq!(
        HeaderCard::format_card("TELESCOP", "Hubble", ""),
        format!("{:<80}", "TELESCOP= 'Hubble'")
    );
    assert_eq!(
        HeaderCard::format_card("EXPTIME", "1.5e3", ""),
        format!("{:<80}", "EXPTIME = 1.5e3")
    );
    assert_eq!(
        HeaderCard::format_card("NAXIS", "-12", ""),
        format!("{:<80}", "NAXIS   = -12")
    );
    assert_eq!(
        HeaderCard::format_card("SIMPLE", "t", ""),
        format!("{:<80}", "SIMPLE  = T")
    );
    assert_eq!(HeaderCard::format_card("EMPTY", "", ""), format!("{:<80}", "EMPTY   = "));
}

#[test]
fn format_card_end_and_commentary() {
    assert_eq!(HeaderCard::format_card(" end ", "x", "y"), format!("{:<80}", "END"));
    assert_eq!(
        HeaderCard::format_card("history", "ignored", "reduced by hand"),
        format!("{:<80}", "HISTORY reduced by hand")
    );
    assert_eq!(
        HeaderCard::format_card("COMMENT", "a value", ""),
        format!("{:<80}", "COMMENT a value")
    );
    assert_eq!(HeaderCard::format_card("", "", ""), " ".repeat(80));
}

#[test]
fn format_card_hierarch_and_long_cards() {
    assert_eq!(
        HeaderCard::format_card("LONGKEYWORD", "3", "c"),
        format!("{:<80}", "HIERARCH LONGKEYWORD = 3 / c")
    );
    let long_comment = "x".repeat(100);
    let raw = HeaderCard::format_card("KEY", "1", &long_comment);
    assert_eq!(raw.len(), 80);
    assert!(raw.starts_with("KEY     = 1                    / xxx"));
}

#[test]
fn format_card_is_80_bytes_with_non_ascii_text() {
    let short = HeaderCard::format_card("OBJECT", "'Zürich'", "");
    assert_eq!(short.len(), 80);
    assert_eq!(short, format!("{:<79}", "OBJECT  = 'Zürich'"));
    let long_comment = "é".repeat(50);
    let raw = HeaderCard::format_card("OBJECT", "'M31'", &long_comment);
    assert_eq!(raw.len(), 80);
    let body = format!("OBJECT  = 'M31'                / {}", "é".repeat(23));
    assert_eq!(raw, format!("{} ", body));
    let history = HeaderCard::format_card("HISTORY", "", &"ü".repeat(60));
    assert_eq!(history.len(), 80);
    assert_eq!(history, format!("HISTORY {}", "ü".repeat(36)));
}

#[test]
fn new_trims_and_uppercases() {
    let c = HeaderCard::new("  naxis1 ", " 10 ", " width ");
    assert_eq!(c.keyword, "NAXIS1");
    assert_eq!(c.value, "10");
    assert_eq!(c.comment, "width");
    assert_eq!(c.raw, HeaderCard::format_card("NAXIS1", "10", "width"));
}

#[test]
fn new_uppercases_beyond_ascii() {
    let c = HeaderCard::new("straße", "1", "");
    assert_eq!(c.keyword, "STRASSE");
}

#[test]
fn parse_reads_back_a_formatted_card() {
    let raw = HeaderCard::format_card("OBJECT", "'Test Obj'", "Original object");
    let c = parse_header_card(&raw).expect("a card");
    assert_eq!(c.keyword, "OBJECT");
    assert_eq!(c.value, "Test Obj");
    assert_eq!(c.comment, "Original object");
    assert_eq!(c.raw, raw);

    let raw = HeaderCard::format_card("NAXIS1", "10", "10 pixels wide");
    let c = parse_header_card(raw.trim_end()).expect("a card");
    assert_eq!(c.keyword, "NAXIS1");
    assert_eq!(c.value, "10");
    assert_eq!(c.comment, "10 pixels wide");
}

#[test]
fn parse_commentary_and_blank_cards() {
    assert!(parse_header_card("").is_none());
    assert!(parse_header_card("      ").is_none());
    assert!(parse_header_card("        = 5").is_none());

    let c = parse_header_card("COMMENT   this is a note").expect("a card");
    assert_eq!(c.keyword, "COMMENT");
    assert_eq!(c.value, "");
    assert_eq!(c.comment, "this is a note");

    let c = parse_header_card("END").expect("a card");
    assert_eq!(c.keyword, "END");
    assert_eq!(c.value, "");
}

#[test]
fn parse_hierarch_cards() {
    let c = parse_header_card("HIERARCH ESO DET CHIP1 ID = '1234' / Detector ID").expect("a card");
    assert_eq!(c.keyword, "HIERARCH ESO DET CHIP1 ID");
    assert_eq!(c.value, "1234");
    assert_eq!(c.comment, "Detector ID");

    let c = parse_header_card("hierarch no value here").expect("a card");
    assert_eq!(c.keyword, "HIERARCH");
    assert_eq!(c.value, "");
    assert_eq!(c.comment, "no value here");
}

#[test]
fn parse_card_without_equals_in_column_nine() {
    let c = parse_header_card("KEY=5 / note").expect("a card");
    assert_eq!(c.keyword, "KEY=5 /");
    assert_eq!(c.value, "5");
    assert_eq!(c.comment, "note");
}

#[test]
fn value_and_comment_respect_quotes() {
    let (v, c) = parse_value_and_comment(" 'a/b' / the comment ");
    assert_eq!(v, "a/b");
    assert_eq!(c, "the comment");

    let (v, c) = parse_value_and_comment("  42  ");
    assert_eq!(v, "42");
    assert_eq!(c, "");

    let (v, c) = parse_value_and_comment("'  padded  '");
    assert_eq!(v, "padded");
    assert_eq!(c, "");

    let (v, c) = parse_value_and_comment("'");
    assert_eq!(v, "'");
    assert_eq!(c, "");
}

#[test]
fn header_map_keeps_the_last_value_of_a_keyword() {
    let mut m = HeaderMap::new();
    assert!(m.is_empty());
    m.insert("OBJECT".to_string(), "M31".to_string());
    m.insert("NAXIS".to_string(), "2".to_string());
    m.insert("OBJECT".to_string(), "M33".to_string());
    assert_eq!(m.len(), 2);
    assert_eq!(m.get("OBJECT"), Some(&"M33".to_string()));
    assert_eq!(m.get("NAXIS"), Some(&"2".to_string()));
    assert_eq!(m.get("BITPIX"), None);
    assert!(m.contains_key("NAXIS"));
    assert!(!m.contains_key("naxis"));
}

#[test]
fn float_literals_follow_rust_syntax() {
    for s in ["1", "-1.5", "+.5", "5.", "1e10", "1.5E-3", "inf", "-Infinity", "NaN"] {
        assert!(is_float_literal(&chars(s)), "{s}");
    }
    for s in ["", ".", "e5", "1e", "1.5.2", "0x10", "1d5", "infinit", " 1"] {
        assert!(!is_float_literal(&chars(s)), "{s}");
    }
}

#[test]
fn integer_texts() {
    assert_eq!(parse_usize_text(&chars("42")), Some(42));
    assert_eq!(parse_usize_text(&chars("+7")), Some(7));
    assert_eq!(parse_usize_text(&chars("-1")), None);
    assert_eq!(parse_usize_text(&chars("")), None);
    assert_eq!(parse_i32_text(&chars("-32")), Some(-32));
    assert_eq!(parse_i32_text(&chars("2147483648")), None);
    assert_eq!(parse_i32_text(&chars("-2147483648")), Some(i32::MIN));
    assert_eq!(parse_i64_text(&chars("-9223372036854775808")), Some(i64::MIN));
    assert_eq!(parse_i64_text(&chars("1.0")), None);
}

#[test]
fn text_decoding_and_case() {
    assert_eq!(decode_bytes(b"AB c"), chars("AB c"));
    assert_eq!(decode_bytes(&[0x41, 0xff, 0x42]), chars("A\u{fffd}B"));
    assert_eq!(upper_chars(&chars("abc")), chars("ABC"));
    assert_eq!(upper_chars(&chars("ß")), chars("SS"));
}

#[test]
fn inspector_search_and_lines() {
    let c = HeaderCard::new("OBJECT", "'M31'", "Andromeda Galaxy");
    assert!(card_matches(&c, ""));
    assert!(card_matches(&c, " obj "));
    assert!(card_matches(&c, "m31"));
    assert!(card_matches(&c, "galaxy"));
    assert!(!card_matches(&c, "naxis"));
    let end = HeaderCard::new("END", "", "");
    assert!(!card_matches(&end, ""));
    assert_eq!(card_line(&c), format!("{:<8} = {:<16} / {}", "OBJECT", "'M31'", "Andromeda Galaxy"));
    let n = HeaderCard::new("NAXIS", "2", "");
    assert_eq!(card_line(&n), format!("{:<8} = {:<16}", "NAXIS", "2"));
    let h = HeaderCard::new("HISTORY", "", "reduced");
    assert_eq!(card_line(&h), format!("{:<8} {}", "HISTORY", "reduced"));
}

#[test]
fn cards_with_non_ascii_keywords() {
    let c = parse_header_card("ÉTÉ     = 5").expect("a card");
    assert_eq!(c.keyword, "ÉTÉ");
    assert_eq!(c.value, "5");
    assert_eq!(parse_header_card("é       = 1").expect("a card").keyword, "É");
    assert!(parse_header_card("        é=1").is_none());
}

#[test]
fn fortran_exponents() {
    assert_eq!(fortran_exponent_as_e("1.5D3"), "1.5E3");
    assert_eq!(fortran_exponent_as_e("-2d-1"), "-2e-1");
    assert_eq!(fortran_exponent_as_e("42"), "42");
}
