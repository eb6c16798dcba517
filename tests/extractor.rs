use sensor_alert::decimal::Reading;
use sensor_alert::extract::{extract, ExtractError};

fn text_of(page: &str) -> String {
    let r = extract(page).expect("a reading");
    String::from_utf8(r.text()).unwrap()
}

#[test]
fn reads_value_after_marker() {
    assert_eq!(text_of("id=\"s215\">22.7°C"), "22.7");
}

#[test]
fn reads_value_from_html_page() {
    let page = "<html><div class=\"value\" id=\"s215\">22.7&nbsp;°C</div></html>";
    let r = extract(page).unwrap();
    let expected = Reading::parse("22.7").unwrap();
    assert!(!r.exceeds(&expected));
    assert!(!expected.exceeds(&r));
    assert_eq!(String::from_utf8(r.text()).unwrap(), "22.7");
}

#[test]
fn reads_signed_and_partial_forms() {
    assert_eq!(text_of("id=\"s215\">-3.5 C"), "-3.5");
    assert!(extract("id=\"s215\">-3.5").unwrap().is_negative());
    assert_eq!(text_of("id=\"s215\">+4<"), "4");
    assert_eq!(text_of("id=\"s215\">.5"), "0.5");
    assert_eq!(text_of("id=\"s215\">7."), "7");
    assert_eq!(text_of("id=\"s215\">0012.50"), "12.5");
    assert_eq!(text_of("id=\"s215\">30.0"), "30");
    assert_eq!(text_of("id=\"s215\">-0.00"), "0");
}

#[test]
fn empty_page_has_no_pattern() {
    assert_eq!(extract("").unwrap_err(), ExtractError::PatternNotFound);
}

#[test]
fn other_identifier_has_no_pattern() {
    let page = "<div class=\"value\" id=\"s216\">22.7&nbsp;°C</div>";
    assert_eq!(extract(page).unwrap_err(), ExtractError::PatternNotFound);
    assert_eq!(extract("id=\"s215\"22.7").unwrap_err(), ExtractError::PatternNotFound);
}

#[test]
fn non_numeric_body_is_a_parse_error() {
    assert_eq!(extract("id=\"s215\">abc").unwrap_err(), ExtractError::NumberParseError);
    assert_eq!(extract("id=\"s215\">").unwrap_err(), ExtractError::NumberParseError);
    assert_eq!(extract("id=\"s215\">-").unwrap_err(), ExtractError::NumberParseError);
    assert_eq!(extract("id=\"s215\">.").unwrap_err(), ExtractError::NumberParseError);
    assert_eq!(extract("id=\"s215\">+.x").unwrap_err(), ExtractError::NumberParseError);
}

#[test]
fn text_after_the_literal_is_ignored() {
    assert_eq!(text_of("id=\"s215\">1-2"), "1");
    assert_eq!(text_of("id=\"s215\">22.7.5"), "22.7");
    assert_eq!(text_of("id=\"s215\">5+"), "5");
    assert_eq!(text_of("id=\"s215\">20-25"), "20");
    assert_eq!(text_of("id=\"s215\">-.5e3"), "-0.5");
}

#[test]
fn first_marker_with_a_literal_decides() {
    assert_eq!(text_of("id=\"s215\">x id=\"s215\">5"), "5");
    assert_eq!(text_of("id=\"s215\">1 id=\"s215\">2"), "1");
}

#[test]
fn error_descriptions() {
    assert_eq!(ExtractError::PatternNotFound.description(), "Temperature regex failed");
    assert_eq!(ExtractError::NumberParseError.description(), "Cannot parse temperature");
}
