use bot_core::market::uppercase_all;
use bot_core::stream_config::{endpoint, parse_stream_codes};
use bot_core::text::{contains_text, split_text, text_concat, text_with_number, trim_text};

#[test]
fn decimal_rendering() {
    assert_eq!(text_with_number("", 0, ""), "0");
    assert_eq!(text_with_number("n=", -42, "."), "n=-42.");
    assert_eq!(text_with_number("", i64::MIN, ""), "-9223372036854775808");
    assert_eq!(text_with_number("User ", 17, " not found"), "User 17 not found");
    assert_eq!(text_concat("a", "bc"), "abc");
}

#[test]
fn whitespace_and_trimming() {
    assert_eq!(trim_text("  a b \t"), "a b");
    assert_eq!(trim_text(" \n "), "");
    assert_eq!(trim_text("\u{2003}é\u{2028}"), "é");
    assert_eq!(trim_text("\u{200b}x\u{200b}"), "\u{200b}x\u{200b}");
    assert_eq!(trim_text("x"), "x");
}

#[test]
fn splitting() {
    assert_eq!(split_text("a,b,,c", ','), vec!["a", "b", "", "c"]);
    assert_eq!(split_text("", ','), vec![""]);
    assert_eq!(split_text(",", ','), vec!["", ""]);
    assert_eq!(split_text("ä;ö", ';'), vec!["ä", "ö"]);
}

#[test]
fn substring_search() {
    assert!(contains_text("btc@arr", "@arr"));
    assert!(!contains_text("btc@ar", "@arr"));
    assert!(contains_text("anything", ""));
    assert!(!contains_text("", "x"));
    assert!(contains_text("ééx", "éx"));
}

#[test]
fn case_mapping() {
    assert_eq!(endpoint("BtcUSDT", "depth"), "btcusdt@depth");
    let upper = uppercase_all(&vec!["btcusdt".to_string(), "ß".to_string()]);
    assert_eq!(upper, vec!["BTCUSDT".to_string(), "SS".to_string()]);
}

#[test]
fn integer_parsing() {
    assert_eq!(parse_stream_codes("42,+7,-0012"), vec![42, 7, -12]);
    assert_eq!(parse_stream_codes("-"), Vec::<i32>::new());
    assert_eq!(parse_stream_codes("1 2"), Vec::<i32>::new());
    assert_eq!(parse_stream_codes("2147483648,-2147483648"), vec![i32::MIN]);
}
