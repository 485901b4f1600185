use bot_core::stream_config::{
    build_endpoints, check_start_inputs, endpoint, endpoint_from_lower, parse_coins, parse_stream_codes,
    parse_stream_names, stream_name, InputText, StreamKind,
};

fn strings(names: &[&str]) -> Vec<String> {
    names.iter().map(|s| s.to_string()).collect()
}

#[test]
fn coins_are_trimmed_and_split() {
    assert_eq!(parse_coins(" btcusdt , ethusdt \n"), strings(&["btcusdt", "ethusdt"]));
    assert_eq!(parse_coins("BTCUSDT"), strings(&["BTCUSDT"]));
    assert_eq!(parse_coins("a,,b,"), strings(&["a", "", "b", ""]));
    assert_eq!(parse_coins("   "), strings(&[""]));
    assert_eq!(parse_coins("\u{a0}xrp\u{3000},\tada"), strings(&["xrp", "ada"]));
}

#[test]
fn stream_codes_are_named() {
    assert_eq!(
        parse_stream_names("1, 2,3 ,4, 9, x, +1, 01, -1"),
        strings(&[
            "arr",
            "kline_1m",
            "depth",
            "bookTicker",
            "Unknown stream type",
            "Unknown stream type",
            "arr",
            "arr",
            "Unknown stream type",
        ])
    );
    assert_eq!(parse_stream_names(""), strings(&["Unknown stream type"]));
    assert_eq!(stream_name(Some(4)), "bookTicker");
    assert_eq!(stream_name(None), "Unknown stream type");
}

#[test]
fn stream_codes_skip_what_does_not_parse() {
    assert_eq!(parse_stream_codes("1, x, 3, -2, 99999999999, 4"), vec![1, 3, -2, 4]);
    assert_eq!(parse_stream_codes(" 2147483647,-2147483648,2147483648"), vec![2147483647, -2147483648]);
    assert_eq!(parse_stream_codes(""), Vec::<i32>::new());
}

#[test]
fn stream_kinds_of_codes() {
    assert_eq!(StreamKind::from_code(1), Some(StreamKind::AggTrade));
    assert_eq!(StreamKind::from_code(2), Some(StreamKind::Kline));
    assert_eq!(StreamKind::from_code(3), Some(StreamKind::DepthOrderBook));
    assert_eq!(StreamKind::from_code(4), Some(StreamKind::BookTicker));
    assert_eq!(StreamKind::from_code(0), None);
    assert_eq!(StreamKind::from_code(5), None);
}

#[test]
fn endpoints_pair_every_coin_with_every_stream() {
    let coins = strings(&["BTCUSDT", "eth"]);
    let streams = strings(&["arr", "kline_1m", "depth"]);
    assert_eq!(
        build_endpoints(&coins, &streams),
        strings(&[
            "!ticker@arr",
            "btcusdt@kline_1m",
            "btcusdt@depth",
            "!ticker@arr",
            "eth@kline_1m",
            "eth@depth",
        ])
    );
    assert_eq!(build_endpoints(&Vec::new(), &streams), Vec::<String>::new());
}

#[test]
fn endpoint_lowercases_the_coin() {
    assert_eq!(endpoint("ÄBC", "bookTicker"), "äbc@bookTicker");
    assert_eq!(endpoint("x@ARR", "depth"), "!ticker@arr");
    assert_eq!(endpoint("btc", "Unknown stream type"), "btc@Unknown stream type");
}

#[test]
fn start_inputs_are_checked_in_order() {
    let t = |s: &str| InputText::Text(s.to_string());
    assert_eq!(
        check_start_inputs(InputText::Null, InputText::NotUtf8, false),
        Err("One of the input pointers is null".to_string())
    );
    assert_eq!(
        check_start_inputs(t("btc"), InputText::Null, true),
        Err("One of the input pointers is null".to_string())
    );
    assert_eq!(
        check_start_inputs(InputText::NotUtf8, t("1"), true),
        Err("Invalid UTF-8 strings".to_string())
    );
    assert_eq!(check_start_inputs(t("btc"), t("1"), false), Err("Callback function is null".to_string()));
    assert_eq!(check_start_inputs(t("btc"), t("1,2"), true), Ok(("btc".to_string(), "1,2".to_string())));
}

#[test]
fn endpoint_of_a_lower_case_coin() {
    assert_eq!(endpoint_from_lower("btcusdt", "depth"), "btcusdt@depth");
    assert_eq!(endpoint_from_lower("BTC", "depth"), "BTC@depth");
    assert_eq!(endpoint_from_lower("btcusdt", "arr"), "!ticker@arr");
    assert_eq!(endpoint_from_lower("", "arr"), "!ticker@arr");
}
