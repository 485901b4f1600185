use bot_core::market::{
    select_tickers, select_tickers_by_names, uppercase_all, MarketSnapshot, Strategy, StreamData,
};

type Snapshot = MarketSnapshot<f64, u32, Vec<(f64, f64)>, String>;
type Data = StreamData<f64, u32, Vec<(f64, f64)>, String>;

#[test]
fn empty_snapshot_runs_nothing() {
    let s: Snapshot = MarketSnapshot::new();
    assert!(s.last_agg_trade.is_none() && s.last_kline.is_none());
    assert!(s.last_order_book.is_none() && s.last_book_ticker.is_none());
    assert_eq!(s.strategies_to_run(), Vec::<Strategy>::new());
}

#[test]
fn messages_fill_the_snapshot() {
    let mut s: Snapshot = MarketSnapshot::new();
    s.apply(Data::AggTrade(101.5));
    s.apply(Data::Kline(7));
    assert_eq!(s.strategies_to_run(), vec![Strategy::MeanReversion]);
    s.apply(Data::BookTicker("BTCUSDT".to_string()));
    assert_eq!(s.strategies_to_run(), vec![Strategy::Momentum, Strategy::MeanReversion]);
    s.apply(Data::DepthOrderBook(vec![(1.0, 2.0)]));
    assert_eq!(
        s.strategies_to_run(),
        vec![Strategy::Momentum, Strategy::MeanReversion, Strategy::OrderBookPressure]
    );
    s.apply(Data::AggTrade(99.0));
    assert_eq!(s.last_agg_trade, Some(99.0));
    assert_eq!(s.last_kline, Some(7));
}

#[test]
fn order_book_pressure_needs_depth_and_ticker() {
    let mut s: Snapshot = MarketSnapshot::new();
    s.apply(Data::DepthOrderBook(vec![]));
    assert_eq!(s.strategies_to_run(), Vec::<Strategy>::new());
    s.apply(Data::BookTicker("X".to_string()));
    assert_eq!(s.strategies_to_run(), vec![Strategy::OrderBookPressure]);
}

#[test]
fn tickers_are_selected_per_matching_coin() {
    let symbols: Vec<String> = ["BTCUSDT", "ETHUSDT", "XRPUSDT"].iter().map(|s| s.to_string()).collect();
    let coins: Vec<String> = ["btcusdt", "xrpusdt", "BtcUsdt"].iter().map(|s| s.to_string()).collect();
    assert_eq!(select_tickers(&symbols, &coins), vec![0, 0, 2]);
    assert_eq!(select_tickers(&symbols, &Vec::new()), Vec::<usize>::new());
    assert_eq!(select_tickers(&Vec::new(), &coins), Vec::<usize>::new());
}

#[test]
fn ticker_selection_by_names() {
    let coins: Vec<String> = ["btcusdt", "Eth"].iter().map(|s| s.to_string()).collect();
    assert_eq!(uppercase_all(&coins), vec!["BTCUSDT".to_string(), "ETH".to_string()]);
    let symbols: Vec<String> = ["ETH", "btcusdt"].iter().map(|s| s.to_string()).collect();
    let names: Vec<String> = ["btcusdt", "ETH", "ETH"].iter().map(|s| s.to_string()).collect();
    assert_eq!(select_tickers_by_names(&symbols, &names), vec![0, 0, 1]);
}

#[test]
fn messages_of_different_kinds_commute() {
    let mut a: Snapshot = MarketSnapshot::new();
    a.apply(Data::Kline(1));
    a.apply(Data::BookTicker("B".to_string()));
    let mut b: Snapshot = MarketSnapshot::new();
    b.apply(Data::BookTicker("B".to_string()));
    b.apply(Data::Kline(1));
    assert_eq!(a.last_kline, b.last_kline);
    assert_eq!(a.last_book_ticker, b.last_book_ticker);
    assert_eq!(a.strategies_to_run(), b.strategies_to_run());
}
