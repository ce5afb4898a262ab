//! Tests of the feed text cleaning and the trading decision type.

use expr_engine::feed::clean_description;
use expr_engine::sanitize_string;
use expr_engine::TradeSignal;

#[test]
fn test_sanitize_string_replacements() {
    assert_eq!(sanitize_string("a\nb"), "a b");
    assert_eq!(sanitize_string("a\rb"), "ab");
    assert_eq!(sanitize_string("say \"hi\""), "say hi");
    assert_eq!(sanitize_string("it\u{2019}s"), "it's");
    assert_eq!(sanitize_string("plain"), "plain");
}

#[test]
fn test_clean_description_strips_markup() {
    assert_eq!(clean_description("Hi <b>there</b>!"), "Hi there!");
    assert_eq!(clean_description("Before<![CDATA[hidden]]>After"), "BeforeAfter");
    assert_eq!(clean_description("<I>x</I>\ny"), "x y");
}

#[test]
fn test_trade_signal_values() {
    assert_eq!(TradeSignal::Buy, TradeSignal::Buy);
    assert_ne!(TradeSignal::Buy, TradeSignal::Sell);
    assert_ne!(TradeSignal::Hold, TradeSignal::Sell);
}
