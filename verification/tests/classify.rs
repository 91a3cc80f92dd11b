use bookfeed::classify::{
    classify, contains_pattern, is_array_wrapped, is_book_message, strip_array_wrapper,
    MessageClass,
};

#[test]
fn trade_marker_classifies_trade() {
    let payload = br#"{"event_type":"last_trade_price","price":"0.5"}"#;
    assert_eq!(classify(payload), MessageClass::Trade);
}

#[test]
fn trade_marker_embedded_in_other_text_still_trade() {
    let payload = br#"xxxx garbage event_type":"last_trade_price" more garbage"#;
    assert_eq!(classify(payload), MessageClass::Trade);
}

#[test]
fn price_change_marker_classifies_price_change() {
    let payload = br#"{"event_type":"price_change","changes":[]}"#;
    assert_eq!(classify(payload), MessageClass::PriceChange);
}

#[test]
fn book_marker_classifies_book() {
    let payload = br#"{"event_type":"book","bids":[]}"#;
    assert_eq!(classify(payload), MessageClass::Book);
}

#[test]
fn no_marker_classifies_other() {
    assert_eq!(classify(b"{\"hello\":\"world\"}"), MessageClass::Other);
    assert_eq!(classify(b""), MessageClass::Other);
}

#[test]
fn contains_pattern_finds_substrings() {
    assert!(contains_pattern(b"abcdef", b"cde"));
    assert!(contains_pattern(b"abcdef", b""));
    assert!(contains_pattern(b"abcdef", b"abcdef"));
    assert!(!contains_pattern(b"abcdef", b"cdf"));
    assert!(!contains_pattern(b"ab", b"abc"));
}

#[test]
fn standalone_book_event_is_book_message() {
    let payload = br#"{"event_type":"book","bids":[]}"#;
    assert!(is_book_message(payload));
}

#[test]
fn array_wrapped_book_is_not_book_message() {
    let payload = br#"[{"event_type":"book","bids":[]}]"#;
    assert!(!is_book_message(payload));
}

#[test]
fn trade_event_is_not_book_message() {
    let payload = br#"{"event_type":"last_trade_price"}"#;
    assert!(!is_book_message(payload));
}

#[test]
fn array_wrap_detected_after_whitespace() {
    assert!(is_array_wrapped(b"[{}]"));
    assert!(is_array_wrapped(b"  \n\t[1]"));
}

#[test]
fn non_bracket_first_char_never_array_wrapped() {
    assert!(!is_array_wrapped(b"{\"a\":1}"));
    assert!(!is_array_wrapped(b"   {\"a\":1}"));
    assert!(!is_array_wrapped(b""));
    assert!(!is_array_wrapped(b"   "));
}

#[test]
fn strip_array_wrapper_basic() {
    assert_eq!(strip_array_wrapper(b"[{\"a\":1}]\n"), &b"{\"a\":1}"[..]);
}

#[test]
fn strip_array_wrapper_trailing_whitespace() {
    assert_eq!(strip_array_wrapper(b"[{}]   \r\n"), &b"{}"[..]);
}

#[test]
fn strip_without_closing_bracket_returns_input_unchanged() {
    assert_eq!(strip_array_wrapper(b"{\"a\":1}"), &b"{\"a\":1}"[..]);
    assert_eq!(strip_array_wrapper(b""), &b""[..]);
    assert_eq!(strip_array_wrapper(b"[unclosed"), &b"[unclosed"[..]);
}

#[test]
fn strip_uses_last_closing_bracket() {
    assert_eq!(strip_array_wrapper(b"[[1],[2]]"), &b"[1],[2]"[..]);
}
