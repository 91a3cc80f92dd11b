use bookfeed::book::Orderbook;
use bookfeed::codec::DecimalError;
use bookfeed::wire::WireError;

fn snapshot(bids: &[(&str, &str)], asks: &[(&str, &str)]) -> Vec<u8> {
    let mut s = String::new();
    s.push_str(r#"{"market":"mkt-1","asset_id":"asset-1","timestamp":"1700000000001","bids":["#);
    for (i, (p, q)) in bids.iter().enumerate() {
        if i > 0 {
            s.push(',');
        }
        s.push_str(&format!(r#"{{"price":"{}","size":"{}"}}"#, p, q));
    }
    s.push_str(r#"],"asks":["#);
    for (i, (p, q)) in asks.iter().enumerate() {
        if i > 0 {
            s.push(',');
        }
        s.push_str(&format!(r#"{{"price":"{}","size":"{}"}}"#, p, q));
    }
    s.push_str(r#"],"hash":"abc123"}"#);
    s.into_bytes()
}

#[test]
fn snapshot_parses_fields() {
    let raw = snapshot(&[("0.33", "1.0")], &[("0.34", "0.7")]);
    let book = Orderbook::from_bytes(&raw).unwrap();
    assert_eq!(book.market, "mkt-1");
    assert_eq!(book.asset_id, "asset-1");
    assert_eq!(book.timestamp, 1700000000001);
    assert_eq!(book.bids, vec![(33, 10)]);
    assert_eq!(book.asks, vec![(34, 7)]);
}

#[test]
fn queries_on_simple_book() {
    let raw = snapshot(&[("0.33", "1.0"), ("0.32", "0.5")], &[("0.34", "0.7")]);
    let book = Orderbook::from_bytes(&raw).unwrap();
    assert_eq!(book.best_bid(), Some((33, 10)));
    assert_eq!(book.best_ask(), Some((34, 7)));
    assert_eq!(book.spread(), Some(1));
    assert_eq!(book.mid_price(), Some(33));
}

#[test]
fn zero_size_level_never_appears() {
    let raw = snapshot(
        &[("0.40", "0"), ("0.33", "1.0")],
        &[("0.34", "0.7"), ("0.30", "0")],
    );
    let book = Orderbook::from_bytes(&raw).unwrap();
    // the zero-size 0.40 bid would otherwise be the best bid
    assert_eq!(book.best_bid(), Some((33, 10)));
    // the zero-size 0.30 ask would otherwise be the best ask
    assert_eq!(book.best_ask(), Some((34, 7)));
    assert_eq!(book.bids.len(), 1);
    assert_eq!(book.asks.len(), 1);
}

#[test]
fn empty_snapshot_all_queries_absent() {
    let raw = snapshot(&[], &[]);
    let book = Orderbook::from_bytes(&raw).unwrap();
    assert_eq!(book.best_bid(), None);
    assert_eq!(book.best_ask(), None);
    assert_eq!(book.spread(), None);
    assert_eq!(book.mid_price(), None);
}

#[test]
fn sides_are_sorted_regardless_of_wire_order() {
    let raw = snapshot(
        &[("0.31", "1.0"), ("0.33", "2.0"), ("0.32", "3.0")],
        &[("0.36", "1.0"), ("0.34", "2.0"), ("0.35", "3.0")],
    );
    let book = Orderbook::from_bytes(&raw).unwrap();
    assert_eq!(book.bids, vec![(33, 20), (32, 30), (31, 10)]);
    assert_eq!(book.asks, vec![(34, 20), (35, 30), (36, 10)]);
}

#[test]
fn duplicate_price_last_entry_wins() {
    let raw = snapshot(&[("0.33", "1.0"), ("0.33", "2.0")], &[]);
    let book = Orderbook::from_bytes(&raw).unwrap();
    assert_eq!(book.bids, vec![(33, 20)]);
}

#[test]
fn crossed_book_spread_saturates_at_zero() {
    let raw = snapshot(&[("0.40", "1.0")], &[("0.34", "0.7")]);
    let book = Orderbook::from_bytes(&raw).unwrap();
    assert_eq!(book.spread(), Some(0));
    assert_eq!(book.mid_price(), Some(37));
}

#[test]
fn fields_in_any_order_and_whitespace() {
    let raw = br#" {
        "asks" : [ { "size" : "0.7" , "price" : "0.34" } ] ,
        "timestamp" : "5" ,
        "bids" : [ ] ,
        "asset_id" : "a" ,
        "hash" : "h" ,
        "market" : "m"
    } "#;
    let book = Orderbook::from_bytes(raw).unwrap();
    assert_eq!(book.market, "m");
    assert_eq!(book.timestamp, 5);
    assert_eq!(book.best_ask(), Some((34, 7)));
}

#[test]
fn apply_snapshot_replaces_wholesale() {
    let raw1 = snapshot(&[("0.33", "1.0"), ("0.32", "0.5")], &[("0.34", "0.7")]);
    let raw2 = snapshot(&[("0.20", "9.0")], &[]);
    let mut book = Orderbook::from_bytes(&raw1).unwrap();
    let next = Orderbook::from_bytes(&raw2).unwrap();
    book.apply_snapshot(next);
    // the 0.33 and 0.32 levels are gone, not merged
    assert_eq!(book.best_bid(), Some((20, 90)));
    assert_eq!(book.bids.len(), 1);
    assert_eq!(book.best_ask(), None);
}

#[test]
fn update_from_bytes_applies() {
    let raw = snapshot(&[("0.33", "1.0")], &[("0.34", "0.7")]);
    let mut book = Orderbook::default();
    book.update_from_bytes(&raw).unwrap();
    assert_eq!(book.best_bid(), Some((33, 10)));
}

#[test]
fn update_from_bytes_failure_keeps_book() {
    let raw = snapshot(&[("0.33", "1.0")], &[("0.34", "0.7")]);
    let mut book = Orderbook::default();
    book.update_from_bytes(&raw).unwrap();
    let err = book.update_from_bytes(b"not json").unwrap_err();
    assert_eq!(err.kind, WireError::Syntax);
    assert_eq!(book.best_bid(), Some((33, 10)));
    assert_eq!(book.timestamp, 1700000000001);
}

#[test]
fn missing_field_is_reported() {
    let raw = br#"{"market":"m","asset_id":"a","bids":[],"asks":[]}"#;
    let err = Orderbook::from_bytes(raw).unwrap_err();
    assert_eq!(err.kind, WireError::MissingField);
}

#[test]
fn empty_object_is_missing_fields() {
    let err = Orderbook::from_bytes(b"{}").unwrap_err();
    assert_eq!(err.kind, WireError::MissingField);
}

#[test]
fn bad_price_is_a_number_error() {
    let raw = snapshot(&[("0.3x", "1.0")], &[]);
    let err = Orderbook::from_bytes(&raw).unwrap_err();
    assert_eq!(err.kind, WireError::Number(DecimalError::InvalidNumber));
}

#[test]
fn bad_timestamp_is_a_number_error() {
    let raw = br#"{"market":"m","asset_id":"a","timestamp":"12h","bids":[],"asks":[]}"#;
    let err = Orderbook::from_bytes(raw).unwrap_err();
    assert_eq!(err.kind, WireError::Number(DecimalError::InvalidNumber));
}

#[test]
fn garbage_is_a_syntax_error() {
    let err = Orderbook::from_bytes(b"hello").unwrap_err();
    assert_eq!(err.kind, WireError::Syntax);
}

#[test]
fn trailing_garbage_is_a_syntax_error() {
    let mut raw = snapshot(&[], &[]);
    raw.extend_from_slice(b" x");
    let err = Orderbook::from_bytes(&raw).unwrap_err();
    assert_eq!(err.kind, WireError::Syntax);
}

#[test]
fn error_preview_is_bounded() {
    let mut raw = vec![b'x'; 2000];
    raw[0] = b'!';
    let err = Orderbook::from_bytes(&raw).unwrap_err();
    assert_eq!(err.preview.len(), 500);
    assert_eq!(&err.preview[..], &raw[..500]);
}

#[test]
fn error_preview_short_input_kept_whole() {
    let err = Orderbook::from_bytes(b"oops").unwrap_err();
    assert_eq!(err.preview, b"oops".to_vec());
}

#[test]
fn default_book_is_empty() {
    let book = Orderbook::default();
    assert_eq!(book.market, "");
    assert_eq!(book.asset_id, "");
    assert_eq!(book.timestamp, 0);
    assert_eq!(book.best_bid(), None);
    assert_eq!(book.best_ask(), None);
}
