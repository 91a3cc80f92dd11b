use bookfeed::gamma::{u64_to_string, ListMarketParams, Market};

#[test]
fn query_params_all_present() {
    let params = ListMarketParams {
        tag_id: Some(21),
        order: Some("createdAt".to_string()),
        ascending: Some(false),
    };
    assert_eq!(
        params.to_query_params(),
        vec![
            ("tag_id", "21".to_string()),
            ("order", "createdAt".to_string()),
            ("ascending", "false".to_string()),
        ]
    );
}

#[test]
fn query_params_partial() {
    let params = ListMarketParams {
        tag_id: None,
        order: Some("volume".to_string()),
        ascending: Some(true),
    };
    assert_eq!(
        params.to_query_params(),
        vec![
            ("order", "volume".to_string()),
            ("ascending", "true".to_string()),
        ]
    );
}

#[test]
fn query_params_default_is_empty() {
    assert_eq!(ListMarketParams::default().to_query_params(), vec![]);
}

#[test]
fn u64_renders_in_decimal() {
    assert_eq!(u64_to_string(0), "0");
    assert_eq!(u64_to_string(21), "21");
    assert_eq!(u64_to_string(18446744073709551615), "18446744073709551615");
}

#[test]
fn market_pairs_tokens_positionally() {
    let market = Market::from_wire_fields(
        "id1".to_string(),
        "cond1".to_string(),
        "slug-1".to_string(),
        vec!["Yes".to_string(), "No".to_string()],
        vec!["tok-a".to_string(), "tok-b".to_string()],
        true,
        false,
        Some("2030-01-01".to_string()),
    );
    assert_eq!(market.tokens.len(), 2);
    assert_eq!(market.tokens[0].token_id, "tok-a");
    assert_eq!(market.tokens[0].outcome, "Yes");
    assert_eq!(market.tokens[1].token_id, "tok-b");
    assert_eq!(market.tokens[1].outcome, "No");
    assert_eq!(market.slug, "slug-1");
    assert!(market.active);
    assert!(!market.closed);
}

#[test]
fn market_token_surplus_is_dropped() {
    let market = Market::from_wire_fields(
        "id".to_string(),
        "cond".to_string(),
        "slug".to_string(),
        vec!["Yes".to_string(), "No".to_string(), "Maybe".to_string()],
        vec!["tok-a".to_string()],
        false,
        true,
        None,
    );
    assert_eq!(market.tokens.len(), 1);
    assert_eq!(market.tokens[0].outcome, "Yes");
}
