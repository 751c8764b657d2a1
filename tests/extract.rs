use sig_poller::extract::{parse_trade, Side, TokenBalance, TransactionRecord};

fn bal(owner: Option<&str>, mint: &str, amount: u64) -> TokenBalance {
    TokenBalance { owner: owner.map(|o| o.to_string()), mint: mint.to_string(), amount }
}

#[test]
fn unchanged_balances_give_no_event() {
    let record = TransactionRecord {
        pre_balances: Some(vec![bal(Some("o1"), "m1", 10), bal(Some("o2"), "m2", 4)]),
        post_balances: Some(vec![bal(Some("o1"), "m1", 10), bal(Some("o2"), "m2", 4)]),
    };
    assert!(parse_trade("sig".to_string(), 9, &record).is_none());
}

#[test]
fn first_qualifying_entry_wins() {
    let record = TransactionRecord {
        pre_balances: Some(vec![bal(Some("a"), "ma", 10), bal(Some("b"), "mb", 10)]),
        post_balances: Some(vec![bal(Some("a"), "ma", 15), bal(Some("b"), "mb", 7)]),
    };
    let ev = parse_trade("sig".to_string(), 42, &record).unwrap();
    assert_eq!(ev.side, Side::Buy);
    assert_eq!(ev.amount, 5);
    assert_eq!(ev.mint, "ma");
    assert_eq!(ev.signature, "sig");
    assert_eq!(ev.slot, 42);
}

#[test]
fn missing_pre_entry_counts_as_zero() {
    let record = TransactionRecord {
        pre_balances: Some(vec![]),
        post_balances: Some(vec![bal(Some("a"), "m", 7)]),
    };
    let ev = parse_trade("s".to_string(), 1, &record).unwrap();
    assert_eq!(ev.side, Side::Buy);
    assert_eq!(ev.amount, 7);
}

#[test]
fn decrease_is_a_sell() {
    let record = TransactionRecord {
        pre_balances: Some(vec![bal(Some("a"), "m", 10)]),
        post_balances: Some(vec![bal(Some("a"), "m", 7)]),
    };
    let ev = parse_trade("s".to_string(), 1, &record).unwrap();
    assert_eq!(ev.side, Side::Sell);
    assert_eq!(ev.amount, 3);
    assert_eq!(ev.side.label(), "sell");
    assert_eq!(Side::Buy.label(), "buy");
}

#[test]
fn pre_entry_must_match_owner_and_mint() {
    let record = TransactionRecord {
        pre_balances: Some(vec![bal(Some("a"), "other", 10), bal(Some("b"), "m", 10)]),
        post_balances: Some(vec![bal(Some("a"), "m", 10)]),
    };
    let ev = parse_trade("s".to_string(), 1, &record).unwrap();
    assert_eq!(ev.side, Side::Buy);
    assert_eq!(ev.amount, 10);
}

#[test]
fn entries_without_owner_are_passed_over() {
    let record = TransactionRecord {
        pre_balances: Some(vec![]),
        post_balances: Some(vec![bal(None, "m", 5), bal(Some("a"), "n", 2)]),
    };
    let ev = parse_trade("s".to_string(), 1, &record).unwrap();
    assert_eq!(ev.mint, "n");
    assert_eq!(ev.amount, 2);
}

#[test]
fn missing_snapshot_gives_no_event() {
    let pre_missing = TransactionRecord {
        pre_balances: None,
        post_balances: Some(vec![bal(Some("a"), "m", 5)]),
    };
    assert!(parse_trade("s".to_string(), 1, &pre_missing).is_none());
    let post_missing = TransactionRecord {
        pre_balances: Some(vec![bal(Some("a"), "m", 5)]),
        post_balances: None,
    };
    assert!(parse_trade("s".to_string(), 1, &post_missing).is_none());
}
