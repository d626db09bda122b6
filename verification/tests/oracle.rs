use price_oracle::{OracleError, PriceOracle};

fn owner() -> String {
    "owner.near".to_string()
}

fn new_oracle() -> PriceOracle {
    PriceOracle::new(owner())
}

#[test]
fn test_initialization() {
    let contract = new_oracle();
    assert_eq!(contract.get_min_sources(), 3);
    assert_eq!(contract.get_source_count(), 0);
    assert!(!contract.is_valid());
}

#[test]
fn test_report_price() {
    let mut contract = new_oracle();
    contract.report_price("alice.near".to_string(), 0, "coingecko".to_string(), 5250000); // $5.25

    assert_eq!(contract.get_source_count(), 1);
}

#[test]
fn test_get_price_average() {
    let mut contract = new_oracle();
    contract.report_price("alice.near".to_string(), 0, "coingecko".to_string(), 5000000); // $5.00
    contract.report_price("bob.near".to_string(), 0, "binance".to_string(), 5200000); // $5.20
    contract.report_price("carol.near".to_string(), 0, "coinmarketcap".to_string(), 5400000); // $5.40

    assert_eq!(contract.get_source_count(), 3);
    assert!(contract.is_valid());

    // Average should be $5.20
    let price = contract.get_price();
    assert_eq!(price, Ok(5200000));
}

#[test]
fn repeated_reports_do_not_raise_the_count() {
    let mut contract = new_oracle();
    for _ in 0..5 {
        contract.report_price("alice.near".to_string(), 0, "coingecko".to_string(), 100);
    }
    contract.report_price("bob.near".to_string(), 0, "binance".to_string(), 200);
    for _ in 0..3 {
        contract.report_price("bob.near".to_string(), 0, "binance".to_string(), 300);
    }
    assert_eq!(contract.get_source_count(), 2);
}

#[test]
fn reporting_a_source_again_overwrites_its_report() {
    let mut contract = new_oracle();
    contract.report_price("alice.near".to_string(), 0, "coingecko".to_string(), 100);
    contract.report_price("alice.near".to_string(), 0, "coingecko".to_string(), 200);

    assert_eq!(contract.get_source_count(), 1);
    let details = contract.get_price_details();
    assert_eq!(details.len(), 1);
    assert_eq!(details[0].source, "coingecko");
    assert_eq!(details[0].price_usd, 200);
}

#[test]
fn details_never_hold_a_source_twice() {
    let mut contract = new_oracle();
    for price in [1u128, 2, 3, 4] {
        contract.report_price("alice.near".to_string(), 0, "coingecko".to_string(), price);
        contract.report_price("alice.near".to_string(), 0, "binance".to_string(), price);
    }
    let details = contract.get_price_details();
    assert_eq!(details.len(), 2);
    assert_ne!(details[0].source, details[1].source);
}

#[test]
fn details_carry_reporter_and_truncated_timestamp() {
    let mut contract = new_oracle();
    // 5_999_999_999 ns is 5 whole seconds.
    contract.report_price("alice.near".to_string(), 5_999_999_999, "coingecko".to_string(), 42);

    let details = contract.get_price_details();
    assert_eq!(details.len(), 1);
    assert_eq!(details[0].reporter, "alice.near");
    assert_eq!(details[0].timestamp, 5);
    assert_eq!(contract.get_last_update(), 5);
}

#[test]
fn last_update_tracks_the_latest_call_not_the_largest_timestamp() {
    let mut contract = new_oracle();
    contract.report_price("alice.near".to_string(), 100_000_000_000, "coingecko".to_string(), 1);
    contract.report_price("bob.near".to_string(), 50_000_000_000, "binance".to_string(), 2);
    assert_eq!(contract.get_last_update(), 50);
}

#[test]
fn price_with_too_few_sources_names_the_counts() {
    let mut contract = new_oracle();
    contract.report_price("alice.near".to_string(), 0, "coingecko".to_string(), 5000000);
    contract.report_price("bob.near".to_string(), 0, "binance".to_string(), 5200000);

    assert!(!contract.is_valid());
    assert_eq!(
        contract.get_price(),
        Err(OracleError::InsufficientSources { required: 3, actual: 2 })
    );
}

#[test]
fn price_truncates_toward_zero() {
    let mut contract = new_oracle();
    contract.report_price("a.near".to_string(), 0, "coingecko".to_string(), 100);
    contract.report_price("b.near".to_string(), 0, "binance".to_string(), 101);
    contract.report_price("c.near".to_string(), 0, "coinmarketcap".to_string(), 101);
    // 302 / 3 = 100 remainder 2: truncated, not rounded.
    assert_eq!(contract.get_price(), Ok(100));
}

#[test]
fn price_overflow_fails_fast() {
    let mut contract = new_oracle();
    assert_eq!(contract.set_min_sources(&owner(), 2), Ok(()));
    contract.report_price("a.near".to_string(), 0, "coingecko".to_string(), u128::MAX);
    contract.report_price("b.near".to_string(), 0, "binance".to_string(), u128::MAX);
    assert_eq!(contract.get_price(), Err(OracleError::Overflow));
}

#[test]
fn owner_gated_calls_refuse_other_accounts() {
    let mut contract = new_oracle();
    let stranger = "mallory.near".to_string();

    assert_eq!(contract.init(&stranger, 5), Err(OracleError::Unauthorized));
    assert_eq!(contract.set_min_sources(&stranger, 5), Err(OracleError::Unauthorized));
    assert_eq!(contract.clear_prices(&stranger), Err(OracleError::Unauthorized));
    // Nothing changed.
    assert_eq!(contract.get_min_sources(), 3);
    assert_eq!(contract.get_last_update(), 0);
}

#[test]
fn owner_gated_calls_succeed_for_the_owner() {
    let mut contract = new_oracle();

    assert_eq!(contract.init(&owner(), 5), Ok(()));
    assert_eq!(contract.get_min_sources(), 5);
    assert_eq!(contract.set_min_sources(&owner(), 1), Ok(()));
    assert_eq!(contract.get_min_sources(), 1);

    contract.report_price("alice.near".to_string(), 7_000_000_000, "coingecko".to_string(), 9);
    assert!(contract.is_valid());
    assert_eq!(contract.get_price(), Ok(9));

    assert_eq!(contract.clear_prices(&owner()), Ok(()));
    assert_eq!(contract.get_source_count(), 0);
    assert_eq!(contract.get_last_update(), 0);
    assert_eq!(contract.get_price_details().len(), 0);
}

#[test]
fn count_wraps_at_the_width_of_its_return_type() {
    let mut contract = new_oracle();
    for k in 0..256 {
        contract.report_price("alice.near".to_string(), 0, format!("source-{}", k), 7);
    }
    // 256 distinct sources: the u8 count wraps to 0, while validity and
    // the aggregate go by the true count.
    assert_eq!(contract.get_source_count(), 0);
    assert!(contract.is_valid());
    assert_eq!(contract.get_price(), Ok(7));
}

#[test]
fn quorum_larger_than_sources_keeps_the_oracle_invalid() {
    let mut contract = new_oracle();
    assert_eq!(contract.set_min_sources(&owner(), 200), Ok(()));
    contract.report_price("alice.near".to_string(), 0, "coingecko".to_string(), 1);
    assert!(!contract.is_valid());
    assert_eq!(
        contract.get_price(),
        Err(OracleError::InsufficientSources { required: 200, actual: 1 })
    );
}
