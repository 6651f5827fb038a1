use swap_ledger::manager::MultiAssetManager;
use swap_ledger::types::OrderStatus;
use swap_ledger::Error;

const ADMIN: u64 = 0;
const ALICE: u64 = 7;

fn ledger_with_usd_eur_pool() -> MultiAssetManager {
    let mut m = MultiAssetManager::initialize(ADMIN);
    m.add_asset(ADMIN, b"USD", 100, 1_0000000).unwrap();
    m.add_asset(ADMIN, b"EUR", 100, 1_1000000).unwrap();
    // "EUR" sorts before "USD"; the reserves are supplied in stored order.
    m.create_swap_pool(ADMIN, b"USD", b"EUR", 1_000_000, 900_000, 30).unwrap();
    m
}

#[test]
fn test_end_to_end_swap_scenario() {
    let mut m = ledger_with_usd_eur_pool();
    m.update_balance(ALICE, b"USD", 10_000, 50).unwrap();

    let id = m.create_swap_order(ALICE, b"USD", b"EUR", 10_000, 8_800, 51).unwrap();
    assert_eq!(id, 1);

    // amount_in_after_fee = 10_000 * 9970 / 10000 = 9970
    // amount_out = 900_000 * 9970 / (1_000_000 + 9970) = 8_884 (floor)
    assert_eq!(m.execute_swap(id, 52).unwrap(), true);

    // The full input amount lands in the pool; the fee only shrinks the quote.
    let pool = m.get_swap_pool(b"USD", b"EUR").unwrap();
    assert_eq!(pool.reserve_a, 1_010_000);
    assert_eq!(pool.reserve_b, 891_116);

    assert_eq!(m.get_user_balance(ALICE, b"USD"), 0);
    assert_eq!(m.get_user_balance(ALICE, b"EUR"), 8_884);

    let orders = m.get_user_orders(ALICE);
    assert_eq!(orders.len(), 1);
    assert_eq!(orders[0].status, OrderStatus::Completed);
}

#[test]
fn test_execute_twice_is_idempotent() {
    let mut m = ledger_with_usd_eur_pool();
    m.update_balance(ALICE, b"USD", 10_000, 50).unwrap();
    let id = m.create_swap_order(ALICE, b"USD", b"EUR", 10_000, 8_800, 51).unwrap();

    assert_eq!(m.execute_swap(id, 52).unwrap(), true);
    assert_eq!(m.execute_swap(id, 53).unwrap(), false);

    // The second call was a no-op: state is that of a single execution.
    let pool = m.get_swap_pool(b"USD", b"EUR").unwrap();
    assert_eq!(pool.reserve_a, 1_010_000);
    assert_eq!(pool.reserve_b, 891_116);
    assert_eq!(m.get_user_balance(ALICE, b"USD"), 0);
    assert_eq!(m.get_user_balance(ALICE, b"EUR"), 8_884);
}

#[test]
fn test_slippage_guard_leaves_state_unchanged() {
    let mut m = ledger_with_usd_eur_pool();
    m.update_balance(ALICE, b"USD", 10_000, 50).unwrap();
    // The quote is 8_884, below the requested minimum of 8_885.
    let id = m.create_swap_order(ALICE, b"USD", b"EUR", 10_000, 8_885, 51).unwrap();

    assert_eq!(m.execute_swap(id, 52).unwrap(), false);

    let pool = m.get_swap_pool(b"USD", b"EUR").unwrap();
    assert_eq!(pool.reserve_a, 1_000_000);
    assert_eq!(pool.reserve_b, 900_000);
    assert_eq!(m.get_user_balance(ALICE, b"USD"), 10_000);
    assert_eq!(m.get_user_balance(ALICE, b"EUR"), 0);
    let orders = m.get_user_orders(ALICE);
    assert_eq!(orders[0].status, OrderStatus::Pending);
}

#[test]
fn test_no_pool_quotes_zero() {
    let m = ledger_with_usd_eur_pool();
    assert_eq!(m.calculate_swap_output(b"USD", b"JPY", 5_000), Ok(0));
    assert!(m.get_swap_pool(b"USD", b"JPY").is_none());
}

#[test]
fn test_no_pool_execution_reports_failure() {
    let mut m = ledger_with_usd_eur_pool();
    let id = m.create_swap_order(ALICE, b"USD", b"JPY", 100, 0, 51).unwrap();
    assert_eq!(m.execute_swap(id, 52).unwrap(), false);
    assert_eq!(m.get_user_orders(ALICE)[0].status, OrderStatus::Pending);
}

#[test]
fn test_unregistered_asset_balance_fails() {
    let mut m = ledger_with_usd_eur_pool();
    m.update_balance(ALICE, b"USD", 500, 40).unwrap();
    assert_eq!(m.update_balance(ALICE, b"ZZZ", 100, 50), Err(Error::NotFound));
    // The portfolio is unchanged.
    let p = m.get_portfolio(ALICE, 60);
    assert_eq!(p.assets.len(), 1);
    assert_eq!(m.get_user_balance(ALICE, b"ZZZ"), 0);
    assert_eq!(m.get_user_balance(ALICE, b"USD"), 500);
}

#[test]
fn test_zero_amount_quotes_zero() {
    let m = ledger_with_usd_eur_pool();
    assert_eq!(
        MultiAssetManager::calculate_swap_amount(0, 1_000_000, 900_000, 30),
        Ok(0)
    );
    assert_eq!(m.calculate_swap_output(b"USD", b"EUR", 0), Ok(0));
}

#[test]
fn test_quote_monotone_in_amount_and_fee() {
    let q = |amount: i128, fee: u32| {
        MultiAssetManager::calculate_swap_amount(amount, 1_000_000, 900_000, fee).unwrap()
    };
    // Non-decreasing in the input amount.
    assert!(q(5_000, 30) <= q(10_000, 30));
    assert!(q(10_000, 30) <= q(20_000, 30));
    // Non-increasing in the fee rate.
    assert!(q(10_000, 100) <= q(10_000, 30));
    assert!(q(10_000, 30) <= q(10_000, 0));
    // The worked example.
    assert_eq!(q(10_000, 30), 8_884);
}

#[test]
fn test_canonical_pool_key_is_symmetric() {
    let k1 = MultiAssetManager::get_pool_key(b"USD", b"EUR");
    let k2 = MultiAssetManager::get_pool_key(b"EUR", b"USD");
    assert_eq!(k1, k2);
    assert_eq!(k1, b"EUR_USD".to_vec());
}

#[test]
fn test_portfolio_valuation_formula() {
    let mut m = MultiAssetManager::initialize(ADMIN);
    m.add_asset(ADMIN, b"USD", 100, 2_0000000).unwrap();
    m.add_asset(ADMIN, b"EUR", 100, 1_1000000).unwrap();
    m.update_balance(ALICE, b"USD", 5, 10).unwrap();
    // 5 * 20_000_000 / 10_000_000 = 10
    assert_eq!(m.get_portfolio(ALICE, 11).total_value_xlm, 10);
    m.update_balance(ALICE, b"EUR", 3, 12).unwrap();
    // 10 + floor(3 * 11_000_000 / 10_000_000) = 10 + 3
    let p = m.get_portfolio(ALICE, 13);
    assert_eq!(p.total_value_xlm, 13);
    assert_eq!(p.last_updated, 12);

    // A price update alone leaves the cache; the next mutation recomputes it
    // at the current registry price.
    m.update_asset_price(ADMIN, b"USD", 4_0000000).unwrap();
    assert_eq!(m.get_portfolio(ALICE, 14).total_value_xlm, 13);
    m.update_balance(ALICE, b"USD", 5, 15).unwrap();
    assert_eq!(m.get_portfolio(ALICE, 16).total_value_xlm, 23);
}

#[test]
fn test_admin_only_operations_fail_closed() {
    let mut m = MultiAssetManager::initialize(ADMIN);
    assert_eq!(m.add_asset(5, b"USD", 100, 1_0000000), Err(Error::Unauthorized));
    assert_eq!(m.update_asset_price(5, b"USD", 1), Err(Error::Unauthorized));
    assert_eq!(
        m.create_swap_pool(5, b"USD", b"EUR", 1, 1, 30),
        Err(Error::Unauthorized)
    );
    assert!(m.get_swap_pool(b"USD", b"EUR").is_none());
}

#[test]
fn test_not_found_errors() {
    let mut m = MultiAssetManager::initialize(ADMIN);
    assert_eq!(m.update_asset_price(ADMIN, b"USD", 1), Err(Error::NotFound));
    assert_eq!(m.execute_swap(1, 10), Err(Error::NotFound));
    assert_eq!(m.execute_swap(0, 10), Err(Error::NotFound));
}

#[test]
fn test_invalid_arguments_rejected() {
    let mut m = MultiAssetManager::initialize(ADMIN);
    // Non-positive order amount.
    assert_eq!(
        m.create_swap_order(ALICE, b"USD", b"EUR", 0, 0, 1),
        Err(Error::InvalidArgument)
    );
    assert_eq!(
        m.create_swap_order(ALICE, b"USD", b"EUR", -5, 0, 1),
        Err(Error::InvalidArgument)
    );
    // Malformed pairs and out-of-model pools.
    assert_eq!(
        m.create_swap_pool(ADMIN, b"USD", b"USD", 1, 1, 30),
        Err(Error::InvalidArgument)
    );
    assert_eq!(
        m.create_swap_pool(ADMIN, b"U_S", b"EUR", 1, 1, 30),
        Err(Error::InvalidArgument)
    );
    assert_eq!(
        m.create_swap_pool(ADMIN, b"USD", b"EUR", 0, 1, 30),
        Err(Error::InvalidArgument)
    );
    assert_eq!(
        m.create_swap_pool(ADMIN, b"USD", b"EUR", 1, 0, 30),
        Err(Error::InvalidArgument)
    );
    assert_eq!(
        m.create_swap_pool(ADMIN, b"USD", b"EUR", 1, 1, 10_000),
        Err(Error::InvalidArgument)
    );
}

#[test]
fn test_quote_arithmetic_errors() {
    assert_eq!(
        MultiAssetManager::calculate_swap_amount(i128::MAX, 1, i128::MAX, 0),
        Err(Error::ArithmeticOverflow)
    );
    // reserve_in cancels the fee-adjusted input exactly: a zero denominator.
    assert_eq!(
        MultiAssetManager::calculate_swap_amount(10_000, -9_970, 900_000, 30),
        Err(Error::DivideByZero)
    );
}

#[test]
fn test_order_ids_increase_and_scan_filters_by_owner() {
    let mut m = ledger_with_usd_eur_pool();
    let id1 = m.create_swap_order(ALICE, b"USD", b"EUR", 10, 0, 1).unwrap();
    let id2 = m.create_swap_order(9, b"EUR", b"USD", 20, 0, 2).unwrap();
    let id3 = m.create_swap_order(ALICE, b"EUR", b"USD", 30, 0, 3).unwrap();
    assert_eq!((id1, id2, id3), (1, 2, 3));

    let mine = m.get_user_orders(ALICE);
    assert_eq!(mine.len(), 2);
    assert_eq!((mine[0].id, mine[1].id), (1, 3));
    assert_eq!((mine[0].amount, mine[1].amount), (10, 30));
    assert_eq!(m.get_user_orders(77).len(), 0);
}

#[test]
fn test_fresh_portfolio_is_empty_and_not_persisted() {
    let m = MultiAssetManager::initialize(ADMIN);
    let p = m.get_portfolio(ALICE, 99);
    assert_eq!(p.owner, ALICE);
    assert_eq!(p.assets.len(), 0);
    assert_eq!(p.total_value_xlm, 0);
    assert_eq!(p.last_updated, 99);
}

#[test]
fn test_add_asset_overwrite_is_idempotent() {
    let mut m = MultiAssetManager::initialize(ADMIN);
    m.add_asset(ADMIN, b"USD", 100, 1_0000000).unwrap();
    m.add_asset(ADMIN, b"USD", 101, 2_0000000).unwrap();
    m.update_balance(ALICE, b"USD", 1, 5).unwrap();
    // One registry record, carrying the latest issuer and price.
    assert_eq!(m.get_portfolio(ALICE, 6).assets.len(), 1);
    assert_eq!(m.get_portfolio(ALICE, 6).assets[0].issuer, 101);
    assert_eq!(m.get_portfolio(ALICE, 6).total_value_xlm, 2);
}

#[test]
fn test_pool_replacement_is_wholesale() {
    let mut m = ledger_with_usd_eur_pool();
    m.create_swap_pool(ADMIN, b"EUR", b"USD", 5, 6, 10).unwrap();
    let p = m.get_swap_pool(b"USD", b"EUR").unwrap();
    assert_eq!((p.reserve_a, p.reserve_b, p.fee_rate), (5, 6, 10));
    assert_eq!(p.asset_a, b"EUR".to_vec());
    assert_eq!(p.asset_b, b"USD".to_vec());
}

#[test]
fn test_get_asset() {
    let mut m = MultiAssetManager::initialize(ADMIN);
    m.add_asset(ADMIN, b"USD", 100, 1_0000000).unwrap();
    let a = m.get_asset(b"USD").unwrap();
    assert_eq!(a.code, b"USD".to_vec());
    assert_eq!(a.issuer, 100);
    assert_eq!(a.balance, 0);
    assert_eq!(a.price_xlm, 1_0000000);
    assert!(matches!(m.get_asset(b"JPY"), Err(Error::NotFound)));
}
