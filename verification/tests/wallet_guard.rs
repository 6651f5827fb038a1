use swap_ledger::guard::WalletGuard;

#[test]
fn test_initialize_wallet() {
    let mut guard = WalletGuard::new();
    let owner: u64 = 1;

    guard.initialize(owner);

    let spending_info = guard.get_spending_info(owner);
    assert_eq!(spending_info.daily_limit, 1000_0000000);
    assert_eq!(spending_info.monthly_limit, 10000_0000000);
    assert_eq!(spending_info.is_frozen, false);
}

#[test]
fn test_set_daily_limit() {
    let mut guard = WalletGuard::new();
    let owner: u64 = 1;

    guard.initialize(owner);
    guard.set_daily_limit(owner, 500_0000000);

    let spending_info = guard.get_spending_info(owner);
    assert_eq!(spending_info.daily_limit, 500_0000000);
}

#[test]
fn test_validate_transaction() {
    let mut guard = WalletGuard::new();
    let owner: u64 = 1;

    guard.initialize(owner);

    // Should allow transaction within limit
    assert_eq!(guard.validate_transaction(owner, 100_0000000), true);

    // Should reject transaction exceeding daily limit
    assert_eq!(guard.validate_transaction(owner, 2000_0000000), false);
}

#[test]
fn test_freeze_wallet() {
    let mut guard = WalletGuard::new();
    let owner: u64 = 1;

    guard.initialize(owner);
    guard.freeze_wallet(owner);

    let spending_info = guard.get_spending_info(owner);
    assert_eq!(spending_info.is_frozen, true);

    // Should reject transactions when frozen
    assert_eq!(guard.validate_transaction(owner, 10_0000000), false);
}

#[test]
fn test_unfreeze_wallet_restores_spending() {
    let mut guard = WalletGuard::new();
    let owner: u64 = 1;

    guard.initialize(owner);
    guard.freeze_wallet(owner);
    guard.unfreeze_wallet(owner);

    let spending_info = guard.get_spending_info(owner);
    assert_eq!(spending_info.is_frozen, false);
    assert_eq!(guard.validate_transaction(owner, 100_0000000), true);
}

#[test]
fn test_uninitialized_wallet_uses_defaults() {
    let guard = WalletGuard::new();
    let spending_info = guard.get_spending_info(42);
    assert_eq!(spending_info.daily_limit, 1000_0000000);
    assert_eq!(spending_info.monthly_limit, 10000_0000000);
    assert_eq!(spending_info.daily_spent, 0);
    assert_eq!(spending_info.monthly_spent, 0);
    assert_eq!(spending_info.is_frozen, false);
}

#[test]
fn test_set_monthly_limit() {
    let mut guard = WalletGuard::new();
    let owner: u64 = 3;

    guard.initialize(owner);
    guard.set_monthly_limit(owner, 2000_0000000);

    let spending_info = guard.get_spending_info(owner);
    assert_eq!(spending_info.monthly_limit, 2000_0000000);

    // Monthly limit now binds before the daily one
    assert_eq!(guard.validate_transaction(owner, 1000_0000000), true);
    assert_eq!(guard.validate_transaction(owner, 2000_0000001), false);
}

#[test]
fn test_validate_transaction_negative_amount_overflow() {
    let mut guard = WalletGuard::new();
    let owner: u64 = 9;
    guard.initialize(owner);
    // A mathematical sum below the 128-bit range still sits under both limits.
    assert_eq!(guard.validate_transaction(owner, i128::MIN), true);
}
