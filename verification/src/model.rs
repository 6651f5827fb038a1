//! The ledger's mathematical model.
//!
//! [`StateModel`] is the view of the whole ledger; every operation of the
//! executable ledger is specified as a transition function from a model and
//! the operation's arguments to the next model and the reported result.
//! Stores are modelled as sequences of records with unique keys; a lookup is
//! the first index whose record carries the key.

use vstd::prelude::*;
use crate::amm::{in_i128_range, swap_amount_spec, trunc_div};
use crate::codes::{lex_lt, valid_code};
use crate::types::{AssetModel, OrderModel, OrderStatus, PoolModel, PortfolioModel};
use crate::Error;

verus! {

/// The first index whose record carries `code`, or the length if none does.
pub open spec fn asset_index(assets: Seq<AssetModel>, code: Seq<u8>) -> int
    decreases assets.len(),
{
    if assets.len() == 0 {
        0
    } else if assets[0].code == code {
        0
    } else {
        1 + asset_index(assets.skip(1), code)
    }
}

/// Whether some record carries `code`.
pub open spec fn has_asset(assets: Seq<AssetModel>, code: Seq<u8>) -> bool {
    asset_index(assets, code) < assets.len()
}

/// The first record carrying `code`.
pub open spec fn asset_at(assets: Seq<AssetModel>, code: Seq<u8>) -> AssetModel {
    assets[asset_index(assets, code)]
}

/// Replaces the record carrying `a.code`, or appends `a` if none does.
pub open spec fn upsert_asset(assets: Seq<AssetModel>, a: AssetModel) -> Seq<AssetModel> {
    if has_asset(assets, a.code) {
        assets.update(asset_index(assets, a.code), a)
    } else {
        assets.push(a)
    }
}

/// `asset_index` is the first match: knowing everything before `i` misses and
/// `i` (if in bounds) hits pins the index down.
pub proof fn lemma_asset_index_is(assets: Seq<AssetModel>, code: Seq<u8>, i: int)
    requires
        0 <= i <= assets.len(),
        forall|j: int| 0 <= j < i ==> assets[j].code != code,
        i < assets.len() ==> assets[i].code == code,
    ensures
        i < assets.len() ==> asset_index(assets, code) == i,
        i == assets.len() ==> !has_asset(assets, code) && asset_index(assets, code) == i,
    decreases i,
{
    if i == 0 {
        if assets.len() == 0 {
        } else if i < assets.len() {
        } else {
        }
    } else {
        assert(assets[0].code != code);
        lemma_asset_index_is(assets.skip(1), code, i - 1);
    }
}

/// Bounds and the hit property of `asset_index`.
pub proof fn lemma_asset_index_bounds(assets: Seq<AssetModel>, code: Seq<u8>)
    ensures
        0 <= asset_index(assets, code) <= assets.len(),
        has_asset(assets, code) ==> assets[asset_index(assets, code)].code == code,
        forall|j: int| 0 <= j < asset_index(assets, code) ==> assets[j].code != code,
    decreases assets.len(),
{
    if assets.len() == 0 {
    } else if assets[0].code == code {
    } else {
        lemma_asset_index_bounds(assets.skip(1), code);
        assert forall|j: int| 0 <= j < asset_index(assets, code) implies assets[j].code
            != code by {
            if j > 0 {
                assert(assets.skip(1)[j - 1] == assets[j]);
            }
        }
    }
}

/// A witness that some record carries `code` makes the first-match lookup hit.
pub proof fn lemma_contains_to_has(assets: Seq<AssetModel>, code: Seq<u8>)
    requires
        exists|k: int| 0 <= k < assets.len() && assets[k].code == code,
    ensures
        has_asset(assets, code),
{
    lemma_asset_index_bounds(assets, code);
}

/// Replacing or appending a record never unregisters a code.
pub proof fn lemma_upsert_asset_keeps_code(assets: Seq<AssetModel>, a: AssetModel, code: Seq<u8>)
    requires
        has_asset(assets, code),
    ensures
        has_asset(upsert_asset(assets, a), code),
{
    lemma_asset_index_bounds(assets, code);
    lemma_asset_index_bounds(assets, a.code);
    let k = asset_index(assets, code);
    let out = upsert_asset(assets, a);
    assert(out[k].code == code);
    lemma_contains_to_has(out, code);
}

/// Replacing or appending a record keeps the codes pairwise distinct.
pub proof fn lemma_upsert_asset_unique(assets: Seq<AssetModel>, a: AssetModel)
    requires
        forall|i: int, j: int| 0 <= i < j < assets.len() ==> assets[i].code != assets[j].code,
    ensures
        forall|i: int, j: int|
            0 <= i < j < upsert_asset(assets, a).len()
                ==> upsert_asset(assets, a)[i].code != upsert_asset(assets, a)[j].code,
{
    lemma_asset_index_bounds(assets, a.code);
    let out = upsert_asset(assets, a);
    if has_asset(assets, a.code) {
        assert(forall|k: int| 0 <= k < out.len() ==> out[k].code == assets[k].code);
    }
}

/// The first index whose portfolio belongs to `owner`, or the length.
pub open spec fn portfolio_index(ps: Seq<PortfolioModel>, owner: u64) -> int
    decreases ps.len(),
{
    if ps.len() == 0 {
        0
    } else if ps[0].owner == owner {
        0
    } else {
        1 + portfolio_index(ps.skip(1), owner)
    }
}

/// Whether `owner` has a stored portfolio.
pub open spec fn has_portfolio(ps: Seq<PortfolioModel>, owner: u64) -> bool {
    portfolio_index(ps, owner) < ps.len()
}

/// The stored portfolio of `owner`.
pub open spec fn portfolio_at(ps: Seq<PortfolioModel>, owner: u64) -> PortfolioModel {
    ps[portfolio_index(ps, owner)]
}

/// Replaces `owner`'s portfolio, or appends it if none is stored.
pub open spec fn upsert_portfolio(ps: Seq<PortfolioModel>, p: PortfolioModel) -> Seq<PortfolioModel> {
    if has_portfolio(ps, p.owner) {
        ps.update(portfolio_index(ps, p.owner), p)
    } else {
        ps.push(p)
    }
}

/// As [`lemma_asset_index_is`], for portfolios.
pub proof fn lemma_portfolio_index_is(ps: Seq<PortfolioModel>, owner: u64, i: int)
    requires
        0 <= i <= ps.len(),
        forall|j: int| 0 <= j < i ==> ps[j].owner != owner,
        i < ps.len() ==> ps[i].owner == owner,
    ensures
        i < ps.len() ==> portfolio_index(ps, owner) == i,
        i == ps.len() ==> !has_portfolio(ps, owner) && portfolio_index(ps, owner) == i,
    decreases i,
{
    if i == 0 {
    } else {
        lemma_portfolio_index_is(ps.skip(1), owner, i - 1);
    }
}

/// Bounds and the hit property of `portfolio_index`.
pub proof fn lemma_portfolio_index_bounds(ps: Seq<PortfolioModel>, owner: u64)
    ensures
        0 <= portfolio_index(ps, owner) <= ps.len(),
        has_portfolio(ps, owner) ==> ps[portfolio_index(ps, owner)].owner == owner,
        forall|j: int| 0 <= j < portfolio_index(ps, owner) ==> ps[j].owner != owner,
    decreases ps.len(),
{
    if ps.len() == 0 {
    } else if ps[0].owner == owner {
    } else {
        lemma_portfolio_index_bounds(ps.skip(1), owner);
        assert forall|j: int| 0 <= j < portfolio_index(ps, owner) implies ps[j].owner
            != owner by {
            if j > 0 {
                assert(ps.skip(1)[j - 1] == ps[j]);
            }
        }
    }
}

/// Replacing or appending a portfolio keeps the owners pairwise distinct.
pub proof fn lemma_upsert_portfolio_unique(ps: Seq<PortfolioModel>, p: PortfolioModel)
    requires
        forall|i: int, j: int| 0 <= i < j < ps.len() ==> ps[i].owner != ps[j].owner,
    ensures
        forall|i: int, j: int|
            0 <= i < j < upsert_portfolio(ps, p).len()
                ==> upsert_portfolio(ps, p)[i].owner != upsert_portfolio(ps, p)[j].owner,
{
    lemma_portfolio_index_bounds(ps, p.owner);
    let out = upsert_portfolio(ps, p);
    if has_portfolio(ps, p.owner) {
        assert(forall|k: int| 0 <= k < out.len() ==> out[k].owner == ps[k].owner);
    }
}

/// The smaller of two codes under the lexicographic order.
pub open spec fn pair_lo(a: Seq<u8>, b: Seq<u8>) -> Seq<u8> {
    if lex_lt(b, a) {
        b
    } else {
        a
    }
}

/// The larger of two codes under the lexicographic order.
pub open spec fn pair_hi(a: Seq<u8>, b: Seq<u8>) -> Seq<u8> {
    if lex_lt(b, a) {
        a
    } else {
        b
    }
}

/// The first index whose pool is over the unordered pair `(a, b)`, or the
/// length. Stored pools carry their codes in canonical order, so the lookup
/// compares against the sorted pair.
pub open spec fn pool_index(pools: Seq<PoolModel>, a: Seq<u8>, b: Seq<u8>) -> int
    decreases pools.len(),
{
    if pools.len() == 0 {
        0
    } else if pools[0].asset_a == pair_lo(a, b) && pools[0].asset_b == pair_hi(a, b) {
        0
    } else {
        1 + pool_index(pools.skip(1), a, b)
    }
}

/// Whether a pool over the unordered pair `(a, b)` is stored.
pub open spec fn has_pool(pools: Seq<PoolModel>, a: Seq<u8>, b: Seq<u8>) -> bool {
    pool_index(pools, a, b) < pools.len()
}

/// The stored pool over the unordered pair `(a, b)`.
pub open spec fn pool_at(pools: Seq<PoolModel>, a: Seq<u8>, b: Seq<u8>) -> PoolModel {
    pools[pool_index(pools, a, b)]
}

/// Replaces the pool over `(p.asset_a, p.asset_b)`, or appends `p`.
pub open spec fn upsert_pool(pools: Seq<PoolModel>, p: PoolModel) -> Seq<PoolModel> {
    if has_pool(pools, p.asset_a, p.asset_b) {
        pools.update(pool_index(pools, p.asset_a, p.asset_b), p)
    } else {
        pools.push(p)
    }
}

/// As [`lemma_asset_index_is`], for pools.
pub proof fn lemma_pool_index_is(pools: Seq<PoolModel>, a: Seq<u8>, b: Seq<u8>, i: int)
    requires
        0 <= i <= pools.len(),
        forall|j: int| 0 <= j < i
            ==> !(pools[j].asset_a == pair_lo(a, b) && pools[j].asset_b == pair_hi(a, b)),
        i < pools.len() ==> pools[i].asset_a == pair_lo(a, b) && pools[i].asset_b == pair_hi(a, b),
    ensures
        i < pools.len() ==> pool_index(pools, a, b) == i,
        i == pools.len() ==> !has_pool(pools, a, b) && pool_index(pools, a, b) == i,
    decreases i,
{
    if i == 0 {
    } else {
        lemma_pool_index_is(pools.skip(1), a, b, i - 1);
    }
}

/// Bounds and the hit property of `pool_index`.
pub proof fn lemma_pool_index_bounds(pools: Seq<PoolModel>, a: Seq<u8>, b: Seq<u8>)
    ensures
        0 <= pool_index(pools, a, b) <= pools.len(),
        has_pool(pools, a, b) ==> pools[pool_index(pools, a, b)].asset_a == pair_lo(a, b)
            && pools[pool_index(pools, a, b)].asset_b == pair_hi(a, b),
        forall|j: int| 0 <= j < pool_index(pools, a, b)
            ==> !(pools[j].asset_a == pair_lo(a, b) && pools[j].asset_b == pair_hi(a, b)),
    decreases pools.len(),
{
    if pools.len() == 0 {
    } else if pools[0].asset_a == pair_lo(a, b) && pools[0].asset_b == pair_hi(a, b) {
    } else {
        lemma_pool_index_bounds(pools.skip(1), a, b);
        assert forall|j: int| 0 <= j < pool_index(pools, a, b) implies !(pools[j].asset_a
            == pair_lo(a, b) && pools[j].asset_b == pair_hi(a, b)) by {
            if j > 0 {
                assert(pools.skip(1)[j - 1] == pools[j]);
            }
        }
    }
}

/// Replacing or appending a pool keeps the stored pairs pairwise distinct.
pub proof fn lemma_upsert_pool_unique(pools: Seq<PoolModel>, p: PoolModel)
    requires
        forall|i: int, j: int|
            0 <= i < j < pools.len()
                ==> !(pools[i].asset_a == pools[j].asset_a
                    && pools[i].asset_b == pools[j].asset_b),
        p.asset_a == pair_lo(p.asset_a, p.asset_b),
        p.asset_b == pair_hi(p.asset_a, p.asset_b),
    ensures
        forall|i: int, j: int|
            0 <= i < j < upsert_pool(pools, p).len()
                ==> !(upsert_pool(pools, p)[i].asset_a == upsert_pool(pools, p)[j].asset_a
                    && upsert_pool(pools, p)[i].asset_b == upsert_pool(pools, p)[j].asset_b),
{
    lemma_pool_index_bounds(pools, p.asset_a, p.asset_b);
    let out = upsert_pool(pools, p);
    if has_pool(pools, p.asset_a, p.asset_b) {
        let k = pool_index(pools, p.asset_a, p.asset_b);
        assert(forall|i: int|
            0 <= i < out.len() && i != k ==> out[i].asset_a == pools[i].asset_a
                && out[i].asset_b == pools[i].asset_b);
        assert(out[k].asset_a == pools[k].asset_a && out[k].asset_b == pools[k].asset_b);
    }
}

/// The balance held for `code`, zero if the asset is not held.
pub open spec fn holding_balance(holdings: Seq<AssetModel>, code: Seq<u8>) -> int {
    if has_asset(holdings, code) {
        asset_at(holdings, code).balance
    } else {
        0
    }
}

/// The balance `owner` holds in `code`: zero without a stored portfolio or
/// without a holding for the code.
pub open spec fn user_balance(ps: Seq<PortfolioModel>, owner: u64, code: Seq<u8>) -> int {
    if has_portfolio(ps, owner) {
        holding_balance(portfolio_at(ps, owner).assets, code)
    } else {
        0
    }
}

/// Upserting a snapshot of a registered asset keeps every holding registered.
pub proof fn lemma_upsert_asset_registered(
    holdings: Seq<AssetModel>,
    a: AssetModel,
    assets: Seq<AssetModel>,
)
    requires
        forall|k: int| 0 <= k < holdings.len()
            ==> has_asset(assets, (#[trigger] holdings[k]).code),
        has_asset(assets, a.code),
    ensures
        forall|k: int| 0 <= k < upsert_asset(holdings, a).len()
            ==> has_asset(assets, (#[trigger] upsert_asset(holdings, a)[k]).code),
{
    lemma_asset_index_bounds(holdings, a.code);
}

/// The registry price of `code`, zero if the asset is not registered.
pub open spec fn price_of(assets: Seq<AssetModel>, code: Seq<u8>) -> int {
    if has_asset(assets, code) {
        asset_at(assets, code).price_xlm
    } else {
        0
    }
}

/// One holding's contribution to a portfolio's valuation: its balance times
/// the asset's current registry price, scaled out of the price's seven
/// decimal places by truncating division.
pub open spec fn value_term(assets: Seq<AssetModel>, h: AssetModel) -> int {
    trunc_div(h.balance * price_of(assets, h.code), 10_000_000)
}

/// A portfolio's valuation: the sum of its holdings' contributions at current
/// registry prices.
pub open spec fn portfolio_value(holdings: Seq<AssetModel>, assets: Seq<AssetModel>) -> int
    decreases holdings.len(),
{
    if holdings.len() == 0 {
        0
    } else {
        portfolio_value(holdings.drop_last(), assets) + value_term(assets, holdings.last())
    }
}

/// Whether the valuation of `holdings` can be summed left to right in
/// 128-bit arithmetic: every product and every partial sum stays in range.
pub open spec fn value_ok(holdings: Seq<AssetModel>, assets: Seq<AssetModel>) -> bool
    decreases holdings.len(),
{
    if holdings.len() == 0 {
        true
    } else {
        value_ok(holdings.drop_last(), assets)
            && in_i128_range(holdings.last().balance * price_of(assets, holdings.last().code))
            && in_i128_range(portfolio_value(holdings, assets))
    }
}

/// A computable prefix of a computable valuation.
pub proof fn lemma_value_ok_take(holdings: Seq<AssetModel>, assets: Seq<AssetModel>, i: int)
    requires
        value_ok(holdings, assets),
        0 <= i <= holdings.len(),
    ensures
        value_ok(holdings.take(i), assets),
    decreases holdings.len() - i,
{
    if i == holdings.len() {
        assert(holdings.take(i) =~= holdings);
    } else {
        lemma_value_ok_take(holdings, assets, i + 1);
        assert(holdings.take(i + 1).drop_last() =~= holdings.take(i));
    }
}

/// The whole ledger: administrator, asset registry, portfolios, pools, and
/// the append-only order table. The order counter is the table's length.
#[verifier::ext_equal]
pub struct StateModel {
    pub admin: u64,
    pub assets: Seq<AssetModel>,
    pub portfolios: Seq<PortfolioModel>,
    pub pools: Seq<PoolModel>,
    pub orders: Seq<OrderModel>,
}

impl StateModel {
    /// The ledger at bootstrap: an administrator and empty stores.
    pub open spec fn init(admin: u64) -> StateModel {
        StateModel {
            admin,
            assets: Seq::empty(),
            portfolios: Seq::empty(),
            pools: Seq::empty(),
            orders: Seq::empty(),
        }
    }

    /// Well-formedness of the whole ledger: unique keys everywhere, holdings
    /// over registered assets only, pools in canonical order satisfying the
    /// data model, order ids dense from one.
    pub open spec fn wf(self) -> bool {
        &&& forall|i: int, j: int|
            0 <= i < j < self.assets.len() ==> self.assets[i].code != self.assets[j].code
        &&& forall|i: int, j: int|
            0 <= i < j < self.portfolios.len()
                ==> self.portfolios[i].owner != self.portfolios[j].owner
        &&& forall|i: int|
            0 <= i < self.portfolios.len() ==> self.portfolio_wf(#[trigger] self.portfolios[i])
        &&& forall|i: int, j: int|
            0 <= i < j < self.pools.len()
                ==> !(self.pools[i].asset_a == self.pools[j].asset_a
                    && self.pools[i].asset_b == self.pools[j].asset_b)
        &&& forall|i: int| 0 <= i < self.pools.len() ==> pool_wf(#[trigger] self.pools[i])
        &&& forall|i: int|
            0 <= i < self.orders.len() ==> order_wf(#[trigger] self.orders[i], i)
    }

    /// Well-formedness of one portfolio against this ledger's registry.
    pub open spec fn portfolio_wf(self, p: PortfolioModel) -> bool {
        portfolio_ok(self.assets, p)
    }
}

/// Well-formedness of one portfolio against a registry: holdings carry
/// distinct codes, every held asset is registered, and balances are in range.
pub open spec fn portfolio_ok(assets: Seq<AssetModel>, p: PortfolioModel) -> bool {
    &&& forall|i: int, j: int|
        0 <= i < j < p.assets.len() ==> p.assets[i].code != p.assets[j].code
    &&& forall|i: int| 0 <= i < p.assets.len() ==> has_asset(assets, (#[trigger] p.assets[i]).code)
    &&& forall|i: int| 0 <= i < p.assets.len() ==> in_i128_range((#[trigger] p.assets[i]).balance)
}

/// Upserting a well-formed portfolio into a well-formed store keeps owners
/// distinct and every portfolio well formed.
pub proof fn lemma_upsert_portfolio_wf(
    assets: Seq<AssetModel>,
    ps: Seq<PortfolioModel>,
    p: PortfolioModel,
)
    requires
        forall|i: int, j: int| 0 <= i < j < ps.len() ==> ps[i].owner != ps[j].owner,
        forall|i: int| 0 <= i < ps.len() ==> portfolio_ok(assets, #[trigger] ps[i]),
        portfolio_ok(assets, p),
    ensures
        forall|i: int, j: int|
            0 <= i < j < upsert_portfolio(ps, p).len()
                ==> upsert_portfolio(ps, p)[i].owner != upsert_portfolio(ps, p)[j].owner,
        forall|i: int|
            0 <= i < upsert_portfolio(ps, p).len()
                ==> portfolio_ok(assets, #[trigger] upsert_portfolio(ps, p)[i]),
{
    lemma_upsert_portfolio_unique(ps, p);
    lemma_portfolio_index_bounds(ps, p.owner);
    let out = upsert_portfolio(ps, p);
    assert forall|i: int| 0 <= i < out.len() implies portfolio_ok(assets, #[trigger] out[i]) by {
        if has_portfolio(ps, p.owner) {
            if i != portfolio_index(ps, p.owner) {
                assert(out[i] == ps[i]);
            }
        } else {
            if i < ps.len() {
                assert(out[i] == ps[i]);
            }
        }
    }
}

/// The pool data model: canonical separator-free codes, positive reserves in
/// range, fee below 10000 basis points.
pub open spec fn pool_wf(p: PoolModel) -> bool {
    &&& lex_lt(p.asset_a, p.asset_b)
    &&& valid_code(p.asset_a)
    &&& valid_code(p.asset_b)
    &&& 0 < p.reserve_a <= i128::MAX
    &&& 0 < p.reserve_b <= i128::MAX
    &&& 0 <= p.fee_rate < 10000
}

/// The order data model: the id is one past the order's position, the traded
/// amount is positive and amounts are in range.
pub open spec fn order_wf(o: OrderModel, i: int) -> bool {
    &&& o.id == i + 1
    &&& 0 < o.amount <= i128::MAX
    &&& in_i128_range(o.min_receive)
}

/// `registerAsset`: administrator only; an existing code is overwritten in
/// place (idempotent), a new one is appended with a zero registry balance.
pub open spec fn add_asset_model(
    m: StateModel,
    caller: u64,
    code: Seq<u8>,
    issuer: u64,
    price: int,
) -> (StateModel, Result<(), Error>) {
    if caller != m.admin {
        (m, Err(Error::Unauthorized))
    } else {
        let a = AssetModel { code, issuer, balance: 0, price_xlm: price };
        (StateModel { assets: upsert_asset(m.assets, a), ..m }, Ok(()))
    }
}

/// `setPrice`: administrator only; replaces the stored price of a registered
/// asset and fails with `NotFound` on an unknown code.
pub open spec fn update_asset_price_model(
    m: StateModel,
    caller: u64,
    code: Seq<u8>,
    price: int,
) -> (StateModel, Result<(), Error>) {
    if caller != m.admin {
        (m, Err(Error::Unauthorized))
    } else if !has_asset(m.assets, code) {
        (m, Err(Error::NotFound))
    } else {
        let a = AssetModel { price_xlm: price, ..asset_at(m.assets, code) };
        (StateModel { assets: upsert_asset(m.assets, a), ..m }, Ok(()))
    }
}

/// The stored portfolio of `owner`, or a fresh empty one stamped `now`.
pub open spec fn portfolio_or_new(
    ps: Seq<PortfolioModel>,
    owner: u64,
    now: u64,
) -> PortfolioModel {
    if has_portfolio(ps, owner) {
        portfolio_at(ps, owner)
    } else {
        PortfolioModel { owner, assets: Seq::empty(), total_value_xlm: 0, last_updated: now }
    }
}

/// `setBalance`: fails with `NotFound` on an unregistered code; otherwise
/// replaces the holding with a fresh registry snapshot carrying the new
/// balance, recomputes the cached valuation from scratch at current registry
/// prices, stamps the time, and stores the whole record. A valuation that
/// cannot be summed in 128-bit arithmetic aborts the call unapplied.
pub open spec fn update_balance_model(
    m: StateModel,
    owner: u64,
    code: Seq<u8>,
    new_balance: int,
    now: u64,
) -> (StateModel, Result<(), Error>) {
    if !has_asset(m.assets, code) {
        (m, Err(Error::NotFound))
    } else {
        let reg = asset_at(m.assets, code);
        let p0 = portfolio_or_new(m.portfolios, owner, now);
        let snapshot = AssetModel { code, issuer: reg.issuer, balance: new_balance, price_xlm: reg.price_xlm };
        let holdings = upsert_asset(p0.assets, snapshot);
        if !value_ok(holdings, m.assets) {
            (m, Err(Error::ArithmeticOverflow))
        } else {
            let p = PortfolioModel {
                owner,
                assets: holdings,
                total_value_xlm: portfolio_value(holdings, m.assets),
                last_updated: now,
            };
            (StateModel { portfolios: upsert_portfolio(m.portfolios, p), ..m }, Ok(()))
        }
    }
}

/// `createOrder`: requires a positive amount; assigns the next id from the
/// strictly increasing counter and appends a `Pending` order.
pub open spec fn create_swap_order_model(
    m: StateModel,
    owner: u64,
    from_asset: Seq<u8>,
    to_asset: Seq<u8>,
    amount: int,
    min_receive: int,
    now: u64,
) -> (StateModel, Result<u64, Error>) {
    if amount <= 0 {
        (m, Err(Error::InvalidArgument))
    } else if m.orders.len() + 1 > u64::MAX {
        (m, Err(Error::ArithmeticOverflow))
    } else {
        let id = (m.orders.len() + 1) as u64;
        let o = OrderModel {
            id,
            owner,
            from_asset,
            to_asset,
            amount,
            min_receive,
            timestamp: now,
            status: OrderStatus::Pending,
        };
        (StateModel { orders: m.orders.push(o), ..m }, Ok(id))
    }
}

/// `createOrReplacePool`: administrator only; rejects a malformed pair (equal
/// codes, or a code containing the key separator) and reserves or fee outside
/// the data model. The codes are stored in canonical order; the reserves are
/// stored as supplied, so callers must supply them already matching the
/// canonical order.
pub open spec fn create_swap_pool_model(
    m: StateModel,
    caller: u64,
    a: Seq<u8>,
    b: Seq<u8>,
    reserve_a: int,
    reserve_b: int,
    fee_rate: int,
) -> (StateModel, Result<(), Error>) {
    if caller != m.admin {
        (m, Err(Error::Unauthorized))
    } else if !valid_code(a) || !valid_code(b) || a == b {
        (m, Err(Error::InvalidArgument))
    } else if !(0 < reserve_a && 0 < reserve_b && fee_rate < 10000) {
        (m, Err(Error::InvalidArgument))
    } else {
        let p = PoolModel {
            asset_a: pair_lo(a, b),
            asset_b: pair_hi(a, b),
            reserve_a,
            reserve_b,
            fee_rate,
        };
        (StateModel { pools: upsert_pool(m.pools, p), ..m }, Ok(()))
    }
}

/// `quotePublic`: zero when no pool exists for the pair; otherwise the quote
/// against the pool's reserves in stored order, or the arithmetic error that
/// stops it.
pub open spec fn quote_output_model(
    pools: Seq<PoolModel>,
    from_asset: Seq<u8>,
    to_asset: Seq<u8>,
    amount_in: int,
) -> Result<int, Error> {
    if !has_pool(pools, from_asset, to_asset) {
        Ok(0)
    } else {
        let p = pool_at(pools, from_asset, to_asset);
        swap_amount_spec(amount_in, p.reserve_a, p.reserve_b, p.fee_rate)
    }
}

/// `executeOrder`. An unknown id is `NotFound`. A non-`Pending` order, a
/// missing pool, or a quote below `min_receive` is a reported failure that
/// changes nothing. Otherwise, as one atomic step: the input reserve grows by
/// the order's amount, the output reserve shrinks by the quote, the owner's
/// two balances move accordingly with the valuation recomputed, and the order
/// becomes `Completed`. Arithmetic failure or an unregistered traded asset
/// aborts the call with nothing applied.
///
/// The quote is computed against the pool's reserves in stored (canonical)
/// order, not against the side `from_asset` happens to lie on; this mirrors
/// the behaviour the engine has always had, and deciding whether it is the
/// intended economics is tracked as an open design question.
pub open spec fn execute_swap_model(m: StateModel, order_id: u64, now: u64) -> (
    StateModel,
    Result<bool, Error>,
) {
    if order_id < 1 || order_id > m.orders.len() {
        (m, Err(Error::NotFound))
    } else {
        let o = m.orders[order_id - 1];
        if o.status != OrderStatus::Pending {
            (m, Ok(false))
        } else if !has_pool(m.pools, o.from_asset, o.to_asset) {
            (m, Ok(false))
        } else {
            let pi = pool_index(m.pools, o.from_asset, o.to_asset);
            let pool = m.pools[pi];
            match swap_amount_spec(o.amount, pool.reserve_a, pool.reserve_b, pool.fee_rate) {
                Err(e) => (m, Err(e)),
                Ok(amount_out) => {
                    if amount_out < o.min_receive {
                        (m, Ok(false))
                    } else if !in_i128_range(pool.reserve_a + o.amount) {
                        (m, Err(Error::ArithmeticOverflow))
                    } else if !has_asset(m.assets, o.from_asset) || !has_asset(m.assets, o.to_asset) {
                        (m, Err(Error::NotFound))
                    } else {
                        let reg_from = asset_at(m.assets, o.from_asset);
                        let reg_to = asset_at(m.assets, o.to_asset);
                        let p0 = portfolio_or_new(m.portfolios, o.owner, now);
                        let bal_from = holding_balance(p0.assets, o.from_asset) - o.amount;
                        let bal_to = holding_balance(p0.assets, o.to_asset) + amount_out;
                        if !in_i128_range(bal_from) || !in_i128_range(bal_to) {
                            (m, Err(Error::ArithmeticOverflow))
                        } else {
                            let holdings = upsert_asset(
                                upsert_asset(
                                    p0.assets,
                                    AssetModel {
                                        code: o.from_asset,
                                        issuer: reg_from.issuer,
                                        balance: bal_from,
                                        price_xlm: reg_from.price_xlm,
                                    },
                                ),
                                AssetModel {
                                    code: o.to_asset,
                                    issuer: reg_to.issuer,
                                    balance: bal_to,
                                    price_xlm: reg_to.price_xlm,
                                },
                            );
                            if !value_ok(holdings, m.assets) {
                                (m, Err(Error::ArithmeticOverflow))
                            } else {
                                let p = PortfolioModel {
                                    owner: o.owner,
                                    assets: holdings,
                                    total_value_xlm: portfolio_value(holdings, m.assets),
                                    last_updated: now,
                                };
                                let new_pool = PoolModel {
                                    reserve_a: pool.reserve_a + o.amount,
                                    reserve_b: pool.reserve_b - amount_out,
                                    ..pool
                                };
                                (
                                    StateModel {
                                        pools: m.pools.update(pi, new_pool),
                                        portfolios: upsert_portfolio(m.portfolios, p),
                                        orders: m.orders.update(
                                            order_id - 1,
                                            OrderModel { status: OrderStatus::Completed, ..o },
                                        ),
                                        ..m
                                    },
                                    Ok(true),
                                )
                            }
                        }
                    }
                },
            }
        }
    }
}

/// The orders belonging to `owner`, in creation order.
pub open spec fn orders_of(orders: Seq<OrderModel>, owner: u64) -> Seq<OrderModel>
    decreases orders.len(),
{
    if orders.len() == 0 {
        Seq::empty()
    } else if orders.last().owner == owner {
        orders_of(orders.drop_last(), owner).push(orders.last())
    } else {
        orders_of(orders.drop_last(), owner)
    }
}

} // verus!
