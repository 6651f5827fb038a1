//! Laws relating the ledger's operations, proved over the model.

use vstd::prelude::*;
use crate::amm::swap_amount_spec;
use crate::model::{
    asset_at, execute_swap_model, has_portfolio, holding_balance, lemma_portfolio_index_bounds,
    lemma_portfolio_index_is, pool_at, pool_index, portfolio_at, portfolio_index,
    portfolio_or_new, portfolio_value, update_balance_model, upsert_asset, upsert_portfolio,
    StateModel,
};
use crate::types::{AssetModel, OrderStatus, PortfolioModel};
use crate::Error;

verus! {

/// After an upsert, the owner's stored portfolio is the upserted one.
proof fn lemma_portfolio_at_upsert(ps: Seq<PortfolioModel>, p: PortfolioModel)
    ensures
        has_portfolio(upsert_portfolio(ps, p), p.owner),
        portfolio_at(upsert_portfolio(ps, p), p.owner) == p,
{
    lemma_portfolio_index_bounds(ps, p.owner);
    let out = upsert_portfolio(ps, p);
    if has_portfolio(ps, p.owner) {
        lemma_portfolio_index_is(out, p.owner, portfolio_index(ps, p.owner));
    } else {
        lemma_portfolio_index_is(out, p.owner, ps.len() as int);
    }
}

/// A balance mutation recomputes the owner's cached valuation from scratch:
/// after any successful `update_balance`, the stored total equals the sum of
/// every holding's balance times the asset's current registry price, scaled
/// out of the price's seven decimal places.
pub proof fn lemma_update_balance_value_recomputed(
    m: StateModel,
    owner: u64,
    code: Seq<u8>,
    new_balance: int,
    now: u64,
)
    requires
        update_balance_model(m, owner, code, new_balance, now).1 == Ok::<(), Error>(()),
    ensures
        ({
            let m1 = update_balance_model(m, owner, code, new_balance, now).0;
            &&& has_portfolio(m1.portfolios, owner)
            &&& portfolio_at(m1.portfolios, owner).total_value_xlm == portfolio_value(
                portfolio_at(m1.portfolios, owner).assets,
                m1.assets,
            )
        }),
{
    let m1 = update_balance_model(m, owner, code, new_balance, now).0;
    let reg = asset_at(m.assets, code);
    let p0 = portfolio_or_new(m.portfolios, owner, now);
    let snapshot = AssetModel {
        code,
        issuer: reg.issuer,
        balance: new_balance,
        price_xlm: reg.price_xlm,
    };
    let holdings = upsert_asset(p0.assets, snapshot);
    let pnew = PortfolioModel {
        owner,
        assets: holdings,
        total_value_xlm: portfolio_value(holdings, m.assets),
        last_updated: now,
    };
    assert(m1.portfolios == upsert_portfolio(m.portfolios, pnew));
    lemma_portfolio_at_upsert(m.portfolios, pnew);
}

/// The same, after a successful swap execution: the owner's cached valuation
/// is the recomputed sum at current registry prices.
pub proof fn lemma_execute_value_recomputed(m: StateModel, order_id: u64, now: u64)
    requires
        1 <= order_id <= m.orders.len(),
        execute_swap_model(m, order_id, now).1 == Ok::<bool, Error>(true),
    ensures
        ({
            let m1 = execute_swap_model(m, order_id, now).0;
            let owner = m.orders[order_id - 1].owner;
            &&& has_portfolio(m1.portfolios, owner)
            &&& portfolio_at(m1.portfolios, owner).total_value_xlm == portfolio_value(
                portfolio_at(m1.portfolios, owner).assets,
                m1.assets,
            )
        }),
{
    let m1 = execute_swap_model(m, order_id, now).0;
    let o = m.orders[order_id - 1];
    let owner = o.owner;
    let pi = pool_index(m.pools, o.from_asset, o.to_asset);
    let pool = m.pools[pi];
    let amount_out = swap_amount_spec(o.amount, pool.reserve_a, pool.reserve_b, pool.fee_rate)
        ->Ok_0;
    let reg_from = asset_at(m.assets, o.from_asset);
    let reg_to = asset_at(m.assets, o.to_asset);
    let p0 = portfolio_or_new(m.portfolios, owner, now);
    let bal_from = holding_balance(p0.assets, o.from_asset) - o.amount;
    let bal_to = holding_balance(p0.assets, o.to_asset) + amount_out;
    let holdings = upsert_asset(
        upsert_asset(
            p0.assets,
            AssetModel {
                code: o.from_asset,
                issuer: reg_from.issuer,
                balance: bal_from,
                price_xlm: reg_from.price_xlm,
            },
        ),
        AssetModel {
            code: o.to_asset,
            issuer: reg_to.issuer,
            balance: bal_to,
            price_xlm: reg_to.price_xlm,
        },
    );
    let pnew = PortfolioModel {
        owner,
        assets: holdings,
        total_value_xlm: portfolio_value(holdings, m.assets),
        last_updated: now,
    };
    assert(m1.portfolios == upsert_portfolio(m.portfolios, pnew));
    lemma_portfolio_at_upsert(m.portfolios, pnew);
}

/// Executing an order is idempotent: once an execution has succeeded, a
/// second execution of the same id reports `false` and changes nothing, so
/// the state after two calls is the state after one.
pub proof fn lemma_execute_idempotent(m: StateModel, order_id: u64, now1: u64, now2: u64)
    requires
        1 <= order_id <= m.orders.len(),
        execute_swap_model(m, order_id, now1).1 == Ok::<bool, Error>(true),
    ensures
        execute_swap_model(execute_swap_model(m, order_id, now1).0, order_id, now2)
            == (execute_swap_model(m, order_id, now1).0, Ok::<bool, Error>(false)),
{
    let m1 = execute_swap_model(m, order_id, now1).0;
    assert(m1.orders[order_id - 1].status == OrderStatus::Completed);
    assert(m1.orders.len() == m.orders.len());
}

/// The slippage guard: when the quote for a pending order falls below its
/// `minReceive`, execution reports `false` and no stored record — pool,
/// portfolio, or order — changes, so the order may be retried later.
pub proof fn lemma_slippage_guard(m: StateModel, order_id: u64, now: u64)
    requires
        1 <= order_id <= m.orders.len(),
        m.orders[order_id - 1].status == OrderStatus::Pending,
        ({
            let o = m.orders[order_id - 1];
            let p = pool_at(m.pools, o.from_asset, o.to_asset);
            let q = swap_amount_spec(o.amount, p.reserve_a, p.reserve_b, p.fee_rate);
            q is Ok && q->Ok_0 < o.min_receive
        }),
    ensures
        execute_swap_model(m, order_id, now) == (m, Ok::<bool, Error>(false)),
{
}

} // verus!
