//! The executable ledger.
//!
//! [`MultiAssetManager`] holds the asset registry, the per-account
//! portfolios, the swap pools and the order table; every operation is
//! specified by the transition functions of [`crate::model`] and proved to
//! implement them. Callers are identified by plain account numbers; the
//! surrounding host is expected to have authenticated the caller it passes
//! in, and admin-only operations fail closed on any other caller.

use vstd::prelude::*;
use vstd::slice::slice_to_vec;
use crate::amm::{in_i128_range, swap_amount_spec, quote, amount_after_fee};
use crate::amm::{lemma_quote_bounded, lemma_trunc_div_in_range};
use crate::codes::{bytes_eq, bytes_lt, contains_separator, make_canonical_key, canonical_key};
use crate::codes::{lemma_lex_asymmetric, lemma_lex_connex, lex_lt};
use crate::model::{
    asset_at, asset_index, has_asset, has_pool, has_portfolio, pair_hi, pair_lo,
    pool_at, pool_index, portfolio_index, portfolio_or_new, portfolio_value,
    upsert_asset, upsert_pool, upsert_portfolio, value_ok, value_term, price_of,
    add_asset_model, create_swap_order_model, create_swap_pool_model, execute_swap_model,
    orders_of, quote_output_model, update_asset_price_model, update_balance_model, user_balance,
    lemma_upsert_asset_registered, lemma_upsert_portfolio_wf, portfolio_ok,
    lemma_asset_index_bounds, lemma_asset_index_is,
    lemma_pool_index_bounds, lemma_pool_index_is, lemma_portfolio_index_bounds,
    lemma_portfolio_index_is, lemma_upsert_asset_keeps_code, lemma_upsert_asset_unique,
    lemma_upsert_pool_unique, lemma_upsert_portfolio_unique, lemma_value_ok_take,
    order_wf, pool_wf, StateModel,
};
use crate::types::{Asset, AssetModel, OrderModel, OrderStatus, PoolModel, Portfolio,
    PortfolioModel, SwapOrder, SwapPool};
use crate::Error;

verus! {

/// The swap and portfolio ledger.
pub struct MultiAssetManager {
    pub admin: u64,
    pub assets: Vec<Asset>,
    pub portfolios: Vec<Portfolio>,
    pub pools: Vec<SwapPool>,
    pub orders: Vec<SwapOrder>,
    pub order_counter: u64,
}

impl View for MultiAssetManager {
    type V = StateModel;

    open spec fn view(&self) -> StateModel {
        StateModel {
            admin: self.admin,
            assets: self.assets@.map_values(|a: Asset| a@),
            portfolios: self.portfolios@.map_values(|p: Portfolio| p@),
            pools: self.pools@.map_values(|p: SwapPool| p@),
            orders: self.orders@.map_values(|o: SwapOrder| o@),
        }
    }
}

/// The first index of `assets` whose record carries `code`, or the length.
fn find_asset_index(assets: &Vec<Asset>, code: &[u8]) -> (r: usize)
    ensures
        r as int == asset_index(assets@.map_values(|a: Asset| a@), code@),
        r <= assets@.len(),
        r < assets@.len() ==> assets@[r as int]@.code == code@,
{
    let ghost m = assets@.map_values(|a: Asset| a@);
    let n = assets.len();
    let mut i: usize = 0;
    while i < n
        invariant
            0 <= i <= n,
            n == assets@.len(),
            m == assets@.map_values(|a: Asset| a@),
            forall|j: int| 0 <= j < i ==> m[j].code != code@,
        decreases n - i,
    {
        if bytes_eq(assets[i].code.as_slice(), code) {
            proof {
                lemma_asset_index_is(m, code@, i as int);
            }
            return i;
        }
        i = i + 1;
    }
    proof {
        lemma_asset_index_is(m, code@, n as int);
    }
    n
}

/// The first index of `ps` whose portfolio belongs to `owner`, or the length.
fn find_portfolio_index(ps: &Vec<Portfolio>, owner: u64) -> (r: usize)
    ensures
        r as int == portfolio_index(ps@.map_values(|p: Portfolio| p@), owner),
        r <= ps@.len(),
        r < ps@.len() ==> ps@[r as int]@.owner == owner,
{
    let ghost m = ps@.map_values(|p: Portfolio| p@);
    let n = ps.len();
    let mut i: usize = 0;
    while i < n
        invariant
            0 <= i <= n,
            n == ps@.len(),
            m == ps@.map_values(|p: Portfolio| p@),
            forall|j: int| 0 <= j < i ==> m[j].owner != owner,
        decreases n - i,
    {
        if ps[i].owner == owner {
            proof {
                lemma_portfolio_index_is(m, owner, i as int);
            }
            return i;
        }
        i = i + 1;
    }
    proof {
        lemma_portfolio_index_is(m, owner, n as int);
    }
    n
}

/// The first index of `pools` whose pool is over the unordered pair
/// `(a, b)`, or the length.
fn find_pool_index(pools: &Vec<SwapPool>, a: &[u8], b: &[u8]) -> (r: usize)
    ensures
        r as int == pool_index(pools@.map_values(|p: SwapPool| p@), a@, b@),
        r <= pools@.len(),
{
    let ghost m = pools@.map_values(|p: SwapPool| p@);
    let (lo, hi) = if bytes_lt(b, a) { (b, a) } else { (a, b) };
    proof {
        assert(lo@ == pair_lo(a@, b@));
        assert(hi@ == pair_hi(a@, b@));
    }
    let n = pools.len();
    let mut i: usize = 0;
    while i < n
        invariant
            0 <= i <= n,
            n == pools@.len(),
            m == pools@.map_values(|p: SwapPool| p@),
            lo@ == pair_lo(a@, b@),
            hi@ == pair_hi(a@, b@),
            forall|j: int|
                0 <= j < i ==> !(m[j].asset_a == pair_lo(a@, b@) && m[j].asset_b == pair_hi(a@, b@)),
        decreases n - i,
    {
        if bytes_eq(pools[i].asset_a.as_slice(), lo) && bytes_eq(pools[i].asset_b.as_slice(), hi) {
            proof {
                lemma_pool_index_is(m, a@, b@, i as int);
            }
            return i;
        }
        i = i + 1;
    }
    proof {
        lemma_pool_index_is(m, a@, b@, n as int);
    }
    n
}

/// An identical copy of a vector of asset records.
fn copy_assets(v: &Vec<Asset>) -> (r: Vec<Asset>)
    ensures
        r@.map_values(|a: Asset| a@) == v@.map_values(|a: Asset| a@),
{
    let mut r: Vec<Asset> = Vec::new();
    let n = v.len();
    let mut i: usize = 0;
    while i < n
        invariant
            0 <= i <= n,
            n == v@.len(),
            r@.len() == i,
            forall|j: int| 0 <= j < i ==> r@[j]@ == v@[j]@,
        decreases n - i,
    {
        r.push(v[i].duplicate());
        i = i + 1;
    }
    proof {
        assert(r@.map_values(|a: Asset| a@) =~= v@.map_values(|a: Asset| a@));
    }
    r
}

/// Replaces the holding carrying the snapshot's code, or appends it.
fn upsert_holding(holdings: &mut Vec<Asset>, snapshot: Asset)
    ensures
        final(holdings)@.map_values(|a: Asset| a@) == upsert_asset(
            old(holdings)@.map_values(|a: Asset| a@),
            snapshot@,
        ),
{
    let ghost m = holdings@.map_values(|a: Asset| a@);
    let idx = find_asset_index(holdings, snapshot.code.as_slice());
    proof {
        lemma_asset_index_bounds(m, snapshot@.code);
    }
    if idx < holdings.len() {
        holdings[idx] = snapshot;
    } else {
        holdings.push(snapshot);
    }
    proof {
        assert(holdings@.map_values(|a: Asset| a@) =~= upsert_asset(m, snapshot@));
    }
}

/// The cached valuation of `holdings` at the current prices of `assets`,
/// summed left to right in 128-bit arithmetic; overflow of any product or
/// partial sum is fatal.
fn calculate_portfolio_value(holdings: &Vec<Asset>, assets: &Vec<Asset>) -> (r: Result<i128, Error>)
    ensures
        match r {
            Ok(v) => value_ok(
                holdings@.map_values(|a: Asset| a@),
                assets@.map_values(|a: Asset| a@),
            ) && v as int == portfolio_value(
                holdings@.map_values(|a: Asset| a@),
                assets@.map_values(|a: Asset| a@),
            ),
            Err(e) => e == Error::ArithmeticOverflow && !value_ok(
                holdings@.map_values(|a: Asset| a@),
                assets@.map_values(|a: Asset| a@),
            ),
        },
{
    let ghost mh = holdings@.map_values(|a: Asset| a@);
    let ghost ma = assets@.map_values(|a: Asset| a@);
    let n = holdings.len();
    let mut acc: i128 = 0;
    let mut i: usize = 0;
    while i < n
        invariant
            0 <= i <= n,
            n == holdings@.len(),
            mh == holdings@.map_values(|a: Asset| a@),
            ma == assets@.map_values(|a: Asset| a@),
            value_ok(mh.take(i as int), ma),
            acc as int == portfolio_value(mh.take(i as int), ma),
        decreases n - i,
    {
        proof {
            assert(mh.take(i as int + 1).drop_last() =~= mh.take(i as int));
            assert(mh.take(i as int + 1).last() == mh[i as int]);
        }
        let aidx = find_asset_index(assets, holdings[i].code.as_slice());
        let price: i128 = if aidx < assets.len() {
            assets[aidx].price_xlm
        } else {
            0
        };
        proof {
            assert(price as int == price_of(ma, mh[i as int].code));
        }
        let prod = match holdings[i].balance.checked_mul(price) {
            Some(p) => p,
            None => {
                proof {
                    assert(!value_ok(mh.take(i as int + 1), ma));
                    if value_ok(mh, ma) {
                        lemma_value_ok_take(mh, ma, i as int + 1);
                    }
                }
                return Err(Error::ArithmeticOverflow);
            },
        };
        proof {
            lemma_trunc_div_in_range(prod as int, 10_000_000);
        }
        let term = prod.checked_div(10_000_000).unwrap();
        proof {
            assert(term as int == value_term(ma, mh[i as int]));
        }
        let next = match acc.checked_add(term) {
            Some(s) => s,
            None => {
                proof {
                    assert(portfolio_value(mh.take(i as int + 1), ma) == acc as int + term as int);
                    assert(!value_ok(mh.take(i as int + 1), ma));
                    if value_ok(mh, ma) {
                        lemma_value_ok_take(mh, ma, i as int + 1);
                    }
                }
                return Err(Error::ArithmeticOverflow);
            },
        };
        acc = next;
        i = i + 1;
    }
    proof {
        assert(mh.take(n as int) =~= mh);
    }
    Ok(acc)
}

impl MultiAssetManager {
    /// The ledger is well formed: its model is, and the order counter equals
    /// the number of orders ever created.
    pub open spec fn wf(self) -> bool {
        &&& self@.wf()
        &&& self.order_counter as int == self@.orders.len()
    }

    /// Bootstraps an empty ledger with its administrator. The administrator
    /// is fixed for the ledger's lifetime.
    pub fn initialize(admin: u64) -> (s: MultiAssetManager)
        ensures
            s@ == StateModel::init(admin),
            s.wf(),
    {
        let s = MultiAssetManager {
            admin,
            assets: Vec::new(),
            portfolios: Vec::new(),
            pools: Vec::new(),
            orders: Vec::new(),
            order_counter: 0,
        };
        proof {
            assert(s@ =~= StateModel::init(admin));
        }
        s
    }

    /// Registers a supported asset with its issuer and initial reference
    /// price. Administrator only; registering an existing code overwrites
    /// the record in place.
    pub fn add_asset(
        &mut self,
        caller: u64,
        code: &[u8],
        issuer: u64,
        initial_price_xlm: i128,
    ) -> (r: Result<(), Error>)
        requires
            old(self).wf(),
        ensures
            final(self).wf(),
            final(self)@ == add_asset_model(
                old(self)@,
                caller,
                code@,
                issuer,
                initial_price_xlm as int,
            ).0,
            r == add_asset_model(old(self)@, caller, code@, issuer, initial_price_xlm as int).1,
    {
        if caller != self.admin {
            return Err(Error::Unauthorized);
        }
        let ghost m0 = self@;
        let idx = find_asset_index(&self.assets, code);
        let a = Asset {
            code: slice_to_vec(code),
            issuer,
            balance: 0,
            price_xlm: initial_price_xlm,
        };
        proof {
            lemma_asset_index_bounds(m0.assets, code@);
        }
        if idx < self.assets.len() {
            self.assets[idx] = a;
        } else {
            self.assets.push(a);
        }
        proof {
            let am = AssetModel {
                code: code@,
                issuer,
                balance: 0,
                price_xlm: initial_price_xlm as int,
            };
            assert(self@.assets =~= upsert_asset(m0.assets, am));
            self.lemma_after_asset_upsert(m0, am);
        }
        Ok(())
    }

    /// Replaces the reference price of a registered asset. Administrator
    /// only; an unknown code is `NotFound`.
    pub fn update_asset_price(
        &mut self,
        caller: u64,
        asset_code: &[u8],
        new_price_xlm: i128,
    ) -> (r: Result<(), Error>)
        requires
            old(self).wf(),
        ensures
            final(self).wf(),
            final(self)@ == update_asset_price_model(
                old(self)@,
                caller,
                asset_code@,
                new_price_xlm as int,
            ).0,
            r == update_asset_price_model(
                old(self)@,
                caller,
                asset_code@,
                new_price_xlm as int,
            ).1,
    {
        if caller != self.admin {
            return Err(Error::Unauthorized);
        }
        let ghost m0 = self@;
        let idx = find_asset_index(&self.assets, asset_code);
        if idx == self.assets.len() {
            return Err(Error::NotFound);
        }
        let a = Asset {
            code: slice_to_vec(asset_code),
            issuer: self.assets[idx].issuer,
            balance: self.assets[idx].balance,
            price_xlm: new_price_xlm,
        };
        proof {
            lemma_asset_index_bounds(m0.assets, asset_code@);
        }
        self.assets[idx] = a;
        proof {
            let am = AssetModel {
                price_xlm: new_price_xlm as int,
                ..asset_at(m0.assets, asset_code@)
            };
            assert(self@.assets =~= upsert_asset(m0.assets, am));
            self.lemma_after_asset_upsert(m0, am);
        }
        Ok(())
    }

    /// The registered asset record for `code`; `NotFound` if the code was
    /// never registered.
    pub fn get_asset(&self, code: &[u8]) -> (r: Result<Asset, Error>)
        ensures
            match r {
                Ok(a) => has_asset(self@.assets, code@) && a@ == asset_at(self@.assets, code@),
                Err(e) => e == Error::NotFound && !has_asset(self@.assets, code@),
            },
    {
        let idx = find_asset_index(&self.assets, code);
        if idx < self.assets.len() {
            Ok(self.assets[idx].duplicate())
        } else {
            Err(Error::NotFound)
        }
    }

    /// The stored portfolio of `owner`, or a fresh empty one stamped `now`.
    /// A fresh portfolio is not persisted until its first mutation.
    pub fn get_portfolio(&self, owner: u64, now: u64) -> (r: Portfolio)
        ensures
            r@ == portfolio_or_new(self@.portfolios, owner, now),
    {
        let pidx = find_portfolio_index(&self.portfolios, owner);
        if pidx < self.portfolios.len() {
            self.portfolios[pidx].duplicate()
        } else {
            let r = Portfolio {
                owner,
                assets: Vec::new(),
                total_value_xlm: 0,
                last_updated: now,
            };
            proof {
                assert(r@.assets =~= Seq::<AssetModel>::empty());
            }
            r
        }
    }

    /// The balance `owner` holds in `asset_code`; zero when nothing is held.
    pub fn get_user_balance(&self, owner: u64, asset_code: &[u8]) -> (r: i128)
        ensures
            r as int == user_balance(self@.portfolios, owner, asset_code@),
    {
        let pidx = find_portfolio_index(&self.portfolios, owner);
        if pidx == self.portfolios.len() {
            return 0;
        }
        let holdings = &self.portfolios[pidx].assets;
        let hidx = find_asset_index(holdings, asset_code);
        proof {
            lemma_asset_index_bounds(holdings@.map_values(|a: Asset| a@), asset_code@);
        }
        if hidx == holdings.len() {
            0
        } else {
            holdings[hidx].balance
        }
    }

    /// Sets `owner`'s balance in a registered asset to `new_balance`: the
    /// holding becomes a fresh registry snapshot with that balance, the
    /// cached valuation is recomputed from scratch at current registry
    /// prices, and the record is stamped `now` and stored. An unregistered
    /// code is `NotFound`; a valuation that overflows 128-bit arithmetic
    /// aborts the call with nothing applied. The caller must be `owner`,
    /// which the surrounding host authenticates.
    pub fn update_balance(
        &mut self,
        owner: u64,
        asset_code: &[u8],
        new_balance: i128,
        now: u64,
    ) -> (r: Result<(), Error>)
        requires
            old(self).wf(),
        ensures
            final(self).wf(),
            final(self)@ == update_balance_model(
                old(self)@,
                owner,
                asset_code@,
                new_balance as int,
                now,
            ).0,
            r == update_balance_model(old(self)@, owner, asset_code@, new_balance as int, now).1,
    {
        let ghost m0 = self@;
        let aidx = find_asset_index(&self.assets, asset_code);
        if aidx == self.assets.len() {
            return Err(Error::NotFound);
        }
        proof {
            lemma_asset_index_bounds(m0.assets, asset_code@);
        }
        let snapshot = Asset {
            code: slice_to_vec(asset_code),
            issuer: self.assets[aidx].issuer,
            balance: new_balance,
            price_xlm: self.assets[aidx].price_xlm,
        };
        let pidx = find_portfolio_index(&self.portfolios, owner);
        proof {
            lemma_portfolio_index_bounds(m0.portfolios, owner);
        }
        let mut holdings: Vec<Asset> = if pidx < self.portfolios.len() {
            copy_assets(&self.portfolios[pidx].assets)
        } else {
            Vec::new()
        };
        proof {
            assert(holdings@.map_values(|a: Asset| a@) =~= portfolio_or_new(
                m0.portfolios,
                owner,
                now,
            ).assets);
        }
        upsert_holding(&mut holdings, snapshot);
        let total = match calculate_portfolio_value(&holdings, &self.assets) {
            Ok(v) => v,
            Err(e) => {
                return Err(e);
            },
        };
        let p = Portfolio { owner, assets: holdings, total_value_xlm: total, last_updated: now };
        if pidx < self.portfolios.len() {
            self.portfolios[pidx] = p;
        } else {
            self.portfolios.push(p);
        }
        proof {
            let p0 = portfolio_or_new(m0.portfolios, owner, now);
            let pm = PortfolioModel {
                owner,
                assets: upsert_asset(p0.assets, snapshot@),
                total_value_xlm: portfolio_value(upsert_asset(p0.assets, snapshot@), m0.assets),
                last_updated: now,
            };
            assert(self@.portfolios =~= upsert_portfolio(m0.portfolios, pm));
            assert(self@ =~= update_balance_model(
                m0,
                owner,
                asset_code@,
                new_balance as int,
                now,
            ).0);
            if has_portfolio(m0.portfolios, owner) {
                assert(m0.portfolio_wf(m0.portfolios[portfolio_index(m0.portfolios, owner)]));
            }
            lemma_upsert_asset_unique(p0.assets, snapshot@);
            lemma_upsert_asset_registered(p0.assets, snapshot@, m0.assets);
            self.lemma_after_portfolio_upsert(m0, pm);
        }
        Ok(())
    }

    /// Creates or wholesale replaces the pool over the unordered pair
    /// `(asset_a, asset_b)`. Administrator only. A malformed pair — equal
    /// codes, or a code containing the key separator — and reserves or fee
    /// outside the data model are `InvalidArgument`. The codes are stored in
    /// canonical order; the reserves are stored as supplied, so the caller
    /// must supply them already matching the canonical order.
    pub fn create_swap_pool(
        &mut self,
        caller: u64,
        asset_a: &[u8],
        asset_b: &[u8],
        initial_reserve_a: i128,
        initial_reserve_b: i128,
        fee_rate: u32,
    ) -> (r: Result<(), Error>)
        requires
            old(self).wf(),
        ensures
            final(self).wf(),
            final(self)@ == create_swap_pool_model(
                old(self)@,
                caller,
                asset_a@,
                asset_b@,
                initial_reserve_a as int,
                initial_reserve_b as int,
                fee_rate as int,
            ).0,
            r == create_swap_pool_model(
                old(self)@,
                caller,
                asset_a@,
                asset_b@,
                initial_reserve_a as int,
                initial_reserve_b as int,
                fee_rate as int,
            ).1,
    {
        if caller != self.admin {
            return Err(Error::Unauthorized);
        }
        if contains_separator(asset_a) || contains_separator(asset_b) || bytes_eq(asset_a, asset_b)
        {
            return Err(Error::InvalidArgument);
        }
        if !(initial_reserve_a > 0 && initial_reserve_b > 0 && fee_rate < 10000) {
            return Err(Error::InvalidArgument);
        }
        let ghost m0 = self@;
        let (lo, hi) = if bytes_lt(asset_b, asset_a) {
            (asset_b, asset_a)
        } else {
            (asset_a, asset_b)
        };
        proof {
            lemma_lex_asymmetric(asset_a@, asset_b@);
            if !lex_lt(asset_a@, asset_b@) && !lex_lt(asset_b@, asset_a@) {
                lemma_lex_connex(asset_a@, asset_b@);
            }
            assert(lex_lt(lo@, hi@));
        }
        let pool = SwapPool {
            asset_a: slice_to_vec(lo),
            asset_b: slice_to_vec(hi),
            reserve_a: initial_reserve_a,
            reserve_b: initial_reserve_b,
            fee_rate,
        };
        let pidx = find_pool_index(&self.pools, asset_a, asset_b);
        proof {
            lemma_pool_index_bounds(m0.pools, asset_a@, asset_b@);
            assert(pool@.asset_a == pair_lo(asset_a@, asset_b@));
            assert(pool@.asset_b == pair_hi(asset_a@, asset_b@));
            lemma_lex_asymmetric(lo@, hi@);
            assert(pair_lo(lo@, hi@) == lo@);
            assert(pair_hi(lo@, hi@) == hi@);
            lemma_pool_index_is(m0.pools, lo@, hi@, pidx as int);
        }
        let ghost pm = pool@;
        if pidx < self.pools.len() {
            self.pools[pidx] = pool;
        } else {
            self.pools.push(pool);
        }
        proof {
            assert(self@.pools =~= upsert_pool(m0.pools, pm));
            assert(self@ =~= create_swap_pool_model(
                m0,
                caller,
                asset_a@,
                asset_b@,
                initial_reserve_a as int,
                initial_reserve_b as int,
                fee_rate as int,
            ).0);
            lemma_lex_asymmetric(pm.asset_a, pm.asset_b);
            lemma_upsert_pool_unique(m0.pools, pm);
            assert(pool_wf(pm));
        }
        Ok(())
    }

    /// The stored pool over the unordered pair `(asset_a, asset_b)`, if any.
    pub fn get_swap_pool(&self, asset_a: &[u8], asset_b: &[u8]) -> (r: Option<SwapPool>)
        ensures
            match r {
                Some(p) => has_pool(self@.pools, asset_a@, asset_b@) && p@ == pool_at(
                    self@.pools,
                    asset_a@,
                    asset_b@,
                ),
                None => !has_pool(self@.pools, asset_a@, asset_b@),
            },
    {
        let idx = find_pool_index(&self.pools, asset_a, asset_b);
        if idx < self.pools.len() {
            Some(self.pools[idx].duplicate())
        } else {
            None
        }
    }

    /// The canonical storage key of the unordered pair `(asset_a, asset_b)`:
    /// the lexicographically smaller code, the separator, the larger code.
    pub fn get_pool_key(asset_a: &[u8], asset_b: &[u8]) -> (r: Vec<u8>)
        ensures
            r@ == canonical_key(asset_a@, asset_b@),
    {
        make_canonical_key(asset_a, asset_b)
    }

    /// The constant-product swap output for `amount_in` against the given
    /// reserves and fee, computed in checked 128-bit arithmetic: overflow and
    /// a zero denominator are reported, never wrapped.
    pub fn calculate_swap_amount(
        amount_in: i128,
        reserve_in: i128,
        reserve_out: i128,
        fee_rate: u32,
    ) -> (r: Result<i128, Error>)
        ensures
            match r {
                Ok(v) => swap_amount_spec(
                    amount_in as int,
                    reserve_in as int,
                    reserve_out as int,
                    fee_rate as int,
                ) == Ok::<int, Error>(v as int),
                Err(e) => swap_amount_spec(
                    amount_in as int,
                    reserve_in as int,
                    reserve_out as int,
                    fee_rate as int,
                ) == Err::<int, Error>(e),
            },
    {
        let fee_factor: i128 = 10000 - (fee_rate as i128);
        let scaled = match amount_in.checked_mul(fee_factor) {
            Some(s) => s,
            None => {
                return Err(Error::ArithmeticOverflow);
            },
        };
        proof {
            lemma_trunc_div_in_range(scaled as int, 10000);
        }
        let after_fee = scaled.checked_div(10000).unwrap();
        proof {
            assert(after_fee as int == amount_after_fee(amount_in as int, fee_rate as int));
        }
        let numerator = match reserve_out.checked_mul(after_fee) {
            Some(v) => v,
            None => {
                return Err(Error::ArithmeticOverflow);
            },
        };
        let denominator = match reserve_in.checked_add(after_fee) {
            Some(v) => v,
            None => {
                return Err(Error::ArithmeticOverflow);
            },
        };
        if denominator == 0 {
            return Err(Error::DivideByZero);
        }
        let out = match numerator.checked_div(denominator) {
            Some(v) => v,
            None => {
                return Err(Error::ArithmeticOverflow);
            },
        };
        proof {
            assert(out as int == quote(
                reserve_in as int,
                reserve_out as int,
                amount_in as int,
                fee_rate as int,
            ));
        }
        Ok(out)
    }

    /// The expected swap output for `amount_in` between the two assets: zero
    /// when no pool exists for the pair, otherwise the quote against the
    /// pool's stored reserves.
    pub fn calculate_swap_output(
        &self,
        from_asset: &[u8],
        to_asset: &[u8],
        amount_in: i128,
    ) -> (r: Result<i128, Error>)
        ensures
            match r {
                Ok(v) => quote_output_model(self@.pools, from_asset@, to_asset@, amount_in as int)
                    == Ok::<int, Error>(v as int),
                Err(e) => quote_output_model(self@.pools, from_asset@, to_asset@, amount_in as int)
                    == Err::<int, Error>(e),
            },
    {
        let idx = find_pool_index(&self.pools, from_asset, to_asset);
        if idx == self.pools.len() {
            return Ok(0);
        }
        let reserve_a = self.pools[idx].reserve_a;
        let reserve_b = self.pools[idx].reserve_b;
        let fee_rate = self.pools[idx].fee_rate;
        Self::calculate_swap_amount(amount_in, reserve_a, reserve_b, fee_rate)
    }

    /// Creates a `Pending` swap order for `owner` and returns its id, the
    /// next value of the strictly increasing order counter. The amount must
    /// be positive; neither the assets nor a pool are validated here — that
    /// is deferred to execution. The caller must be `owner`, which the
    /// surrounding host authenticates.
    pub fn create_swap_order(
        &mut self,
        owner: u64,
        from_asset: &[u8],
        to_asset: &[u8],
        amount: i128,
        min_receive: i128,
        now: u64,
    ) -> (r: Result<u64, Error>)
        requires
            old(self).wf(),
        ensures
            final(self).wf(),
            final(self)@ == create_swap_order_model(
                old(self)@,
                owner,
                from_asset@,
                to_asset@,
                amount as int,
                min_receive as int,
                now,
            ).0,
            r == create_swap_order_model(
                old(self)@,
                owner,
                from_asset@,
                to_asset@,
                amount as int,
                min_receive as int,
                now,
            ).1,
    {
        if amount <= 0 {
            return Err(Error::InvalidArgument);
        }
        let ghost m0 = self@;
        let counter = match self.order_counter.checked_add(1) {
            Some(c) => c,
            None => {
                return Err(Error::ArithmeticOverflow);
            },
        };
        let order = SwapOrder {
            id: counter,
            owner,
            from_asset: slice_to_vec(from_asset),
            to_asset: slice_to_vec(to_asset),
            amount,
            min_receive,
            timestamp: now,
            status: OrderStatus::Pending,
        };
        let ghost om = order@;
        self.orders.push(order);
        self.order_counter = counter;
        proof {
            assert(self@.orders =~= m0.orders.push(om));
            assert(self@ =~= create_swap_order_model(
                m0,
                owner,
                from_asset@,
                to_asset@,
                amount as int,
                min_receive as int,
                now,
            ).0);
        }
        Ok(counter)
    }

    /// The orders belonging to `owner`, in creation order, gathered by a full
    /// scan of the order table. Appropriate only for small order counts; at
    /// scale a secondary owner index would replace the scan.
    pub fn get_user_orders(&self, owner: u64) -> (r: Vec<SwapOrder>)
        ensures
            r@.map_values(|o: SwapOrder| o@) == orders_of(self@.orders, owner),
    {
        let ghost m = self@.orders;
        let mut r: Vec<SwapOrder> = Vec::new();
        let n = self.orders.len();
        let mut i: usize = 0;
        while i < n
            invariant
                0 <= i <= n,
                n == self.orders@.len(),
                m == self@.orders,
                m == self.orders@.map_values(|o: SwapOrder| o@),
                r@.map_values(|o: SwapOrder| o@) == orders_of(m.take(i as int), owner),
            decreases n - i,
        {
            proof {
                assert(m.take(i as int + 1).drop_last() =~= m.take(i as int));
                assert(m.take(i as int + 1).last() == m[i as int]);
            }
            if self.orders[i].owner == owner {
                r.push(self.orders[i].duplicate());
                proof {
                    assert(r@.map_values(|o: SwapOrder| o@) =~= orders_of(
                        m.take(i as int + 1),
                        owner,
                    ));
                }
            }
            i = i + 1;
        }
        proof {
            assert(m.take(n as int) =~= m);
        }
        r
    }

    /// Executes a pending swap order as one atomic step.
    ///
    /// An unknown id is `NotFound`. A non-pending order, a missing pool for
    /// the order's pair, or a quote below `min_receive` is a reported
    /// failure: the call returns `Ok(false)` and changes nothing, and a
    /// pending order may be retried later. On success the input reserve
    /// grows by the order's amount, the output reserve shrinks by the quote,
    /// the owner's balances move accordingly with the valuation recomputed,
    /// the order becomes `Completed`, and the call returns `Ok(true)`.
    /// Arithmetic failure, or a traded asset missing from the registry,
    /// aborts the call with nothing applied.
    ///
    /// The quote runs against the pool's reserves in stored (canonical)
    /// order, whichever side `from_asset` lies on; see
    /// [`crate::model::execute_swap_model`].
    pub fn execute_swap(&mut self, order_id: u64, now: u64) -> (r: Result<bool, Error>)
        requires
            old(self).wf(),
        ensures
            final(self).wf(),
            final(self)@ == execute_swap_model(old(self)@, order_id, now).0,
            r == execute_swap_model(old(self)@, order_id, now).1,
    {
        let ghost m0 = self@;
        if order_id < 1 || order_id > self.order_counter {
            return Err(Error::NotFound);
        }
        proof {
            assert(self.orders.len() == self.orders@.len());
            assert(order_id as int <= old(self)@.orders.len());
            assert(old(self)@.orders.len() == self.orders@.len());
            assert(order_id - 1 <= usize::MAX);
        }
        let oidx: usize = (order_id - 1) as usize;
        proof {
            assert(oidx as int == order_id - 1);
            assert(order_wf(m0.orders[order_id - 1], order_id - 1));
        }
        let o = self.orders[oidx].duplicate();
        proof {
            assert(o@ == m0.orders[order_id - 1]);
        }
        if !(matches!(o.status, OrderStatus::Pending)) {
            return Ok(false);
        }
        let pidx = find_pool_index(&self.pools, o.from_asset.as_slice(), o.to_asset.as_slice());
        if pidx == self.pools.len() {
            return Ok(false);
        }
        proof {
            assert(pool_wf(m0.pools[pidx as int]));
        }
        let ghost pm0 = m0.pools[pidx as int];
        let amount_out = match Self::calculate_swap_amount(
            o.amount,
            self.pools[pidx].reserve_a,
            self.pools[pidx].reserve_b,
            self.pools[pidx].fee_rate,
        ) {
            Ok(v) => v,
            Err(e) => {
                return Err(e);
            },
        };
        if amount_out < o.min_receive {
            return Ok(false);
        }
        let new_reserve_a = match self.pools[pidx].reserve_a.checked_add(o.amount) {
            Some(v) => v,
            None => {
                return Err(Error::ArithmeticOverflow);
            },
        };
        let fidx = find_asset_index(&self.assets, o.from_asset.as_slice());
        let tidx = find_asset_index(&self.assets, o.to_asset.as_slice());
        if fidx == self.assets.len() || tidx == self.assets.len() {
            return Err(Error::NotFound);
        }
        proof {
            lemma_asset_index_bounds(m0.assets, o@.from_asset);
            lemma_asset_index_bounds(m0.assets, o@.to_asset);
            lemma_portfolio_index_bounds(m0.portfolios, o.owner);
        }
        let bal_from = match self.get_user_balance(o.owner, o.from_asset.as_slice()).checked_sub(
            o.amount,
        ) {
            Some(v) => v,
            None => {
                return Err(Error::ArithmeticOverflow);
            },
        };
        let bal_to = match self.get_user_balance(o.owner, o.to_asset.as_slice()).checked_add(
            amount_out,
        ) {
            Some(v) => v,
            None => {
                return Err(Error::ArithmeticOverflow);
            },
        };
        let pfidx = find_portfolio_index(&self.portfolios, o.owner);
        let mut holdings: Vec<Asset> = if pfidx < self.portfolios.len() {
            copy_assets(&self.portfolios[pfidx].assets)
        } else {
            Vec::new()
        };
        proof {
            assert(holdings@.map_values(|a: Asset| a@) =~= portfolio_or_new(
                m0.portfolios,
                o.owner,
                now,
            ).assets);
        }
        let snap_from = Asset {
            code: slice_to_vec(o.from_asset.as_slice()),
            issuer: self.assets[fidx].issuer,
            balance: bal_from,
            price_xlm: self.assets[fidx].price_xlm,
        };
        upsert_holding(&mut holdings, snap_from);
        let snap_to = Asset {
            code: slice_to_vec(o.to_asset.as_slice()),
            issuer: self.assets[tidx].issuer,
            balance: bal_to,
            price_xlm: self.assets[tidx].price_xlm,
        };
        upsert_holding(&mut holdings, snap_to);
        let total = match calculate_portfolio_value(&holdings, &self.assets) {
            Ok(v) => v,
            Err(e) => {
                return Err(e);
            },
        };
        proof {
            assert(in_i128_range(pm0.reserve_a + amount_after_fee(o@.amount, pm0.fee_rate)));
            lemma_quote_bounded(pm0.reserve_a, pm0.reserve_b, o@.amount, pm0.fee_rate);
            assert(0 <= amount_out as int && (amount_out as int) < pm0.reserve_b);
        }
        let new_reserve_b = self.pools[pidx].reserve_b - amount_out;
        let new_pool = SwapPool {
            asset_a: slice_to_vec(self.pools[pidx].asset_a.as_slice()),
            asset_b: slice_to_vec(self.pools[pidx].asset_b.as_slice()),
            reserve_a: new_reserve_a,
            reserve_b: new_reserve_b,
            fee_rate: self.pools[pidx].fee_rate,
        };
        self.pools[pidx] = new_pool;
        let p = Portfolio {
            owner: o.owner,
            assets: holdings,
            total_value_xlm: total,
            last_updated: now,
        };
        let ghost pm = p@;
        if pfidx < self.portfolios.len() {
            self.portfolios[pfidx] = p;
        } else {
            self.portfolios.push(p);
        }
        let completed = SwapOrder {
            id: o.id,
            owner: o.owner,
            from_asset: o.from_asset,
            to_asset: o.to_asset,
            amount: o.amount,
            min_receive: o.min_receive,
            timestamp: o.timestamp,
            status: OrderStatus::Completed,
        };
        self.orders[oidx] = completed;
        proof {
            let model = execute_swap_model(m0, order_id, now);
            assert(self@.pools =~= m0.pools.update(
                pidx as int,
                PoolModel {
                    reserve_a: pm0.reserve_a + o@.amount,
                    reserve_b: pm0.reserve_b - (amount_out as int),
                    ..pm0
                },
            ));
            assert(self@.portfolios =~= upsert_portfolio(m0.portfolios, pm));
            assert(self@.orders =~= m0.orders.update(
                order_id - 1,
                OrderModel { status: OrderStatus::Completed, ..o@ },
            ));
            assert(self@ =~= model.0);
            // Well-formedness of the new state.
            if has_portfolio(m0.portfolios, o.owner) {
                assert(portfolio_ok(m0.assets, m0.portfolios[portfolio_index(
                    m0.portfolios,
                    o.owner,
                )]));
            }
            let p0assets = portfolio_or_new(m0.portfolios, o.owner, now).assets;
            lemma_upsert_asset_unique(p0assets, snap_from@);
            lemma_upsert_asset_registered(p0assets, snap_from@, m0.assets);
            lemma_upsert_asset_unique(upsert_asset(p0assets, snap_from@), snap_to@);
            lemma_upsert_asset_registered(upsert_asset(p0assets, snap_from@), snap_to@, m0.assets);
            assert(portfolio_ok(m0.assets, pm));
            lemma_upsert_portfolio_wf(m0.assets, m0.portfolios, pm);
            assert(forall|k: int|
                0 <= k < self@.pools.len() ==> (#[trigger] self@.pools[k]).asset_a
                    == m0.pools[k].asset_a && self@.pools[k].asset_b == m0.pools[k].asset_b);
            assert(pool_wf(self@.pools[pidx as int]));
            assert(forall|k: int|
                0 <= k < self@.orders.len() && k != order_id - 1 ==> #[trigger] self@.orders[k]
                    == m0.orders[k]);
            assert(order_wf(self@.orders[order_id - 1], order_id - 1));
            assert(self@.wf());
        }
        Ok(true)
    }

    /// After replacing or appending one portfolio whose holdings are unique,
    /// registered, and in range, the ledger stays well formed.
    proof fn lemma_after_portfolio_upsert(&self, m0: StateModel, p: PortfolioModel)
        requires
            m0.wf(),
            self@.admin == m0.admin,
            self@.assets == m0.assets,
            self@.portfolios == upsert_portfolio(m0.portfolios, p),
            self@.pools == m0.pools,
            self@.orders == m0.orders,
            m0.portfolio_wf(p),
        ensures
            self@.wf(),
    {
        lemma_upsert_portfolio_unique(m0.portfolios, p);
        assert forall|i: int| 0 <= i < self@.portfolios.len() implies self@.portfolio_wf(
            #[trigger] self@.portfolios[i],
        ) by {
            lemma_portfolio_index_bounds(m0.portfolios, p.owner);
            if has_portfolio(m0.portfolios, p.owner) {
                if i != portfolio_index(m0.portfolios, p.owner) {
                    assert(self@.portfolios[i] == m0.portfolios[i]);
                    assert(m0.portfolio_wf(m0.portfolios[i]));
                }
            } else {
                if i < m0.portfolios.len() {
                    assert(self@.portfolios[i] == m0.portfolios[i]);
                    assert(m0.portfolio_wf(m0.portfolios[i]));
                }
            }
        }
    }

    /// After replacing or appending one registry record at the index the
    /// model's upsert picks, the ledger matches the model and stays well
    /// formed.
    proof fn lemma_after_asset_upsert(&self, m0: StateModel, a: AssetModel)
        requires
            m0.wf(),
            self@.admin == m0.admin,
            self@.assets == upsert_asset(m0.assets, a),
            self@.portfolios == m0.portfolios,
            self@.pools == m0.pools,
            self@.orders == m0.orders,
        ensures
            self@.wf(),
    {
        lemma_upsert_asset_unique(m0.assets, a);
        assert forall|i: int| 0 <= i < self@.portfolios.len() implies self@.portfolio_wf(
            #[trigger] self@.portfolios[i],
        ) by {
            let p = m0.portfolios[i];
            assert(m0.portfolio_wf(p));
            assert forall|k: int| 0 <= k < p.assets.len() implies has_asset(
                self@.assets,
                (#[trigger] p.assets[k]).code,
            ) by {
                lemma_upsert_asset_keeps_code(m0.assets, a, p.assets[k].code);
            }
        }
    }
}

} // verus!
