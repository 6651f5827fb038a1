//! The ledger's records and their mathematical models.
//!
//! Every record is mirrored by a model struct over `Seq` and `int`, reached
//! through `View`; all contracts are stated over the models. Identities
//! (owners, issuers) are plain account numbers, asset codes are byte strings,
//! and quantities are 128-bit integers: prices carry seven decimal places of
//! fixed point, fee rates are basis points.

use vstd::prelude::*;
use vstd::slice::slice_to_vec;

verus! {

/// Lifecycle status of a swap order. An order is created `Pending` and moves
/// at most once, to `Completed`; a rejected execution leaves it `Pending`.
/// `Cancelled` is reserved for an external cancellation path.
#[derive(Clone, Copy, Debug, PartialEq, Eq, Structural)]
pub enum OrderStatus {
    Pending,
    Completed,
    Cancelled,
}

/// A supported asset: its code, issuing identity, registry-level balance and
/// reference price (base units per asset unit, seven decimal places).
pub struct Asset {
    pub code: Vec<u8>,
    pub issuer: u64,
    pub balance: i128,
    pub price_xlm: i128,
}

/// Model of an [`Asset`].
#[verifier::ext_equal]
pub struct AssetModel {
    pub code: Seq<u8>,
    pub issuer: u64,
    pub balance: int,
    pub price_xlm: int,
}

impl View for Asset {
    type V = AssetModel;

    open spec fn view(&self) -> AssetModel {
        AssetModel {
            code: self.code@,
            issuer: self.issuer,
            balance: self.balance as int,
            price_xlm: self.price_xlm as int,
        }
    }
}

/// One account's holdings: asset snapshots keyed by code, a cached total
/// valuation and the time of the last mutation.
pub struct Portfolio {
    pub owner: u64,
    pub assets: Vec<Asset>,
    pub total_value_xlm: i128,
    pub last_updated: u64,
}

/// Model of a [`Portfolio`].
#[verifier::ext_equal]
pub struct PortfolioModel {
    pub owner: u64,
    pub assets: Seq<AssetModel>,
    pub total_value_xlm: int,
    pub last_updated: u64,
}

impl View for Portfolio {
    type V = PortfolioModel;

    open spec fn view(&self) -> PortfolioModel {
        PortfolioModel {
            owner: self.owner,
            assets: self.assets@.map_values(|a: Asset| a@),
            total_value_xlm: self.total_value_xlm as int,
            last_updated: self.last_updated,
        }
    }
}

/// A liquidity pool over the unordered pair `(asset_a, asset_b)`. The codes
/// are stored in canonical (lexicographic) order.
pub struct SwapPool {
    pub asset_a: Vec<u8>,
    pub asset_b: Vec<u8>,
    pub reserve_a: i128,
    pub reserve_b: i128,
    pub fee_rate: u32,
}

/// Model of a [`SwapPool`].
#[verifier::ext_equal]
pub struct PoolModel {
    pub asset_a: Seq<u8>,
    pub asset_b: Seq<u8>,
    pub reserve_a: int,
    pub reserve_b: int,
    pub fee_rate: int,
}

impl View for SwapPool {
    type V = PoolModel;

    open spec fn view(&self) -> PoolModel {
        PoolModel {
            asset_a: self.asset_a@,
            asset_b: self.asset_b@,
            reserve_a: self.reserve_a as int,
            reserve_b: self.reserve_b as int,
            fee_rate: self.fee_rate as int,
        }
    }
}

/// A swap order: trade `amount` of `from_asset` for at least `min_receive`
/// of `to_asset`. Ids are assigned from a strictly increasing counter.
pub struct SwapOrder {
    pub id: u64,
    pub owner: u64,
    pub from_asset: Vec<u8>,
    pub to_asset: Vec<u8>,
    pub amount: i128,
    pub min_receive: i128,
    pub timestamp: u64,
    pub status: OrderStatus,
}

/// Model of a [`SwapOrder`].
#[verifier::ext_equal]
pub struct OrderModel {
    pub id: u64,
    pub owner: u64,
    pub from_asset: Seq<u8>,
    pub to_asset: Seq<u8>,
    pub amount: int,
    pub min_receive: int,
    pub timestamp: u64,
    pub status: OrderStatus,
}

impl View for SwapOrder {
    type V = OrderModel;

    open spec fn view(&self) -> OrderModel {
        OrderModel {
            id: self.id,
            owner: self.owner,
            from_asset: self.from_asset@,
            to_asset: self.to_asset@,
            amount: self.amount as int,
            min_receive: self.min_receive as int,
            timestamp: self.timestamp,
            status: self.status,
        }
    }
}

impl Asset {
    /// An identical copy of the asset record.
    pub fn duplicate(&self) -> (r: Asset)
        ensures
            r@ == self@,
    {
        Asset {
            code: slice_to_vec(self.code.as_slice()),
            issuer: self.issuer,
            balance: self.balance,
            price_xlm: self.price_xlm,
        }
    }
}

impl Portfolio {
    /// An identical copy of the portfolio record.
    pub fn duplicate(&self) -> (r: Portfolio)
        ensures
            r@ == self@,
    {
        let mut assets: Vec<Asset> = Vec::new();
        let n = self.assets.len();
        let mut i: usize = 0;
        while i < n
            invariant
                0 <= i <= n,
                n == self.assets@.len(),
                assets@.len() == i,
                forall|j: int| 0 <= j < i ==> assets@[j]@ == self.assets@[j]@,
            decreases n - i,
        {
            assets.push(self.assets[i].duplicate());
            i = i + 1;
        }
        proof {
            assert(assets@.map_values(|a: Asset| a@)
                =~= self.assets@.map_values(|a: Asset| a@));
        }
        Portfolio {
            owner: self.owner,
            assets,
            total_value_xlm: self.total_value_xlm,
            last_updated: self.last_updated,
        }
    }
}

impl SwapPool {
    /// An identical copy of the pool record.
    pub fn duplicate(&self) -> (r: SwapPool)
        ensures
            r@ == self@,
    {
        SwapPool {
            asset_a: slice_to_vec(self.asset_a.as_slice()),
            asset_b: slice_to_vec(self.asset_b.as_slice()),
            reserve_a: self.reserve_a,
            reserve_b: self.reserve_b,
            fee_rate: self.fee_rate,
        }
    }
}

impl SwapOrder {
    /// An identical copy of the order record.
    pub fn duplicate(&self) -> (r: SwapOrder)
        ensures
            r@ == self@,
    {
        SwapOrder {
            id: self.id,
            owner: self.owner,
            from_asset: slice_to_vec(self.from_asset.as_slice()),
            to_asset: slice_to_vec(self.to_asset.as_slice()),
            amount: self.amount,
            min_receive: self.min_receive,
            timestamp: self.timestamp,
            status: self.status,
        }
    }
}

} // verus!
