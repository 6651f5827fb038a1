//! Per-wallet spending limits and freeze flags.
//!
//! [`WalletGuard`] keeps one [`SpendingInfo`] record per wallet owner. A
//! wallet that was never initialized behaves as if it held the default
//! record. Amounts are in base units with seven decimal places.

use vstd::prelude::*;

verus! {

/// One wallet's spending limits, running spend counters and freeze flag.
#[derive(Clone, Copy, Debug, PartialEq, Eq, Structural)]
pub struct SpendingInfo {
    pub daily_limit: i128,
    pub monthly_limit: i128,
    pub daily_spent: i128,
    pub monthly_spent: i128,
    pub is_frozen: bool,
}

/// The record a wallet starts with: 1000 units daily, 10000 units monthly,
/// nothing spent, not frozen.
pub open spec fn default_spending() -> SpendingInfo {
    SpendingInfo {
        daily_limit: 10_000_000_000,
        monthly_limit: 100_000_000_000,
        daily_spent: 0,
        monthly_spent: 0,
        is_frozen: false,
    }
}

/// The first index whose entry belongs to `owner`, or the length.
pub open spec fn guard_index(entries: Seq<(u64, SpendingInfo)>, owner: u64) -> int
    decreases entries.len(),
{
    if entries.len() == 0 {
        0
    } else if entries[0].0 == owner {
        0
    } else {
        1 + guard_index(entries.skip(1), owner)
    }
}

/// Whether `owner` has a stored record.
pub open spec fn has_entry(entries: Seq<(u64, SpendingInfo)>, owner: u64) -> bool {
    guard_index(entries, owner) < entries.len()
}

/// The record of `owner`: the stored one, or the default.
pub open spec fn spending_of(entries: Seq<(u64, SpendingInfo)>, owner: u64) -> SpendingInfo {
    if has_entry(entries, owner) {
        entries[guard_index(entries, owner)].1
    } else {
        default_spending()
    }
}

/// Replaces `owner`'s record, or appends it.
pub open spec fn upsert_entry(
    entries: Seq<(u64, SpendingInfo)>,
    owner: u64,
    info: SpendingInfo,
) -> Seq<(u64, SpendingInfo)> {
    if has_entry(entries, owner) {
        entries.update(guard_index(entries, owner), (owner, info))
    } else {
        entries.push((owner, info))
    }
}

/// Whether a transaction of `amount` passes the wallet's guards: the wallet
/// is not frozen and neither the daily nor the monthly limit would be
/// exceeded, counted over the mathematical sums.
pub open spec fn validate_spec(info: SpendingInfo, amount: int) -> bool {
    &&& !info.is_frozen
    &&& info.daily_spent + amount <= info.daily_limit
    &&& info.monthly_spent + amount <= info.monthly_limit
}

/// `guard_index` is the first match.
proof fn lemma_guard_index_is(entries: Seq<(u64, SpendingInfo)>, owner: u64, i: int)
    requires
        0 <= i <= entries.len(),
        forall|j: int| 0 <= j < i ==> entries[j].0 != owner,
        i < entries.len() ==> entries[i].0 == owner,
    ensures
        i < entries.len() ==> guard_index(entries, owner) == i,
        i == entries.len() ==> !has_entry(entries, owner) && guard_index(entries, owner) == i,
    decreases i,
{
    if i > 0 {
        lemma_guard_index_is(entries.skip(1), owner, i - 1);
    }
}

/// The spending-limit store: one record per wallet owner.
pub struct WalletGuard {
    pub entries: Vec<(u64, SpendingInfo)>,
}

impl View for WalletGuard {
    type V = Seq<(u64, SpendingInfo)>;

    open spec fn view(&self) -> Seq<(u64, SpendingInfo)> {
        self.entries@
    }
}

/// The first index of `entries` whose record belongs to `owner`, or the
/// length.
fn find_entry_index(entries: &Vec<(u64, SpendingInfo)>, owner: u64) -> (r: usize)
    ensures
        r as int == guard_index(entries@, owner),
        r <= entries@.len(),
        r < entries@.len() ==> entries@[r as int].0 == owner,
{
    let n = entries.len();
    let mut i: usize = 0;
    while i < n
        invariant
            0 <= i <= n,
            n == entries@.len(),
            forall|j: int| 0 <= j < i ==> entries@[j].0 != owner,
        decreases n - i,
    {
        if entries[i].0 == owner {
            proof {
                lemma_guard_index_is(entries@, owner, i as int);
            }
            return i;
        }
        i = i + 1;
    }
    proof {
        lemma_guard_index_is(entries@, owner, n as int);
    }
    n
}

impl WalletGuard {
    /// An empty store: every wallet behaves as the default record.
    pub fn new() -> (s: WalletGuard)
        ensures
            s@ == Seq::<(u64, SpendingInfo)>::empty(),
    {
        let s = WalletGuard { entries: Vec::new() };
        proof {
            assert(s@ =~= Seq::<(u64, SpendingInfo)>::empty());
        }
        s
    }

    /// Stores `info` for `owner`, replacing any existing record.
    fn put(&mut self, owner: u64, info: SpendingInfo)
        ensures
            final(self)@ == upsert_entry(old(self)@, owner, info),
    {
        let idx = find_entry_index(&self.entries, owner);
        if idx < self.entries.len() {
            self.entries[idx] = (owner, info);
        } else {
            self.entries.push((owner, info));
        }
        proof {
            assert(self@ =~= upsert_entry(old(self)@, owner, info));
        }
    }

    /// Initializes `owner`'s wallet with the default settings, overwriting
    /// any existing record. The caller must be `owner`, which the
    /// surrounding host authenticates.
    pub fn initialize(&mut self, owner: u64)
        ensures
            final(self)@ == upsert_entry(old(self)@, owner, default_spending()),
    {
        let info = SpendingInfo {
            daily_limit: 10_000_000_000,
            monthly_limit: 100_000_000_000,
            daily_spent: 0,
            monthly_spent: 0,
            is_frozen: false,
        };
        self.put(owner, info);
    }

    /// Sets the daily spending limit, keeping the rest of the record (the
    /// default record for a wallet never seen before).
    pub fn set_daily_limit(&mut self, owner: u64, limit: i128)
        ensures
            final(self)@ == upsert_entry(
                old(self)@,
                owner,
                SpendingInfo { daily_limit: limit, ..spending_of(old(self)@, owner) },
            ),
    {
        let mut info = self.get_spending_info(owner);
        info.daily_limit = limit;
        self.put(owner, info);
    }

    /// Sets the monthly spending limit, keeping the rest of the record.
    pub fn set_monthly_limit(&mut self, owner: u64, limit: i128)
        ensures
            final(self)@ == upsert_entry(
                old(self)@,
                owner,
                SpendingInfo { monthly_limit: limit, ..spending_of(old(self)@, owner) },
            ),
    {
        let mut info = self.get_spending_info(owner);
        info.monthly_limit = limit;
        self.put(owner, info);
    }

    /// Freezes the wallet: every transaction is rejected until it is
    /// unfrozen.
    pub fn freeze_wallet(&mut self, owner: u64)
        ensures
            final(self)@ == upsert_entry(
                old(self)@,
                owner,
                SpendingInfo { is_frozen: true, ..spending_of(old(self)@, owner) },
            ),
    {
        let mut info = self.get_spending_info(owner);
        info.is_frozen = true;
        self.put(owner, info);
    }

    /// Unfreezes the wallet.
    pub fn unfreeze_wallet(&mut self, owner: u64)
        ensures
            final(self)@ == upsert_entry(
                old(self)@,
                owner,
                SpendingInfo { is_frozen: false, ..spending_of(old(self)@, owner) },
            ),
    {
        let mut info = self.get_spending_info(owner);
        info.is_frozen = false;
        self.put(owner, info);
    }

    /// Whether a transaction of `amount` passes `owner`'s guards. The limits
    /// are compared over the mathematical sums, so a sum beyond the 128-bit
    /// range is still judged exactly.
    pub fn validate_transaction(&self, owner: u64, amount: i128) -> (r: bool)
        ensures
            r == validate_spec(spending_of(self@, owner), amount as int),
    {
        let info = self.get_spending_info(owner);
        if info.is_frozen {
            return false;
        }
        let daily_ok = match info.daily_spent.checked_add(amount) {
            Some(s) => s <= info.daily_limit,
            // the sum left the 128-bit range: over any limit when the amount
            // is positive, under every limit when it is negative
            None => amount < 0,
        };
        if !daily_ok {
            return false;
        }
        match info.monthly_spent.checked_add(amount) {
            Some(s) => s <= info.monthly_limit,
            None => amount < 0,
        }
    }

    /// The stored record of `owner`, or the default one.
    pub fn get_spending_info(&self, owner: u64) -> (r: SpendingInfo)
        ensures
            r == spending_of(self@, owner),
    {
        let idx = find_entry_index(&self.entries, owner);
        if idx < self.entries.len() {
            self.entries[idx].1
        } else {
            SpendingInfo {
                daily_limit: 10_000_000_000,
                monthly_limit: 100_000_000_000,
                daily_spent: 0,
                monthly_spent: 0,
                is_frozen: false,
            }
        }
    }
}

} // verus!
