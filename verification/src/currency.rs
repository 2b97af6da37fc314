//! The balance ledger: account balances plus a running total issuance.
//!
//! The ledger's invariant ties the two together: at every observation point
//! outside an in-flight call, the total issuance equals the sum of all
//! account balances.

use vstd::prelude::*;

use crate::storage::AccountId;
use crate::storage::StorageMap;
use crate::storage::distinct_keys;
use crate::storage::has_key;
use crate::storage::key_index;
use crate::storage::seq_to_map;

verus! {

/// The unit of account.
pub type Balance = u128;

/// Why a currency call was rejected.
#[derive(Clone, Copy, Debug, PartialEq, Eq, Structural)]
pub enum CurrencyError {
    /// The sender has no balance entry at all.
    NonExistentAccount,
    /// The sender's balance is smaller than the amount to move.
    InsufficientBalance,
}

/// The sum of the balances carried by an entry sequence.
pub open spec fn sum_of(s: Seq<(AccountId, Balance)>) -> int
    decreases s.len(),
{
    if s.len() == 0 {
        0
    } else {
        sum_of(s.drop_last()) + s.last().1
    }
}

/// The balance under `who`, with an absent entry read as zero.
pub open spec fn balance_or_zero(m: Map<AccountId, Balance>, who: AccountId) -> Balance {
    if m.dom().contains(who) {
        m[who]
    } else {
        0
    }
}

/// Balance sums are never negative.
pub proof fn lemma_sum_nonneg(s: Seq<(AccountId, Balance)>)
    ensures
        sum_of(s) >= 0,
    decreases s.len(),
{
    if s.len() > 0 {
        lemma_sum_nonneg(s.drop_last());
    }
}

/// Appending an entry adds its balance to the sum.
pub proof fn lemma_sum_push(s: Seq<(AccountId, Balance)>, e: (AccountId, Balance))
    ensures
        sum_of(s.push(e)) == sum_of(s) + e.1,
{
    assert(s.push(e).drop_last() =~= s);
    assert(s.push(e).last() == e);
}

/// Overwriting the entry at `i` moves the sum by the difference.
pub proof fn lemma_sum_update(s: Seq<(AccountId, Balance)>, i: int, e: (AccountId, Balance))
    requires
        0 <= i < s.len(),
    ensures
        sum_of(s.update(i, e)) == sum_of(s) - s[i].1 + e.1,
    decreases s.len(),
{
    let s1 = s.update(i, e);
    if i == s.len() - 1 {
        assert(s1.drop_last() =~= s.drop_last());
        assert(s1.last() == e);
    } else {
        assert(s1.drop_last() =~= s.drop_last().update(i, e));
        assert(s1.last() == s.last());
        lemma_sum_update(s.drop_last(), i, e);
        assert(s.drop_last()[i] == s[i]);
    }
}

/// A single balance never exceeds the sum.
pub proof fn lemma_sum_entry_bound(s: Seq<(AccountId, Balance)>, i: int)
    requires
        0 <= i < s.len(),
    ensures
        s[i].1 <= sum_of(s),
    decreases s.len(),
{
    if i == s.len() - 1 {
        lemma_sum_nonneg(s.drop_last());
    } else {
        lemma_sum_entry_bound(s.drop_last(), i);
        assert(s.drop_last()[i] == s[i]);
    }
}

/// A prefix of an entry sequence never sums to more than the whole.
pub proof fn lemma_sum_prefix(s: Seq<(AccountId, Balance)>, i: int)
    requires
        0 <= i <= s.len(),
    ensures
        sum_of(s.take(i)) <= sum_of(s),
    decreases s.len() - i,
{
    if i == s.len() {
        assert(s.take(i) =~= s);
    } else {
        assert(s.take(i + 1).drop_last() =~= s.take(i));
        assert(s.take(i + 1).last() == s[i]);
        lemma_sum_prefix(s, i + 1);
    }
}

/// The balance ledger: a balance entry per account, and the total issuance.
pub struct Barrel {
    balances: StorageMap<Balance>,
    total_issuance: Balance,
}

impl Barrel {
    /// The balance entries, in order of first credit.
    pub closed spec fn balance_entries(&self) -> Seq<(AccountId, Balance)> {
        self.balances.entries_seq()
    }

    /// The balance map: absence means "no account entry", distinct from zero.
    pub closed spec fn balances(&self) -> Map<AccountId, Balance> {
        self.balances.as_map()
    }

    /// The total quantity of balance units in existence.
    pub closed spec fn issuance(&self) -> Balance {
        self.total_issuance
    }

    /// The ledger invariant: entries carry distinct accounts, the balance map
    /// is the one they denote, and the total issuance equals the sum of all
    /// balances.
    pub open spec fn inv(&self) -> bool {
        &&& distinct_keys(self.balance_entries())
        &&& self.balances() == seq_to_map(self.balance_entries())
        &&& self.issuance() as int == sum_of(self.balance_entries())
    }

    /// An empty ledger: no accounts, zero issuance.
    pub fn new() -> (r: Self)
        ensures
            r.inv(),
            r.balance_entries() == Seq::<(AccountId, Balance)>::empty(),
            r.balances() == Map::<AccountId, Balance>::empty(),
            r.issuance() == 0,
    {
        Barrel { balances: StorageMap::new(), total_issuance: 0 }
    }

    /// The balance entry under `who`, if any.
    pub fn balance(&self, who: AccountId) -> (r: Option<Balance>)
        requires
            self.inv(),
        ensures
            r == (if self.balances().dom().contains(who) {
                Some(self.balances()[who])
            } else {
                None::<Balance>
            }),
    {
        self.balances.get(who)
    }

    /// The total issuance.
    pub fn total_issuance(&self) -> (r: Balance)
        ensures
            r == self.issuance(),
    {
        self.total_issuance
    }

    /// Under the invariant, any account's balance is bounded by the issuance.
    pub proof fn lemma_balance_le_issuance(&self, who: AccountId)
        requires
            self.inv(),
            self.balances().dom().contains(who),
        ensures
            self.balances()[who] <= self.issuance(),
    {
        let s = self.balance_entries();
        let w = key_index(s, who);
        assert(0 <= w < s.len() && s[w].0 == who);
        lemma_sum_entry_bound(s, w);
    }

    /// Credits `to` by `amount`, creating the entry if absent, and raises the
    /// total issuance by `amount`. Always succeeds.
    pub fn mint(&mut self, to: AccountId, amount: Balance)
        requires
            old(self).inv(),
            old(self).issuance() + amount <= u128::MAX,
        ensures
            final(self).inv(),
            final(self).balances() == old(self).balances().insert(
                to,
                (balance_or_zero(old(self).balances(), to) + amount) as Balance,
            ),
            final(self).issuance() == old(self).issuance() + amount,
    {
        proof {
            if old(self).balances().dom().contains(to) {
                old(self).lemma_balance_le_issuance(to);
            }
        }
        let nb = match self.balances.get(to) {
            Some(b) => b + amount,
            None => amount,
        };
        self.balances.insert(to, nb);
        self.total_issuance = self.total_issuance + amount;
        proof {
            let s0 = old(self).balance_entries();
            if has_key(s0, to) {
                let w = key_index(s0, to);
                lemma_sum_update(s0, w, (to, nb));
            } else {
                lemma_sum_push(s0, (to, nb));
            }
        }
    }

    /// Moves `amount` from `from` to `to`: the debit and credit are applied
    /// together, or not at all on a failing check, and the total issuance
    /// never changes.
    pub fn transfer(&mut self, from: AccountId, to: AccountId, amount: Balance) -> (r: Result<
        (),
        CurrencyError,
    >)
        requires
            old(self).inv(),
        ensures
            final(self).inv(),
            final(self).issuance() == old(self).issuance(),
            r == Err::<(), CurrencyError>(CurrencyError::NonExistentAccount) <==> !old(
                self,
            ).balances().dom().contains(from),
            r == Err::<(), CurrencyError>(CurrencyError::InsufficientBalance) <==> old(
                self,
            ).balances().dom().contains(from) && old(self).balances()[from] < amount,
            r is Ok <==> old(self).balances().dom().contains(from) && old(self).balances()[from]
                >= amount,
            r is Err ==> *final(self) == *old(self),
            r is Ok ==> final(self).balances() == ({
                let debited = old(self).balances().insert(
                    from,
                    (old(self).balances()[from] - amount) as Balance,
                );
                debited.insert(to, (balance_or_zero(debited, to) + amount) as Balance)
            }),
    {
        let sender_balance = match self.balances.get(from) {
            Some(b) => b,
            None => {
                return Err(CurrencyError::NonExistentAccount);
            },
        };
        if sender_balance < amount {
            return Err(CurrencyError::InsufficientBalance);
        }
        let remainder = sender_balance - amount;
        proof {
            let s0 = old(self).balance_entries();
            let w = key_index(s0, from);
            lemma_sum_update(s0, w, (from, remainder));
        }
        self.balances.insert(from, remainder);
        proof {
            if self.balances.as_map().dom().contains(to) {
                let s1 = self.balance_entries();
                let w = key_index(s1, to);
                assert(0 <= w < s1.len() && s1[w].0 == to);
                lemma_sum_entry_bound(s1, w);
            }
        }
        let nb = match self.balances.get(to) {
            Some(b) => b + amount,
            None => amount,
        };
        proof {
            let s1 = self.balance_entries();
            if has_key(s1, to) {
                let w = key_index(s1, to);
                lemma_sum_update(s1, w, (to, nb));
            } else {
                lemma_sum_push(s1, (to, nb));
            }
        }
        self.balances.insert(to, nb);
        Ok(())
    }
}

/// Whether a genesis balance list is internally consistent: no account occurs
/// twice, and the implied issuance fits the balance type.
pub open spec fn genesis_ok(s: Seq<(AccountId, Balance)>) -> bool {
    &&& distinct_keys(s)
    &&& sum_of(s) <= u128::MAX
}

/// The genesis balances: an ordered list of initial `(account, balance)`
/// credits.
pub struct GenesisConfig {
    pub balances: Vec<(AccountId, Balance)>,
}

impl GenesisConfig {
    /// Builds the initial ledger. Any violation — a duplicate account, or an
    /// issuance that cannot be represented — is fatal to the whole
    /// initialization and yields `None`.
    pub fn build(&self) -> (r: Option<Barrel>)
        ensures
            r is Some <==> genesis_ok(self.balances@),
            r matches Some(c) ==> {
                &&& c.inv()
                &&& c.balance_entries() == self.balances@
                &&& c.balances() == seq_to_map(self.balances@)
                &&& c.issuance() as int == sum_of(self.balances@)
            },
    {
        let list = &self.balances;
        let n = list.len();
        let mut ledger = Barrel::new();
        let mut i: usize = 0;
        while i < n
            invariant
                list@ == self.balances@,
                n == list@.len(),
                0 <= i <= n,
                ledger.inv(),
                ledger.balance_entries() == list@.take(i as int),
            decreases n - i,
        {
            let (who, amount) = list[i];
            if ledger.balances.contains_key(who) {
                proof {
                    let prefix = list@.take(i as int);
                    let w = choose|w: int| 0 <= w < prefix.len() && (#[trigger] prefix[w]).0 == who;
                    assert(list@[w].0 == who);
                    assert(list@[i as int].0 == who);
                    assert(!distinct_keys(list@));
                }
                return None;
            }
            if amount > u128::MAX - ledger.total_issuance {
                proof {
                    let prefix1 = list@.take(i as int + 1);
                    assert(prefix1.drop_last() =~= list@.take(i as int));
                    assert(prefix1.last() == list@[i as int]);
                    lemma_sum_prefix(list@, i as int + 1);
                }
                return None;
            }
            ledger.balances.insert(who, amount);
            ledger.total_issuance = ledger.total_issuance + amount;
            proof {
                lemma_sum_push(list@.take(i as int), list@[i as int]);
                assert(list@.take(i as int).push(list@[i as int]) =~= list@.take(i as int + 1));
            }
            i += 1;
        }
        proof {
            assert(list@.take(n as int) =~= list@);
        }
        Some(ledger)
    }
}

} // verus!
