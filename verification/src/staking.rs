//! The stake ledger: validator registration, one-shot delegation, and the
//! era-triggered selection of the active validator set.
//!
//! Registration and delegation read the balance ledger for funds-sufficiency
//! checks only; no funds are locked or moved. The active set is recomputed
//! only on era boundaries, ranking validators by descending total stake with
//! ties broken by ascending account identifier.

use vstd::prelude::*;

use crate::currency;
use crate::currency::Balance;
use crate::storage::AccountId;
use crate::storage::StorageMap;
use crate::storage::distinct_keys;
use crate::storage::has_key;
use crate::storage::key_index;
use crate::storage::lemma_at_key_index;
use crate::storage::seq_to_map;

verus! {

/// The height of a block, as handed to the per-block hook.
pub type BlockNumber = u64;

/// A validator's stake record: its own bond plus everything delegated to it.
#[derive(Clone, Copy, Debug, PartialEq, Eq, Structural)]
pub struct ValidatorStake {
    pub own: Balance,
    pub delegated: Balance,
}

/// Why a staking call was rejected.
#[derive(Clone, Copy, Debug, PartialEq, Eq, Structural)]
pub enum StakingError {
    /// The caller already holds a validator record.
    AlreadyRegistered,
    /// The caller's balance is absent or smaller than the amount staked.
    InsufficientFunds,
    /// The delegation target holds no validator record.
    NotRegistered,
    /// The caller already holds a delegator record; delegation is one-shot.
    AlreadyDelegator,
}

/// A validator's total stake: own plus delegated.
pub open spec fn total_stake(v: ValidatorStake) -> int {
    v.own + v.delegated
}

/// The funds-sufficiency check: `who` has a balance entry of at least
/// `amount`. A missing entry is never sufficient, whatever `amount` is.
pub open spec fn funds_at_least(bal: Map<AccountId, Balance>, who: AccountId, amount: Balance) -> bool {
    bal.dom().contains(who) && bal[who] >= amount
}

/// What `register` decides: either the new validator map, or the error, with
/// the checks made in this order.
pub open spec fn register_outcome(
    vs: Map<AccountId, ValidatorStake>,
    bal: Map<AccountId, Balance>,
    who: AccountId,
    amount: Balance,
) -> Result<Map<AccountId, ValidatorStake>, StakingError> {
    if vs.dom().contains(who) {
        Err(StakingError::AlreadyRegistered)
    } else if !funds_at_least(bal, who, amount) {
        Err(StakingError::InsufficientFunds)
    } else {
        Ok(vs.insert(who, ValidatorStake { own: amount, delegated: 0 }))
    }
}

/// What `delegate` decides: either the new validator and delegator maps, or
/// the error, with the checks made in this order.
pub open spec fn delegate_outcome(
    vs: Map<AccountId, ValidatorStake>,
    dg: Map<AccountId, Balance>,
    bal: Map<AccountId, Balance>,
    who: AccountId,
    to: AccountId,
    amount: Balance,
) -> Result<(Map<AccountId, ValidatorStake>, Map<AccountId, Balance>), StakingError> {
    if dg.dom().contains(who) {
        Err(StakingError::AlreadyDelegator)
    } else if !funds_at_least(bal, who, amount) {
        Err(StakingError::InsufficientFunds)
    } else if !vs.dom().contains(to) {
        Err(StakingError::NotRegistered)
    } else {
        let boosted = ValidatorStake {
            own: vs[to].own,
            delegated: (vs[to].delegated + amount) as Balance,
        };
        Ok((vs.insert(to, boosted), dg.insert(who, amount)))
    }
}

/// Whether `now` is an era boundary: a positive multiple of the era
/// duration. Block zero is explicitly excluded.
pub open spec fn is_era_boundary(now: BlockNumber, era_duration: BlockNumber) -> bool {
    now != 0 && now % era_duration == 0
}

/// The ranking order over `(account, total stake)` pairs: higher total
/// first, ties broken by ascending account identifier.
pub open spec fn pair_prefers(a: (AccountId, Balance), b: (AccountId, Balance)) -> bool {
    a.1 > b.1 || (a.1 == b.1 && a.0 < b.0)
}

/// The ranking order between two validators of `vs`: more total stake first,
/// ties broken by ascending account identifier.
pub open spec fn prefers(vs: Map<AccountId, ValidatorStake>, a: AccountId, b: AccountId) -> bool {
    ||| total_stake(vs[a]) > total_stake(vs[b])
    ||| (total_stake(vs[a]) == total_stake(vs[b]) && a < b)
}

/// What the selector writes on an era boundary: `act` lists, in ranking
/// order, the best-ranked validators of `vs`, truncated to `count`; every
/// validator left out ranks after every one kept.
pub open spec fn is_active_selection(
    vs: Map<AccountId, ValidatorStake>,
    n_validators: int,
    count: u32,
    act: Seq<AccountId>,
) -> bool {
    &&& act.len() == (if count as int <= n_validators {
        count as int
    } else {
        n_validators
    })
    &&& (forall|i: int| 0 <= i < act.len() ==> vs.dom().contains(#[trigger] act[i]))
    &&& (forall|i: int, j: int|
        0 <= i < j < act.len() ==> prefers(vs, #[trigger] act[i], #[trigger] act[j]))
    &&& (forall|v: AccountId, i: int|
        #![trigger vs.dom().contains(v), act[i]]
        vs.dom().contains(v) && !act.contains(v) && 0 <= i < act.len() ==> prefers(vs, act[i], v))
}

/// Positions up to `i` of two selections from the same ledger state agree.
proof fn lemma_selection_agree_upto(
    vs: Map<AccountId, ValidatorStake>,
    n_validators: int,
    count: u32,
    a: Seq<AccountId>,
    b: Seq<AccountId>,
    i: int,
)
    requires
        is_active_selection(vs, n_validators, count, a),
        is_active_selection(vs, n_validators, count, b),
        0 <= i <= a.len(),
    ensures
        forall|k: int| 0 <= k < i ==> a[k] == b[k],
    decreases i,
{
    if i > 0 {
        lemma_selection_agree_upto(vs, n_validators, count, a, b, i - 1);
        let k = i - 1;
        if a[k] != b[k] {
            if a.contains(b[k]) {
                let m = choose|m: int| 0 <= m < a.len() && a[m] == b[k];
                if m < k {
                    assert(b[m] == b[k]);
                    assert(prefers(vs, b[m], b[k]));
                } else {
                    assert(k < m);
                    assert(prefers(vs, a[k], a[m]));
                }
            } else {
                assert(vs.dom().contains(b[k]));
                assert(prefers(vs, a[k], b[k]));
            }
            if b.contains(a[k]) {
                let m = choose|m: int| 0 <= m < b.len() && b[m] == a[k];
                if m < k {
                    assert(a[m] == a[k]);
                    assert(prefers(vs, a[m], a[k]));
                } else {
                    assert(k < m);
                    assert(prefers(vs, b[k], b[m]));
                }
            } else {
                assert(vs.dom().contains(a[k]));
                assert(prefers(vs, b[k], a[k]));
            }
        }
    }
}

/// The selection predicate is categorical: any two active sets that satisfy
/// it for the same ledger state and the same count are equal. Re-running the
/// selector against unchanged state therefore reproduces the same set.
pub proof fn lemma_active_selection_unique(
    vs: Map<AccountId, ValidatorStake>,
    n_validators: int,
    count: u32,
    a: Seq<AccountId>,
    b: Seq<AccountId>,
)
    requires
        is_active_selection(vs, n_validators, count, a),
        is_active_selection(vs, n_validators, count, b),
    ensures
        a == b,
{
    lemma_selection_agree_upto(vs, n_validators, count, a, b, a.len() as int);
    assert(a =~= b);
}

/// The executable ranking comparison over `(account, total stake)` pairs.
fn ranks_before(a: (AccountId, Balance), b: (AccountId, Balance)) -> (r: bool)
    ensures
        r == pair_prefers(a, b),
{
    a.1 > b.1 || (a.1 == b.1 && a.0 < b.0)
}

/// The stake ledger. It owns the validator and delegator records and the
/// active validator set; the balance ledger is only ever read.
pub struct Barrel {
    validators: StorageMap<ValidatorStake>,
    delegators: StorageMap<Balance>,
    active_validators: Vec<AccountId>,
}

impl Barrel {
    /// The validator records, in registration order.
    pub closed spec fn validator_entries(&self) -> Seq<(AccountId, ValidatorStake)> {
        self.validators.entries_seq()
    }

    /// The validator map.
    pub closed spec fn validators(&self) -> Map<AccountId, ValidatorStake> {
        self.validators.as_map()
    }

    /// The delegator records, in delegation order.
    pub closed spec fn delegator_entries(&self) -> Seq<(AccountId, Balance)> {
        self.delegators.entries_seq()
    }

    /// The delegator map.
    pub closed spec fn delegators(&self) -> Map<AccountId, Balance> {
        self.delegators.as_map()
    }

    /// The active validator set, as last written by the selector.
    pub closed spec fn active(&self) -> Seq<AccountId> {
        self.active_validators@
    }

    /// The ledger invariant: both record stores are well-formed maps, and
    /// every validator's total stake fits the balance type.
    pub open spec fn inv(&self) -> bool {
        &&& distinct_keys(self.validator_entries())
        &&& self.validators() == seq_to_map(self.validator_entries())
        &&& distinct_keys(self.delegator_entries())
        &&& self.delegators() == seq_to_map(self.delegator_entries())
        &&& forall|v: AccountId|
            #[trigger] self.validators().dom().contains(v) ==> total_stake(self.validators()[v])
                <= u128::MAX
    }

    /// An empty stake ledger: no records, and an empty active set, as before
    /// the first era boundary.
    pub fn new() -> (r: Self)
        ensures
            r.inv(),
            r.validator_entries() == Seq::<(AccountId, ValidatorStake)>::empty(),
            r.validators() == Map::<AccountId, ValidatorStake>::empty(),
            r.delegator_entries() == Seq::<(AccountId, Balance)>::empty(),
            r.delegators() == Map::<AccountId, Balance>::empty(),
            r.active() == Seq::<AccountId>::empty(),
    {
        Barrel {
            validators: StorageMap::new(),
            delegators: StorageMap::new(),
            active_validators: Vec::new(),
        }
    }

    /// The validator record under `who`, if any.
    pub fn validator(&self, who: AccountId) -> (r: Option<ValidatorStake>)
        requires
            self.inv(),
        ensures
            r == (if self.validators().dom().contains(who) {
                Some(self.validators()[who])
            } else {
                None::<ValidatorStake>
            }),
    {
        self.validators.get(who)
    }

    /// The delegated amount recorded under `who`, if any.
    pub fn delegator(&self, who: AccountId) -> (r: Option<Balance>)
        requires
            self.inv(),
        ensures
            r == (if self.delegators().dom().contains(who) {
                Some(self.delegators()[who])
            } else {
                None::<Balance>
            }),
    {
        self.delegators.get(who)
    }

    /// How many validator records exist.
    pub fn num_validators(&self) -> (r: usize)
        ensures
            r == self.validator_entries().len(),
    {
        self.validators.len()
    }

    /// The active validator set.
    pub fn active_validators(&self) -> (r: &Vec<AccountId>)
        ensures
            r@ == self.active(),
    {
        &self.active_validators
    }

    /// Creates the caller's validator record after checking that none exists
    /// and that the caller's balance covers `amount`. The balance is only a
    /// snapshot check: nothing is debited or locked.
    pub fn register(&mut self, ledger: &currency::Barrel, who: AccountId, amount: Balance) -> (r: Result<
        (),
        StakingError,
    >)
        requires
            old(self).inv(),
            ledger.inv(),
        ensures
            final(self).inv(),
            final(self).delegator_entries() == old(self).delegator_entries(),
            final(self).delegators() == old(self).delegators(),
            final(self).active() == old(self).active(),
            (match register_outcome(old(self).validators(), ledger.balances(), who, amount) {
                Ok(m) => {
                    &&& r == Ok::<(), StakingError>(())
                    &&& final(self).validators() == m
                    &&& final(self).validator_entries() == old(self).validator_entries().push(
                        ((who, ValidatorStake { own: amount, delegated: 0 })),
                    )
                },
                Err(e) => r == Err::<(), StakingError>(e) && *final(self) == *old(self),
            }),
    {
        if self.validators.contains_key(who) {
            return Err(StakingError::AlreadyRegistered);
        }
        let sufficient = match ledger.balance(who) {
            Some(b) => b >= amount,
            None => false,
        };
        if !sufficient {
            return Err(StakingError::InsufficientFunds);
        }
        self.validators.insert(who, ValidatorStake { own: amount, delegated: 0 });
        Ok(())
    }

    /// Records the caller's one-shot delegation of `amount` to validator `to`
    /// and boosts `to`'s delegated stake, after checking that the caller has
    /// not delegated before, that its balance covers `amount`, and that `to`
    /// is registered. A failing call leaves both record stores untouched.
    pub fn delegate(
        &mut self,
        ledger: &currency::Barrel,
        who: AccountId,
        to: AccountId,
        amount: Balance,
    ) -> (r: Result<(), StakingError>)
        requires
            old(self).inv(),
            ledger.inv(),
            (!old(self).delegators().dom().contains(who) && funds_at_least(
                ledger.balances(),
                who,
                amount,
            ) && old(self).validators().dom().contains(to)) ==> total_stake(
                old(self).validators()[to],
            ) + amount <= u128::MAX,
        ensures
            final(self).inv(),
            final(self).active() == old(self).active(),
            (match delegate_outcome(
                old(self).validators(),
                old(self).delegators(),
                ledger.balances(),
                who,
                to,
                amount,
            ) {
                Ok(pair) => {
                    &&& r == Ok::<(), StakingError>(())
                    &&& final(self).validators() == pair.0
                    &&& final(self).delegators() == pair.1
                    &&& final(self).validator_entries() == old(self).validator_entries().update(
                        key_index(old(self).validator_entries(), to),
                        ((to, ValidatorStake {
                            own: old(self).validators()[to].own,
                            delegated: (old(self).validators()[to].delegated + amount) as Balance,
                        })),
                    )
                    &&& final(self).delegator_entries() == old(self).delegator_entries().push(
                        ((who, amount)),
                    )
                },
                Err(e) => r == Err::<(), StakingError>(e) && *final(self) == *old(self),
            }),
    {
        if self.delegators.contains_key(who) {
            return Err(StakingError::AlreadyDelegator);
        }
        let sufficient = match ledger.balance(who) {
            Some(b) => b >= amount,
            None => false,
        };
        if !sufficient {
            return Err(StakingError::InsufficientFunds);
        }
        let stake = match self.validators.get(to) {
            Some(s) => s,
            None => {
                return Err(StakingError::NotRegistered);
            },
        };
        self.delegators.insert(who, amount);
        self.validators.insert(
            to,
            ValidatorStake { own: stake.own, delegated: stake.delegated + amount },
        );
        Ok(())
    }

    /// The per-block hook. On a non-boundary block nothing is touched; on an
    /// era boundary the active set is replaced wholesale by the validators
    /// ranked by descending total stake (ties by ascending account
    /// identifier), truncated to `validator_count`.
    pub fn on_initialize(&mut self, now: BlockNumber, era_duration: BlockNumber, validator_count: u32)
        requires
            old(self).inv(),
            era_duration > 0,
        ensures
            final(self).inv(),
            final(self).validator_entries() == old(self).validator_entries(),
            final(self).validators() == old(self).validators(),
            final(self).delegator_entries() == old(self).delegator_entries(),
            final(self).delegators() == old(self).delegators(),
            !is_era_boundary(now, era_duration) ==> *final(self) == *old(self),
            is_era_boundary(now, era_duration) ==> is_active_selection(
                old(self).validators(),
                old(self).validator_entries().len() as int,
                validator_count,
                final(self).active(),
            ),
    {
        if now % era_duration == 0 && now != 0 {
            let ghost vs = self.validators.as_map();
            let ghost entries = self.validators.entries_seq();
            let n = self.validators.len();
            let mut ranked: Vec<(AccountId, Balance)> = Vec::new();
            let mut idx: usize = 0;
            while idx < n
                invariant
                    self == old(self),
                    old(self).inv(),
                    vs == self.validators.as_map(),
                    entries == self.validators.entries_seq(),
                    n == entries.len(),
                    0 <= idx <= n,
                    ranked@.len() == idx,
                    forall|q: int|
                        0 <= q < ranked@.len() ==> vs.dom().contains((#[trigger] ranked@[q]).0)
                            && ranked@[q].1 == total_stake(vs[ranked@[q].0]),
                    forall|q: int|
                        0 <= q < ranked@.len() ==> has_key(
                            entries.take(idx as int),
                            (#[trigger] ranked@[q]).0,
                        ),
                    forall|k: int| 0 <= k < idx ==> has_key(ranked@, (#[trigger] entries[k]).0),
                    forall|p: int, q: int|
                        0 <= p < q < ranked@.len() ==> pair_prefers(
                            #[trigger] ranked@[p],
                            #[trigger] ranked@[q],
                        ),
                decreases n - idx,
            {
                let (id, stake) = self.validators.entry_at(idx);
                proof {
                    self.validators.lemma_entry_in_map(idx as int);
                }
                let total = stake.own + stake.delegated;
                let new_pair = (id, total);
                let m = ranked.len();
                let mut p: usize = 0;
                loop
                    invariant
                        m == ranked@.len(),
                        0 <= p <= m,
                        new_pair == (id, total),
                        forall|q: int| 0 <= q < p ==> pair_prefers(#[trigger] ranked@[q], new_pair),
                    ensures
                        0 <= p <= m,
                        forall|q: int| 0 <= q < p ==> pair_prefers(#[trigger] ranked@[q], new_pair),
                        p == m || !pair_prefers(ranked@[p as int], new_pair),
                    decreases m - p,
                {
                    if p == m {
                        break;
                    }
                    let current = ranked[p];
                    if !ranks_before(current, new_pair) {
                        break;
                    }
                    p += 1;
                }
                proof {
                    assert forall|q: int| 0 <= q < ranked@.len() implies (#[trigger] ranked@[q]).0
                        != id by {
                        let prefix = entries.take(idx as int);
                        let w = choose|w: int|
                            0 <= w < prefix.len() && (#[trigger] prefix[w]).0 == ranked@[q].0;
                        assert(entries[w] == prefix[w]);
                        assert(entries[w].0 != entries[idx as int].0);
                    }
                    assert forall|q: int| p <= q < ranked@.len() implies pair_prefers(
                        new_pair,
                        #[trigger] ranked@[q],
                    ) by {
                        assert(ranked@[p as int].0 != id);
                        assert(!pair_prefers(ranked@[p as int], new_pair));
                        assert(pair_prefers(new_pair, ranked@[p as int]));
                        if q > p {
                            assert(pair_prefers(ranked@[p as int], ranked@[q]));
                        }
                    }
                }
                let ghost before = ranked@;
                ranked.insert(p, new_pair);
                proof {
                    before.insert_ensures(p as int, new_pair);
                    let after = ranked@;
                    let next = idx + 1;
                    assert forall|q: int|
                        0 <= q < after.len() implies vs.dom().contains((#[trigger] after[q]).0)
                        && after[q].1 == total_stake(vs[after[q].0]) by {
                        if q < p {
                            assert(after[q] == before[q]);
                        } else if q == p {
                            assert(after[q] == new_pair);
                        } else {
                            assert(after[q] == before[q - 1]);
                        }
                    }
                    assert forall|q: int| 0 <= q < after.len() implies has_key(
                        entries.take(next as int),
                        (#[trigger] after[q]).0,
                    ) by {
                        if q == p {
                            assert(entries.take(next as int)[idx as int] == entries[idx as int]);
                            assert(entries.take(next as int)[idx as int].0 == after[q].0);
                        } else {
                            let key = if q < p {
                                before[q].0
                            } else {
                                before[q - 1].0
                            };
                            assert(after[q].0 == key);
                            assert(has_key(entries.take(idx as int), key));
                            let w = choose|w: int|
                                0 <= w < entries.take(idx as int).len() && (#[trigger] entries.take(
                                    idx as int,
                                )[w]).0 == key;
                            assert(entries.take(next as int)[w] == entries.take(idx as int)[w]);
                            assert(entries.take(next as int)[w].0 == key);
                        }
                    }
                    assert forall|k: int| 0 <= k < next implies has_key(
                        after,
                        (#[trigger] entries[k]).0,
                    ) by {
                        if k == idx {
                            assert(after[p as int].0 == entries[k].0);
                        } else {
                            assert(has_key(before, entries[k].0));
                            let w = choose|w: int|
                                0 <= w < before.len() && (#[trigger] before[w]).0 == entries[k].0;
                            if w < p {
                                assert(after[w].0 == entries[k].0);
                            } else {
                                assert(after[w + 1] == before[w]);
                                assert(after[w + 1].0 == entries[k].0);
                            }
                        }
                    }
                    assert forall|p1: int, q1: int| 0 <= p1 < q1 < after.len() implies pair_prefers(
                        #[trigger] after[p1],
                        #[trigger] after[q1],
                    ) by {
                        if q1 < p {
                            assert(after[p1] == before[p1] && after[q1] == before[q1]);
                        } else if p1 > p {
                            assert(after[p1] == before[p1 - 1] && after[q1] == before[q1 - 1]);
                        } else if p1 == p {
                            assert(after[p1] == new_pair && after[q1] == before[q1 - 1]);
                        } else if q1 == p {
                            assert(after[p1] == before[p1] && after[q1] == new_pair);
                        } else {
                            // p1 < p < q1
                            assert(after[p1] == before[p1] && after[q1] == before[q1 - 1]);
                        }
                    }
                }
                idx += 1;
            }
            let limit = validator_count as usize;
            let keep = if limit <= ranked.len() {
                limit
            } else {
                ranked.len()
            };
            let mut selected: Vec<AccountId> = Vec::new();
            let mut i: usize = 0;
            while i < keep
                invariant
                    keep <= ranked@.len(),
                    0 <= i <= keep,
                    selected@.len() == i,
                    forall|t: int| 0 <= t < i ==> #[trigger] selected@[t] == ranked@[t].0,
                decreases keep - i,
            {
                let pair = ranked[i];
                selected.push(pair.0);
                i += 1;
            }
            self.active_validators = selected;
            proof {
                let act = self.active();
                assert(entries.take(n as int) =~= entries);
                assert forall|a: int, b: int| 0 <= a < b < act.len() implies prefers(
                    vs,
                    #[trigger] act[a],
                    #[trigger] act[b],
                ) by {
                    assert(pair_prefers(ranked@[a], ranked@[b]));
                }
                assert forall|v: AccountId, i1: int|
                    #![trigger vs.dom().contains(v), act[i1]]
                    vs.dom().contains(v) && !act.contains(v) && 0 <= i1 < act.len() implies prefers(
                    vs,
                    act[i1],
                    v,
                ) by {
                    assert(has_key(entries, v));
                    let k0 = choose|w: int|
                        0 <= w < entries.len() && (#[trigger] entries[w]).0 == v;
                    assert(has_key(ranked@, entries[k0].0));
                    let q = choose|w: int|
                        0 <= w < ranked@.len() && (#[trigger] ranked@[w]).0 == v;
                    if q < keep {
                        assert(act[q] == v);
                        assert(act.contains(v));
                    } else {
                        assert(pair_prefers(ranked@[i1], ranked@[q]));
                    }
                }
            }
        }
    }
}

/// Registering twice: after a successful `register` by an account, a second
/// `register` by the same account fails with `AlreadyRegistered`, whatever
/// its balance has become and whatever amount it offers, and the validator
/// record created by the first call is the one that stands.
pub proof fn lemma_register_twice(
    vs: Map<AccountId, ValidatorStake>,
    bal: Map<AccountId, Balance>,
    bal2: Map<AccountId, Balance>,
    who: AccountId,
    amount: Balance,
    amount2: Balance,
)
    requires
        register_outcome(vs, bal, who, amount) is Ok,
    ensures
        ({
            let vs1 = register_outcome(vs, bal, who, amount)->Ok_0;
            &&& register_outcome(vs1, bal2, who, amount2) == Err::<
                Map<AccountId, ValidatorStake>,
                StakingError,
            >(StakingError::AlreadyRegistered)
            &&& vs1[who] == (ValidatorStake { own: amount, delegated: 0 })
        }),
{
}

/// Delegating to an account that holds no validator record fails with
/// `NotRegistered`, whatever the amount: the caller here has not delegated
/// before and its balance covers the amount, so the target check is the one
/// that decides. (With an uncovered balance the call reports
/// `InsufficientFunds` instead, since that check comes first.)
pub proof fn lemma_delegate_unregistered_target(
    vs: Map<AccountId, ValidatorStake>,
    dg: Map<AccountId, Balance>,
    bal: Map<AccountId, Balance>,
    who: AccountId,
    to: AccountId,
    amount: Balance,
)
    requires
        !dg.dom().contains(who),
        funds_at_least(bal, who, amount),
        !vs.dom().contains(to),
    ensures
        delegate_outcome(vs, dg, bal, who, to, amount) == Err::<
            (Map<AccountId, ValidatorStake>, Map<AccountId, Balance>),
            StakingError,
        >(StakingError::NotRegistered),
{
}

/// The total amount that the delegation triples `d` commit to validator `v`.
pub open spec fn delegated_to(v: AccountId, d: Seq<(AccountId, AccountId, Balance)>) -> int
    decreases d.len(),
{
    if d.len() == 0 {
        0
    } else {
        delegated_to(v, d.drop_last()) + (if d.last().1 == v {
            d.last().2 as int
        } else {
            0
        })
    }
}

/// No delegator account occurs twice in a delegation list.
pub open spec fn distinct_delegators(d: Seq<(AccountId, AccountId, Balance)>) -> bool {
    forall|i: int, j: int| 0 <= i < j < d.len() ==> (#[trigger] d[i]).0 != (#[trigger] d[j]).0
}

/// Every delegation target occurs in the validator list.
pub open spec fn delegatee_registered(v: Seq<(AccountId, Balance)>, d: Seq<(AccountId, AccountId, Balance)>) -> bool {
    forall|i: int| 0 <= i < d.len() ==> has_key(v, (#[trigger] d[i]).1)
}

/// Every genesis participant's balance covers its stake.
pub open spec fn genesis_funded(
    bal: Map<AccountId, Balance>,
    v: Seq<(AccountId, Balance)>,
    d: Seq<(AccountId, AccountId, Balance)>,
) -> bool {
    &&& forall|i: int| 0 <= i < v.len() ==> funds_at_least(bal, (#[trigger] v[i]).0, v[i].1)
    &&& forall|i: int| 0 <= i < d.len() ==> funds_at_least(bal, (#[trigger] d[i]).0, d[i].2)
}

/// Every validator's final total stake fits the balance type.
pub open spec fn genesis_stakes_fit(v: Seq<(AccountId, Balance)>, d: Seq<(AccountId, AccountId, Balance)>) -> bool {
    forall|i: int|
        0 <= i < v.len() ==> (#[trigger] v[i]).1 + delegated_to(v[i].0, d) <= u128::MAX
}

/// Whether a staking genesis is internally consistent, so that applying all
/// of its registrations and then all of its delegations succeeds.
pub open spec fn staking_genesis_ok(
    bal: Map<AccountId, Balance>,
    v: Seq<(AccountId, Balance)>,
    d: Seq<(AccountId, AccountId, Balance)>,
) -> bool {
    &&& distinct_keys(v)
    &&& distinct_delegators(d)
    &&& delegatee_registered(v, d)
    &&& genesis_funded(bal, v, d)
    &&& genesis_stakes_fit(v, d)
}

/// The validator record that the genesis lists imply for position `k` of the
/// validator list, once the first `j` delegations are applied.
pub open spec fn genesis_validator_entry(
    v: Seq<(AccountId, Balance)>,
    d: Seq<(AccountId, AccountId, Balance)>,
    k: int,
    j: int,
) -> (AccountId, ValidatorStake) {
    (v[k].0, ValidatorStake { own: v[k].1, delegated: delegated_to(v[k].0, d.take(j)) as Balance })
}

/// Extending the applied prefix by one delegation moves only its target.
pub proof fn lemma_delegated_to_take_step(v: AccountId, d: Seq<(AccountId, AccountId, Balance)>, j: int)
    requires
        0 <= j < d.len(),
    ensures
        delegated_to(v, d.take(j + 1)) == delegated_to(v, d.take(j)) + (if d[j].1 == v {
            d[j].2 as int
        } else {
            0
        }),
{
    assert(d.take(j + 1).drop_last() =~= d.take(j));
    assert(d.take(j + 1).last() == d[j]);
}

/// A delegation list never commits a negative amount.
pub proof fn lemma_delegated_to_nonneg(v: AccountId, d: Seq<(AccountId, AccountId, Balance)>)
    ensures
        delegated_to(v, d) >= 0,
    decreases d.len(),
{
    if d.len() > 0 {
        lemma_delegated_to_nonneg(v, d.drop_last());
    }
}

/// A prefix of a delegation list never commits more than the whole.
pub proof fn lemma_delegated_to_prefix(v: AccountId, d: Seq<(AccountId, AccountId, Balance)>, j: int)
    requires
        0 <= j <= d.len(),
    ensures
        delegated_to(v, d.take(j)) <= delegated_to(v, d),
    decreases d.len() - j,
{
    if j == d.len() {
        assert(d.take(j) =~= d);
    } else {
        lemma_delegated_to_take_step(v, d, j);
        lemma_delegated_to_prefix(v, d, j + 1);
    }
}

/// The genesis stake ledger: an ordered list of `(validator, self stake)`
/// registrations followed by an ordered list of
/// `(delegator, delegatee, stake)` delegations.
pub struct GenesisConfig {
    pub validators: Vec<(AccountId, Balance)>,
    pub delegators: Vec<(AccountId, AccountId, Balance)>,
}

impl GenesisConfig {
    /// Builds the initial stake ledger by applying every registration and
    /// then every delegation through the run-time call logic. Any violation
    /// is fatal to the whole initialization and yields `None`; a soft error
    /// is never reported entry by entry.
    pub fn build(&self, ledger: &currency::Barrel) -> (r: Option<Barrel>)
        requires
            ledger.inv(),
        ensures
            r is Some <==> staking_genesis_ok(
                ledger.balances(),
                self.validators@,
                self.delegators@,
            ),
            r matches Some(s) ==> {
                &&& s.inv()
                &&& s.validator_entries() == Seq::new(
                    self.validators@.len(),
                    |k: int|
                        genesis_validator_entry(
                            self.validators@,
                            self.delegators@,
                            k,
                            self.delegators@.len() as int,
                        ),
                )
                &&& s.delegator_entries() == Seq::new(
                    self.delegators@.len(),
                    |k: int| (self.delegators@[k].0, self.delegators@[k].2),
                )
                &&& s.active() == Seq::<AccountId>::empty()
            },
    {
        let vlist = &self.validators;
        let dlist = &self.delegators;
        let nv = vlist.len();
        let mut st = Barrel::new();
        let mut i: usize = 0;
        while i < nv
            invariant
                vlist@ == self.validators@,
                dlist@ == self.delegators@,
                ledger.inv(),
                nv == vlist@.len(),
                0 <= i <= nv,
                st.inv(),
                st.delegator_entries() == Seq::<(AccountId, Balance)>::empty(),
                st.active() == Seq::<AccountId>::empty(),
                st.validator_entries() == Seq::new(
                    i as nat,
                    |k: int| ((vlist@[k].0, ValidatorStake { own: vlist@[k].1, delegated: 0 })),
                ),
                forall|k: int|
                    0 <= k < i ==> funds_at_least(ledger.balances(), (#[trigger] vlist@[k]).0, vlist@[k].1),
            decreases nv - i,
        {
            let (who, own) = vlist[i];
            match st.register(ledger, who, own) {
                Ok(()) => {
                    proof {
                        assert(st.validator_entries() =~= Seq::new(
                            (i + 1) as nat,
                            |k: int|
                                ((vlist@[k].0, ValidatorStake { own: vlist@[k].1, delegated: 0 })),
                        ));
                    }
                },
                Err(_) => {
                    proof {
                        let vs0 = Seq::new(
                            i as nat,
                            |k: int|
                                ((vlist@[k].0, ValidatorStake { own: vlist@[k].1, delegated: 0 })),
                        );
                        if seq_to_map(vs0).dom().contains(who) {
                            let w = choose|w: int|
                                0 <= w < vs0.len() && (#[trigger] vs0[w]).0 == who;
                            assert(vlist@[w].0 == who);
                            assert(vlist@[i as int].0 == who);
                            assert(!distinct_keys(vlist@));
                        } else {
                            assert(!funds_at_least(ledger.balances(), vlist@[i as int].0, vlist@[i as int].1));
                        }
                    }
                    return None;
                },
            }
            i += 1;
        }
        let nd = dlist.len();
        let mut j: usize = 0;
        proof {
            assert(st.validator_entries() =~= Seq::new(
                nv as nat,
                |k: int| genesis_validator_entry(vlist@, dlist@, k, 0),
            ));
            assert forall|k: int| 0 <= k < nv implies (#[trigger] vlist@[k]).1 + delegated_to(
                vlist@[k].0,
                dlist@.take(0),
            ) <= u128::MAX by {
                assert(delegated_to(vlist@[k].0, dlist@.take(0)) == 0);
            }
            assert forall|a: int, b: int| 0 <= a < b < vlist@.len() implies (
                #[trigger] vlist@[a]).0 != (#[trigger] vlist@[b]).0 by {
                assert(st.validator_entries()[a].0 == vlist@[a].0);
                assert(st.validator_entries()[b].0 == vlist@[b].0);
            }
            assert(distinct_keys(vlist@));
        }
        while j < nd
            invariant
                vlist@ == self.validators@,
                dlist@ == self.delegators@,
                ledger.inv(),
                nv == vlist@.len(),
                nd == dlist@.len(),
                0 <= j <= nd,
                distinct_keys(vlist@),
                st.inv(),
                st.active() == Seq::<AccountId>::empty(),
                st.validator_entries() == Seq::new(
                    nv as nat,
                    |k: int| genesis_validator_entry(vlist@, dlist@, k, j as int),
                ),
                st.delegator_entries() == Seq::new(
                    j as nat,
                    |k: int| ((dlist@[k].0, dlist@[k].2)),
                ),
                forall|k: int|
                    0 <= k < nv ==> funds_at_least(ledger.balances(), (#[trigger] vlist@[k]).0, vlist@[k].1),
                forall|k: int|
                    0 <= k < nv ==> (#[trigger] vlist@[k]).1 + delegated_to(
                        vlist@[k].0,
                        dlist@.take(j as int),
                    ) <= u128::MAX,
                forall|k: int|
                    0 <= k < j ==> funds_at_least(ledger.balances(), (#[trigger] dlist@[k]).0, dlist@[k].2),
                forall|k: int| 0 <= k < j ==> has_key(vlist@, (#[trigger] dlist@[k]).1),
            decreases nd - j,
        {
            let (who, to, amount) = dlist[j];
            let ghost ventries = st.validator_entries();
            let already = st.delegators.contains_key(who);
            let funded = match ledger.balance(who) {
                Some(b) => b >= amount,
                None => false,
            };
            let registered = st.validators.contains_key(to);
            if !already && funded && registered {
                match st.validators.get(to) {
                    Some(stake) => {
                        if amount > u128::MAX - stake.own - stake.delegated {
                            proof {
                                let w = choose|w: int|
                                    0 <= w < ventries.len() && (#[trigger] ventries[w]).0 == to;
                                lemma_at_key_index(ventries, w);
                                st.validators.lemma_entry_in_map(w);
                                assert(stake == ventries[w].1);
                                assert(vlist@[w].0 == to && vlist@[w].1 == stake.own);
                                lemma_delegated_to_nonneg(vlist@[w].0, dlist@.take(j as int));
                                assert(stake.delegated == delegated_to(
                                    vlist@[w].0,
                                    dlist@.take(j as int),
                                ));
                                lemma_delegated_to_take_step(vlist@[w].0, dlist@, j as int);
                                lemma_delegated_to_prefix(vlist@[w].0, dlist@, j as int + 1);
                                assert(vlist@[w].1 + delegated_to(vlist@[w].0, dlist@)
                                    > u128::MAX);
                                assert(!genesis_stakes_fit(vlist@, dlist@));
                            }
                            return None;
                        }
                    },
                    None => {},
                }
            }
            match st.delegate(ledger, who, to, amount) {
                Ok(()) => {
                    proof {
                        let w = choose|w: int|
                            0 <= w < ventries.len() && (#[trigger] ventries[w]).0 == to;
                        lemma_at_key_index(ventries, w);
                        assert(seq_to_map(ventries)[to] == ventries[w].1);
                        assert(vlist@[w].0 == to && vlist@[w].1 == ventries[w].1.own);
                        lemma_delegated_to_nonneg(vlist@[w].0, dlist@.take(j as int));
                        assert(ventries[w].1.delegated == delegated_to(
                            vlist@[w].0,
                            dlist@.take(j as int),
                        ));
                        assert forall|k: int| 0 <= k < nv implies (#[trigger] vlist@[k]).1
                            + delegated_to(vlist@[k].0, dlist@.take(j as int + 1))
                            <= u128::MAX by {
                            lemma_delegated_to_take_step(vlist@[k].0, dlist@, j as int);
                            if k != w {
                                if k < w {
                                    assert(vlist@[k].0 != vlist@[w].0);
                                } else {
                                    assert(vlist@[w].0 != vlist@[k].0);
                                }
                            }
                        }
                        assert(st.validator_entries() == ventries.update(
                            w,
                            ((to, ValidatorStake {
                                own: ventries[w].1.own,
                                delegated: (ventries[w].1.delegated + amount) as Balance,
                            })),
                        ));
                        assert(st.validator_entries() =~= Seq::new(
                            nv as nat,
                            |k: int| genesis_validator_entry(vlist@, dlist@, k, j as int + 1),
                        )) by {
                            assert forall|k: int| 0 <= k < nv implies st.validator_entries()[k]
                                == genesis_validator_entry(vlist@, dlist@, k, j as int + 1) by {
                                lemma_delegated_to_take_step(vlist@[k].0, dlist@, j as int);
                                lemma_delegated_to_nonneg(vlist@[k].0, dlist@.take(j as int));
                                lemma_delegated_to_nonneg(vlist@[k].0, dlist@.take(j as int + 1));
                                if k != w {
                                    if k < w {
                                        assert(vlist@[k].0 != vlist@[w].0);
                                    } else {
                                        assert(vlist@[w].0 != vlist@[k].0);
                                    }
                                    assert(st.validator_entries()[k] == ventries[k]);
                                }
                            }
                        }
                        assert(st.delegator_entries() =~= Seq::new(
                            (j + 1) as nat,
                            |k: int| ((dlist@[k].0, dlist@[k].2)),
                        ));
                    }
                    j += 1;
                },
                Err(_) => {
                    proof {
                        let dg0 = Seq::new(j as nat, |k: int| ((dlist@[k].0, dlist@[k].2)));
                        if seq_to_map(dg0).dom().contains(who) {
                            let w = choose|w: int|
                                0 <= w < dg0.len() && (#[trigger] dg0[w]).0 == who;
                            assert(dlist@[w].0 == who);
                            assert(dlist@[j as int].0 == who);
                            assert(!distinct_delegators(dlist@));
                        } else if !funds_at_least(ledger.balances(), who, amount) {
                            assert(!funds_at_least(
                                ledger.balances(),
                                dlist@[j as int].0,
                                dlist@[j as int].2,
                            ));
                        } else {
                            assert(!seq_to_map(ventries).dom().contains(to));
                            assert(!has_key(vlist@, dlist@[j as int].1)) by {
                                if has_key(vlist@, to) {
                                    let w = choose|w: int|
                                        0 <= w < vlist@.len() && (#[trigger] vlist@[w]).0 == to;
                                    assert(ventries[w].0 == to);
                                    assert(has_key(ventries, to));
                                }
                            }
                            assert(!delegatee_registered(vlist@, dlist@));
                        }
                    }
                    return None;
                },
            }
        }
        proof {
            assert(dlist@.take(nd as int) =~= dlist@);
            let fin = Seq::new(nv as nat, |k: int| genesis_validator_entry(vlist@, dlist@, k, nd as int));
            assert(st.validator_entries() =~= fin);
            assert(distinct_delegators(dlist@)) by {
                assert forall|a: int, b: int| 0 <= a < b < dlist@.len() implies (
                    #[trigger] dlist@[a]).0 != (#[trigger] dlist@[b]).0 by {
                    assert(st.delegator_entries()[a].0 == dlist@[a].0);
                    assert(st.delegator_entries()[b].0 == dlist@[b].0);
                }
            }
            assert forall|k: int| 0 <= k < vlist@.len() implies (#[trigger] vlist@[k]).1
                + delegated_to(vlist@[k].0, dlist@) <= u128::MAX by {
                assert(vlist@[k].1 + delegated_to(vlist@[k].0, dlist@.take(nd as int))
                    <= u128::MAX);
            }
        }
        Some(st)
    }
}

} // verus!
