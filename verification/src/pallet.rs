//! The pallet's configuration, its storage, and the calls that managers and the admin make.
use std::collections::BTreeMap;
use vstd::prelude::*;

use crate::account::{pallet_account, pallet_account_spec, same_account};
use crate::managers::{
    entry_key, find_entry, find_manager, has_key, keys_unique, lemma_view_at, lemma_view_push,
    lemma_view_remove, lemma_view_update, managers_view,
};
use crate::laws::{law_milestone_spend_keeps_proposals_indexed, lemma_proposals_indexed_kept};
use crate::permill::{mul_floor_spec, permill_mul_floor, ACCURACY};
use crate::weights::Weight;
use crate::types::{
    AccountId, Balance, BlockNumber, DispatchError, Error, Event, Funding, ManagerEntry, Proposal,
    ProposalIndex,
};

verus! {

/// The constants that a runtime configures the pallet with.
#[derive(Clone, Copy, Debug)]
pub struct Config {
    /// How many proposals a manager may hold for one funding type.
    pub max_proposals_per_manager: u32,
    /// How many proposal indices may be approved.
    pub max_approvals: u32,
    /// The identifier from which the pallet's account is derived.
    pub pallet_id: [u8; 8],
    /// The share of a proposal's value that is held as its bond, in parts per million.
    pub proposal_bond: u32,
    /// The number of blocks between spends.
    pub spend_period: BlockNumber,
    /// The share of unspent funds that is burnt each spend period, in parts per million.
    pub burn: u32,
}

/// The spends made so far within one dispatch: for each spending limit that an origin was
/// granted, the total spent under it.
pub struct SpendContext {
    pub spend_in_context: BTreeMap<Balance, Balance>,
}

/// The pallet's storage, with the configuration it runs under.
pub struct Pallet {
    pub config: Config,
    /// Number of proposals that have been made.
    pub proposal_count: ProposalIndex,
    /// The amount which has been reported as inactive to the currency.
    pub deactivated: Balance,
    /// Proposal indices that have been approved but not yet awarded.
    pub approvals: Vec<ProposalIndex>,
    /// The block number of the last spend period, once one is known.
    pub last_spend_period: Option<BlockNumber>,
    /// The managers allowed to submit proposals, with their proposals, in storage order.
    pub managers: Vec<ManagerEntry>,
}

/// Each approval is smaller than the next.
pub open spec fn strictly_sorted(s: Seq<ProposalIndex>) -> bool {
    forall|i: int, j: int| 0 <= i < j < s.len() ==> s[i] < s[j]
}

/// The ratios of the configuration are at most one.
pub open spec fn config_valid(c: Config) -> bool {
    &&& c.proposal_bond <= ACCURACY
    &&& c.burn <= ACCURACY
}

/// The total spent in a context under the limit `max`.
pub open spec fn context_spent(spent: Map<Balance, Balance>, max: Balance) -> int {
    if spent.contains_key(max) {
        spent[max] as int
    } else {
        0
    }
}

/// A spend of `amount` under the limit `max` in a context: whether it stays within the limit,
/// and what the context records afterwards. A spend that would pass the limit records nothing
/// more, but the limit is entered with what was spent so far.
pub open spec fn context_step(spent: Map<Balance, Balance>, max: Balance, amount: Balance) -> (
    Map<Balance, Balance>,
    bool,
) {
    let prev = context_spent(spent, max);
    if prev + amount > max {
        (spent.insert(max, prev as Balance), false)
    } else {
        (spent.insert(max, (prev + amount) as Balance), true)
    }
}

/// No limit of a dispatch context has been spent beyond.
pub open spec fn context_within_limits(c: Option<SpendContext>) -> bool {
    match c {
        None => true,
        Some(c) => forall|max: Balance| #[trigger] c.spend_in_context@.contains_key(max)
            ==> c.spend_in_context@[max] <= max,
    }
}

/// An approved milestone spend: the event to deposit, and the bond to reserve from the
/// proposer for the proposal it created.
#[derive(Clone, Copy, PartialEq, Eq, Debug)]
pub struct SpendApproval {
    pub event: Event,
    pub bond_holder: AccountId,
    pub bond: Balance,
}

/// A milestone spend passes every check and creates a proposal.
pub open spec fn milestone_spend_succeeds(
    p: Pallet,
    context: Option<SpendContext>,
    spend_origin: Option<Balance>,
    amount: Balance,
    beneficiary: AccountId,
) -> bool {
    let key = (beneficiary, Funding::Milestone);
    match spend_origin {
        None => false,
        Some(max) => {
            &&& amount <= max
            &&& p.managers_map().contains_key(key)
            &&& match context {
                None => true,
                Some(c) => context_step(c.spend_in_context@, max, amount).1,
            }
            &&& p.approvals@.len() < p.config.max_approvals
            &&& p.managers_map()[key].len() < p.config.max_proposals_per_manager
        },
    }
}

/// The map without the keys of one manager.
pub open spec fn without_manager(
    m: Map<(AccountId, Funding), Seq<Proposal>>,
    manager: AccountId,
) -> Map<(AccountId, Funding), Seq<Proposal>> {
    Map::new(|k: (AccountId, Funding)| m.contains_key(k) && k.0 != manager, |k| m[k])
}

/// Every stored proposal sits under its beneficiary's milestone key, with an index below the
/// proposal count that no other stored proposal has.
pub open spec fn proposals_indexed(m: Map<(AccountId, Funding), Seq<Proposal>>, count: ProposalIndex) -> bool {
    &&& forall|k: (AccountId, Funding), i: int|
        m.contains_key(k) && 0 <= i < m[k].len() ==> (#[trigger] m[k][i]).index < count && k == (
            m[k][i].beneficiary,
            Funding::Milestone,
        )
    &&& forall|k1: (AccountId, Funding), i1: int, k2: (AccountId, Funding), i2: int|
        m.contains_key(k1) && m.contains_key(k2) && 0 <= i1 < m[k1].len() && 0 <= i2 < m[k2].len() && (k1
            != k2 || i1 != i2) ==> (#[trigger] m[k1][i1]).index != (#[trigger] m[k2][i2]).index
}

/// The proposal that a milestone spend of `amount` to `beneficiary` creates.
pub open spec fn milestone_proposal(
    index: ProposalIndex,
    beneficiary: AccountId,
    amount: Balance,
    bond_parts: u32,
) -> Proposal {
    Proposal {
        index,
        proposer: beneficiary,
        value: amount,
        beneficiary,
        bond: mul_floor_spec(bond_parts as int, amount as int) as Balance,
        funding: Funding::Milestone,
    }
}

impl Pallet {
    /// The storage keeps the pallet's invariant: unique manager keys, approvals in
    /// increasing order and all below the proposal count, and ratios of at most one.
    pub open spec fn wf(&self) -> bool {
        &&& config_valid(self.config)
        &&& keys_unique(self.managers@)
        &&& strictly_sorted(self.approvals@)
        &&& forall|i: int| 0 <= i < self.approvals@.len() ==> #[trigger] self.approvals@[i] < self.proposal_count
    }

    /// The managers as a map from manager and funding type to proposals.
    pub open spec fn managers_map(&self) -> Map<(AccountId, Funding), Seq<Proposal>> {
        managers_view(self.managers@)
    }

    /// Everything but the managers is as in `other`.
    pub open spec fn same_but_managers(&self, other: &Pallet) -> bool {
        &&& self.config == other.config
        &&& self.proposal_count == other.proposal_count
        &&& self.deactivated == other.deactivated
        &&& self.approvals@ == other.approvals@
        &&& self.last_spend_period == other.last_spend_period
    }

    /// An empty pallet, as genesis leaves it.
    pub fn new(config: Config) -> (p: Pallet)
        requires
            config_valid(config),
        ensures
            p.wf(),
            p.config == config,
            p.proposal_count == 0,
            p.deactivated == 0,
            p.approvals@ == Seq::<ProposalIndex>::empty(),
            p.last_spend_period is None,
            p.managers@ == Seq::<ManagerEntry>::empty(),
            proposals_indexed(p.managers_map(), p.proposal_count),
    {
        Pallet {
            config,
            proposal_count: 0,
            deactivated: 0,
            approvals: Vec::new(),
            last_spend_period: None,
            managers: Vec::new(),
        }
    }

    /// Whether the storage keeps the pallet's invariant, which every call keeps.
    pub fn is_well_formed(&self) -> (r: bool)
        ensures
            r == self.wf(),
    {
        if self.config.proposal_bond > ACCURACY || self.config.burn > ACCURACY {
            return false;
        }
        let mut i: usize = 0;
        while i < self.approvals.len()
            invariant
                i <= self.approvals@.len(),
                forall|a: int, b: int| 0 <= a < b < i ==> self.approvals@[a] < self.approvals@[b],
                forall|a: int| 0 <= a < i ==> #[trigger] self.approvals@[a] < self.proposal_count,
            decreases self.approvals@.len() - i,
        {
            if self.approvals[i] >= self.proposal_count {
                return false;
            }
            if i > 0 && self.approvals[i - 1] >= self.approvals[i] {
                return false;
            }
            proof {
                assert forall|a: int, b: int| 0 <= a < b < i + 1 implies self.approvals@[a] < self.approvals@[b] by {
                    if b == i && a < i - 1 {
                        assert(self.approvals@[a] < self.approvals@[i - 1]);
                    }
                }
            }
            i = i + 1;
        }
        self.has_unique_managers()
    }

    /// Whether no two entries of the managers have the same key.
    pub fn has_unique_managers(&self) -> (r: bool)
        ensures
            r == keys_unique(self.managers@),
    {
        let mut j: usize = 0;
        while j < self.managers.len()
            invariant
                j <= self.managers@.len(),
                forall|a: int, b: int|
                    0 <= a < self.managers@.len() && 0 <= b < j && a != b ==> entry_key(#[trigger] self.managers@[a])
                        != entry_key(#[trigger] self.managers@[b]),
            decreases self.managers@.len() - j,
        {
            let mut k: usize = 0;
            while k < self.managers.len()
                invariant
                    j < self.managers@.len(),
                    k <= self.managers@.len(),
                    forall|a: int, b: int|
                        0 <= a < self.managers@.len() && 0 <= b < j && a != b ==> entry_key(#[trigger] self.managers@[a])
                            != entry_key(#[trigger] self.managers@[b]),
                    forall|a: int| 0 <= a < k && a != j ==> entry_key(#[trigger] self.managers@[a]) != entry_key(self.managers@[j as int]),
                decreases self.managers@.len() - k,
            {
                if k != j && same_account(&self.managers[k].manager, &self.managers[j].manager)
                    && self.managers[k].funding == self.managers[j].funding {
                    proof {
                        assert(entry_key(self.managers@[k as int]) == entry_key(self.managers@[j as int]));
                    }
                    return false;
                }
                k = k + 1;
            }
            j = j + 1;
        }
        true
    }

    /// Whether a milestone spend with these arguments would pass every check and create a
    /// proposal; only then does it need the next proposal index.
    pub fn milestone_spend_would_succeed(
        &self,
        context: &Option<SpendContext>,
        spend_origin: Option<Balance>,
        amount: Balance,
        beneficiary: AccountId,
    ) -> (r: bool)
        requires
            keys_unique(self.managers@),
        ensures
            r == milestone_spend_succeeds(*self, *context, spend_origin, amount, beneficiary),
    {
        let max = match spend_origin {
            None => { return false; },
            Some(max) => max,
        };
        if amount > max {
            return false;
        }
        let i = match find_entry(&self.managers, beneficiary, Funding::Milestone) {
            None => { return false; },
            Some(i) => i,
        };
        proof {
            lemma_view_at(self.managers@, i as int);
            broadcast use vstd::std_specs::btree::group_btree_axioms;
        }
        let within_limit = match context {
            None => true,
            Some(c) => {
                let spent: Balance = match c.spend_in_context.get(&max) {
                    Some(v) => *v,
                    None => 0,
                };
                match spent.checked_add(amount) {
                    Some(total) => total <= max,
                    None => false,
                }
            },
        };
        within_limit && self.approvals.len() < self.config.max_approvals as usize
            && self.managers[i].proposals.len() < self.config.max_proposals_per_manager as usize
    }

    /// The account of the pallet, derived from its identifier.
    pub fn account_id(&self) -> (a: AccountId)
        ensures
            a@ == pallet_account_spec(self.config.pallet_id@),
    {
        pallet_account(self.config.pallet_id)
    }

    /// The amount of money in the pot: the free balance of the pallet's account less the
    /// existential deposit, which is not part of the pot so the account never gets deleted.
    pub fn pot(free_balance: Balance, minimum_balance: Balance) -> (p: Balance)
        ensures
            p == if free_balance >= minimum_balance { (free_balance - minimum_balance) as Balance } else { 0 },
    {
        free_balance.saturating_sub(minimum_balance)
    }

    /// Adds `manager` for `funding_type` with no proposals. With `change`, every entry that the
    /// manager held before is dropped first, with its proposals; without it, the manager must
    /// not hold `funding_type` yet. Only the admin origin may call this.
    pub fn add_manager(
        &mut self,
        origin_is_admin: bool,
        manager: AccountId,
        funding_type: Funding,
        change: bool,
    ) -> (r: Result<(), DispatchError>)
        requires
            keys_unique(old(self).managers@),
        ensures
            keys_unique(final(self).managers@),
            old(self).wf() ==> final(self).wf(),
            final(self).same_but_managers(old(self)),
            proposals_indexed(old(self).managers_map(), old(self).proposal_count) ==> proposals_indexed(
                final(self).managers_map(),
                final(self).proposal_count,
            ),
            !origin_is_admin ==> r == Err::<(), DispatchError>(DispatchError::BadOrigin)
                && *final(self) == *old(self),
            origin_is_admin && !change && old(self).managers_map().contains_key((manager, funding_type))
                ==> r == Err::<(), DispatchError>(DispatchError::Module(Error::AlreadyAManager))
                && *final(self) == *old(self),
            origin_is_admin && !change && !old(self).managers_map().contains_key((manager, funding_type))
                ==> r is Ok && final(self).managers_map() == old(self).managers_map().insert(
                (manager, funding_type),
                Seq::empty(),
            ),
            origin_is_admin && change ==> r is Ok && final(self).managers_map() == without_manager(
                old(self).managers_map(),
                manager,
            ).insert((manager, funding_type), Seq::empty()),
    {
        if !origin_is_admin {
            return Err(DispatchError::BadOrigin);
        }
        let ghost before = self.managers@;
        if change {
            // Drop every entry that the manager holds.
            loop
                invariant
                    keys_unique(self.managers@),
                    forall|k: (AccountId, Funding)| #[trigger]
                        managers_view(self.managers@).contains_key(k) ==> managers_view(
                            before,
                        ).contains_key(k) && managers_view(self.managers@)[k] == managers_view(
                            before,
                        )[k],
                    forall|k: (AccountId, Funding)|
                        #[trigger] managers_view(before).contains_key(k) && k.0 != manager
                            ==> managers_view(self.managers@).contains_key(k),
                    self.same_but_managers(old(self)),
                ensures
                    keys_unique(self.managers@),
                    managers_view(self.managers@) =~= without_manager(managers_view(before), manager),
                    self.same_but_managers(old(self)),
                decreases self.managers@.len(),
            {
                match find_manager(&self.managers, manager) {
                    Some(i) => {
                        let ghost cur = self.managers@;
                        proof {
                            lemma_view_remove(cur, i as int);
                        }
                        self.managers.remove(i);
                    },
                    None => {
                        proof {
                            let v = managers_view(self.managers@);
                            let w = without_manager(managers_view(before), manager);
                            assert forall|k: (AccountId, Funding)| #[trigger] v.contains_key(k) implies k.0 != manager by {
                                let j = choose|j: int| 0 <= j < self.managers@.len() && entry_key(#[trigger] self.managers@[j]) == k;
                            }
                            assert(v =~= w);
                        }
                        break;
                    },
                }
            }
            proof {
                assert(!has_key(self.managers@, (manager, funding_type))) by {
                    if has_key(self.managers@, (manager, funding_type)) {
                        let j = choose|j: int| 0 <= j < self.managers@.len() && entry_key(#[trigger] self.managers@[j]) == (manager, funding_type);
                        lemma_view_at(self.managers@, j);
                    }
                }
            }
        } else {
            if find_entry(&self.managers, manager, funding_type).is_some() {
                return Err(DispatchError::Module(Error::AlreadyAManager));
            }
        }
        let entry = ManagerEntry { manager, funding: funding_type, proposals: Vec::new() };
        proof {
            lemma_view_push(self.managers@, entry);
        }
        self.managers.push(entry);
        proof {
            if proposals_indexed(old(self).managers_map(), old(self).proposal_count) {
                lemma_proposals_indexed_kept(
                    old(self).managers_map(),
                    self.managers_map(),
                    self.proposal_count,
                );
            }
        }
        Ok(())
    }

    /// Removes `manager` for `funding_type`, which must exist and hold no proposals.
    /// Only the admin origin may call this.
    pub fn remove_manager(&mut self, origin_is_admin: bool, manager: AccountId, funding_type: Funding) -> (r:
        Result<(), DispatchError>)
        requires
            keys_unique(old(self).managers@),
        ensures
            keys_unique(final(self).managers@),
            old(self).wf() ==> final(self).wf(),
            final(self).same_but_managers(old(self)),
            proposals_indexed(old(self).managers_map(), old(self).proposal_count) ==> proposals_indexed(
                final(self).managers_map(),
                final(self).proposal_count,
            ),
            !origin_is_admin ==> r == Err::<(), DispatchError>(DispatchError::BadOrigin)
                && *final(self) == *old(self),
            origin_is_admin && !old(self).managers_map().contains_key((manager, funding_type))
                ==> r == Err::<(), DispatchError>(DispatchError::Module(Error::ManagerNotFound))
                && *final(self) == *old(self),
            origin_is_admin && old(self).managers_map().contains_key((manager, funding_type))
                && old(self).managers_map()[(manager, funding_type)].len() > 0
                ==> r == Err::<(), DispatchError>(DispatchError::Module(Error::ActiveProposalsExist))
                && *final(self) == *old(self),
            origin_is_admin && old(self).managers_map().contains_key((manager, funding_type))
                && old(self).managers_map()[(manager, funding_type)].len() == 0 ==> r is Ok
                && final(self).managers_map() == old(self).managers_map().remove((manager, funding_type)),
    {
        if !origin_is_admin {
            return Err(DispatchError::BadOrigin);
        }
        match find_entry(&self.managers, manager, funding_type) {
            None => Err(DispatchError::Module(Error::ManagerNotFound)),
            Some(i) => {
                proof {
                    lemma_view_at(self.managers@, i as int);
                }
                if self.managers[i].proposals.len() > 0 {
                    return Err(DispatchError::Module(Error::ActiveProposalsExist));
                }
                proof {
                    lemma_view_remove(self.managers@, i as int);
                }
                self.managers.remove(i);
                proof {
                    if proposals_indexed(old(self).managers_map(), old(self).proposal_count) {
                        lemma_proposals_indexed_kept(
                            old(self).managers_map(),
                            self.managers_map(),
                            self.proposal_count,
                        );
                    }
                }
                Ok(())
            },
        }
    }

    /// A milestone spend of `amount` to `beneficiary`, who must be a milestone manager.
    /// `spend_origin` is what the spend origin granted the caller: the most it may spend, or
    /// nothing where the origin is refused. `context` is the dispatch context, if the call runs
    /// in one: spends within one context may together not exceed the limit they are made under.
    /// On success the spend becomes a new approved proposal of the beneficiary, with a bond of
    /// the configured share of `amount`, and `SpendApproved` is returned.
    /// Storage is left as it was on every error; the context keeps what was recorded in it.
    pub fn spend_local_milestone(
        &mut self,
        context: &mut Option<SpendContext>,
        spend_origin: Option<Balance>,
        amount: Balance,
        beneficiary: AccountId,
    ) -> (r: Result<SpendApproval, DispatchError>)
        requires
            config_valid(old(self).config),
            keys_unique(old(self).managers@),
            milestone_spend_succeeds(*old(self), *old(context), spend_origin, amount, beneficiary)
                ==> old(self).proposal_count < u32::MAX,
        ensures
            keys_unique(final(self).managers@),
            old(self).wf() ==> final(self).wf(),
            proposals_indexed(old(self).managers_map(), old(self).proposal_count) ==> proposals_indexed(
                final(self).managers_map(),
                final(self).proposal_count,
            ),
            context_within_limits(*old(context)) ==> context_within_limits(*final(context)),
            ({
                let key = (beneficiary, Funding::Milestone);
                let m = old(self).managers_map();
                match spend_origin {
                    None => r == Err::<SpendApproval, DispatchError>(DispatchError::BadOrigin)
                        && *final(self) == *old(self) && *final(context) == *old(context),
                    Some(max) => if amount > max {
                        r == Err::<SpendApproval, DispatchError>(DispatchError::Module(Error::InsufficientPermission))
                            && *final(self) == *old(self) && *final(context) == *old(context)
                    } else if !m.contains_key(key) {
                        r == Err::<SpendApproval, DispatchError>(DispatchError::Module(Error::UnauthorizedManager))
                            && *final(self) == *old(self) && *final(context) == *old(context)
                    } else {
                        let over = match *old(context) {
                            None => false,
                            Some(c) => !context_step(c.spend_in_context@, max, amount).1,
                        };
                        &&& match *old(context) {
                            None => *final(context) is None,
                            Some(c) => *final(context) is Some && final(context)->0.spend_in_context@
                                == context_step(c.spend_in_context@, max, amount).0,
                        }
                        &&& if over {
                            r == Err::<SpendApproval, DispatchError>(DispatchError::Module(Error::InsufficientPermission))
                                && *final(self) == *old(self)
                        } else if old(self).approvals@.len() >= old(self).config.max_approvals {
                            r == Err::<SpendApproval, DispatchError>(DispatchError::Module(Error::TooManyApprovals))
                                && *final(self) == *old(self)
                        } else if m[key].len() >= old(self).config.max_proposals_per_manager {
                            r == Err::<SpendApproval, DispatchError>(DispatchError::Module(Error::TooManyProposals))
                                && *final(self) == *old(self)
                        } else {
                            let index = old(self).proposal_count;
                            &&& r == Ok::<SpendApproval, DispatchError>(SpendApproval {
                                event: Event::SpendApproved { proposal_index: index, amount, beneficiary },
                                bond_holder: beneficiary,
                                bond: mul_floor_spec(old(self).config.proposal_bond as int, amount as int) as Balance,
                            })
                            &&& final(self).config == old(self).config
                            &&& final(self).proposal_count == index + 1
                            &&& final(self).deactivated == old(self).deactivated
                            &&& final(self).last_spend_period == old(self).last_spend_period
                            &&& final(self).approvals@ == old(self).approvals@.push(index)
                            &&& final(self).managers_map() == m.insert(
                                key,
                                m[key].push(milestone_proposal(index, beneficiary, amount, old(self).config.proposal_bond)),
                            )
                        }
                    },
                }
            }),
    {
        let max_amount = match spend_origin {
            None => { return Err(DispatchError::BadOrigin); },
            Some(max) => max,
        };
        if amount > max_amount {
            return Err(DispatchError::Module(Error::InsufficientPermission));
        }
        let idx = match find_entry(&self.managers, beneficiary, Funding::Milestone) {
            None => { return Err(DispatchError::Module(Error::UnauthorizedManager)); },
            Some(i) => i,
        };
        proof {
            lemma_view_at(self.managers@, idx as int);
            broadcast use vstd::std_specs::btree::group_btree_axioms;
        }

        let over_limit = match context {
            Some(ctx) => {
                let spent: Balance = match ctx.spend_in_context.get(&max_amount) {
                    Some(v) => *v,
                    None => 0,
                };
                match spent.checked_add(amount) {
                    Some(total) if total <= max_amount => {
                        ctx.spend_in_context.insert(max_amount, total);
                        false
                    },
                    _ => {
                        ctx.spend_in_context.insert(max_amount, spent);
                        true
                    },
                }
            },
            None => false,
        };
        if over_limit {
            return Err(DispatchError::Module(Error::InsufficientPermission));
        }

        let proposal_index = self.proposal_count;
        let proposal = Proposal {
            index: proposal_index,
            proposer: beneficiary,
            value: amount,
            beneficiary,
            bond: permill_mul_floor(self.config.proposal_bond, amount),
            funding: Funding::Milestone,
        };

        if self.approvals.len() >= self.config.max_approvals as usize {
            return Err(DispatchError::Module(Error::TooManyApprovals));
        }
        if self.managers[idx].proposals.len() >= self.config.max_proposals_per_manager as usize {
            return Err(DispatchError::Module(Error::TooManyProposals));
        }

        let ghost before = self.managers@;
        let mut props = Vec::new();
        std::mem::swap(&mut props, &mut self.managers[idx].proposals);
        props.push(proposal);
        let entry = ManagerEntry { manager: beneficiary, funding: Funding::Milestone, proposals: props };
        proof {
            lemma_view_update(before, idx as int, entry);
        }
        self.managers.set(idx, entry);
        self.approvals.push(proposal_index);
        self.proposal_count = proposal_index + 1;
        assert(self.managers@ == before.update(idx as int, entry));
        assert(entry.proposals@ == before[idx as int].proposals@.push(proposal));
        assert(self.managers_map() == old(self).managers_map().insert((beneficiary, Funding::Milestone), entry.proposals@));
        assert(proposal == milestone_proposal(proposal_index, beneficiary, amount, old(self).config.proposal_bond));
        proof {
            if proposals_indexed(old(self).managers_map(), old(self).proposal_count) {
                law_milestone_spend_keeps_proposals_indexed(
                    old(self).managers_map(),
                    proposal_index,
                    beneficiary,
                    amount,
                    old(self).config.proposal_bond,
                );
            }
        }

        Ok(SpendApproval {
            event: Event::SpendApproved { proposal_index, amount, beneficiary },
            bond_holder: beneficiary,
            bond: proposal.bond,
        })
    }

}

/// The genesis configuration of the pallet.
#[derive(Clone, Copy, Debug)]
pub struct GenesisConfig {}

impl GenesisConfig {
    /// What genesis does to the pallet's account, given its free balance and the currency's
    /// minimum balance: the balance to set it to, where it holds less than the minimum.
    pub fn build(&self, free_balance: Balance, minimum_balance: Balance) -> (r: Option<Balance>)
        ensures
            r == if free_balance < minimum_balance { Some(minimum_balance) } else { None::<Balance> },
    {
        if free_balance < minimum_balance {
            Some(minimum_balance)
        } else {
            None
        }
    }
}

/// The account of the pallet, as a configuration value for other pallets.
#[derive(Clone, Copy, Debug)]
pub struct ProjectAccountId {}

impl ProjectAccountId {
    /// The account derived from the pallet's identifier.
    pub fn get(config: &Config) -> (a: AccountId)
        ensures
            a@ == pallet_account_spec(config.pallet_id@),
    {
        pallet_account(config.pallet_id)
    }
}

/// A hook that spends funds from the budget of a spend period. Runtimes implement it for
/// their own types; the unit type spends nothing.
pub trait SpendFunds {
    fn spend_funds(
        budget_remaining: &mut Balance,
        imbalance: &mut Balance,
        total_weight: &mut Weight,
        missed_any: &mut bool,
    );
}

impl SpendFunds for () {
    /// Spends nothing: every value is left as it was.
    fn spend_funds(
        budget_remaining: &mut Balance,
        imbalance: &mut Balance,
        total_weight: &mut Weight,
        missed_any: &mut bool,
    )
        ensures
            *final(budget_remaining) == *old(budget_remaining),
            *final(imbalance) == *old(imbalance),
            *final(total_weight) == *old(total_weight),
            *final(missed_any) == *old(missed_any),
    {
    }
}

} // verus!
