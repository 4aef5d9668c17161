use std::collections::BTreeMap;

use pallet_projects::pallet::{
    Config, GenesisConfig, Pallet, ProjectAccountId, SpendApproval, SpendContext, SpendFunds,
};
use pallet_projects::weights::Weight;
use pallet_projects::types::{DispatchError, Error, Event, Funding, ManagerEntry, Proposal};

/// A `u64` account as the library holds it: its eight little-endian bytes, then zeroes.
fn acct(n: u64) -> [u8; 32] {
    let mut a = [0u8; 32];
    a[..8].copy_from_slice(&n.to_le_bytes());
    a
}

fn config() -> Config {
    Config {
        max_proposals_per_manager: 100,
        max_approvals: 100,
        pallet_id: *b"py/trsry",
        proposal_bond: 500_000,
        spend_period: 2,
        burn: 500_000,
    }
}

fn entry_of(pallet: &Pallet, manager: [u8; 32], funding: Funding) -> Option<&ManagerEntry> {
    pallet.managers.iter().find(|e| e.manager == manager && e.funding == funding)
}

#[test]
fn account_id_is_modl_followed_by_the_pallet_id() {
    let pallet = Pallet::new(config());
    let mut expected = [0u8; 32];
    expected[..12].copy_from_slice(b"modlpy/trsry");
    assert_eq!(pallet.account_id(), expected);
    assert_eq!(ProjectAccountId::get(&config()), expected);
}

#[test]
fn pot_leaves_out_the_minimum_balance() {
    assert_eq!(Pallet::pot(100, 1), 99);
    assert_eq!(Pallet::pot(1, 1), 0);
    assert_eq!(Pallet::pot(0, 1), 0);
}

#[test]
fn genesis_tops_up_the_account_to_the_minimum() {
    let g = GenesisConfig {};
    assert_eq!(g.build(0, 1), Some(1));
    assert_eq!(g.build(5, 1), None);
    assert_eq!(g.build(1, 1), None);
}

#[test]
fn add_manager_requires_admin() {
    let mut pallet = Pallet::new(config());
    assert_eq!(pallet.add_manager(false, acct(1), Funding::Milestone, false), Err(DispatchError::BadOrigin));
    assert!(pallet.managers.is_empty());
}

#[test]
fn add_manager_twice_is_refused() {
    let mut pallet = Pallet::new(config());
    assert_eq!(pallet.add_manager(true, acct(1), Funding::Milestone, false), Ok(()));
    assert_eq!(
        pallet.add_manager(true, acct(1), Funding::Milestone, false),
        Err(DispatchError::Module(Error::AlreadyAManager))
    );
    // Another funding type for the same manager is fine.
    assert_eq!(pallet.add_manager(true, acct(1), Funding::Donation, false), Ok(()));
    assert_eq!(pallet.managers.len(), 2);
}

#[test]
fn add_manager_with_change_replaces_every_funding_type() {
    let mut pallet = Pallet::new(config());
    pallet.add_manager(true, acct(1), Funding::Milestone, false).unwrap();
    pallet.add_manager(true, acct(1), Funding::Donation, false).unwrap();
    pallet.add_manager(true, acct(2), Funding::Rewards, false).unwrap();
    let mut ctx = None;
    pallet.spend_local_milestone(&mut ctx, Some(100), 10, acct(1)).unwrap();
    assert_eq!(pallet.add_manager(true, acct(1), Funding::Equity, true), Ok(()));
    assert_eq!(pallet.managers.len(), 2);
    assert!(entry_of(&pallet, acct(1), Funding::Milestone).is_none());
    assert!(entry_of(&pallet, acct(1), Funding::Donation).is_none());
    assert!(entry_of(&pallet, acct(1), Funding::Equity).unwrap().proposals.is_empty());
    assert!(entry_of(&pallet, acct(2), Funding::Rewards).is_some());
    // The proposal of the dropped entry was never paid, so its index is still approved.
    assert_eq!(pallet.approvals, vec![0]);
}

#[test]
fn remove_manager_errors_and_success() {
    let mut pallet = Pallet::new(config());
    assert_eq!(pallet.remove_manager(false, acct(1), Funding::Milestone), Err(DispatchError::BadOrigin));
    assert_eq!(
        pallet.remove_manager(true, acct(1), Funding::Milestone),
        Err(DispatchError::Module(Error::ManagerNotFound))
    );
    pallet.add_manager(true, acct(1), Funding::Milestone, false).unwrap();
    let mut ctx = None;
    pallet.spend_local_milestone(&mut ctx, Some(100), 10, acct(1)).unwrap();
    assert_eq!(
        pallet.remove_manager(true, acct(1), Funding::Milestone),
        Err(DispatchError::Module(Error::ActiveProposalsExist))
    );
    pallet.add_manager(true, acct(2), Funding::Donation, false).unwrap();
    assert_eq!(pallet.remove_manager(true, acct(2), Funding::Donation), Ok(()));
    assert!(entry_of(&pallet, acct(2), Funding::Donation).is_none());
    assert_eq!(pallet.managers.len(), 1);
}

#[test]
fn add_then_remove_manager_restores_the_managers() {
    let mut pallet = Pallet::new(config());
    pallet.add_manager(true, acct(7), Funding::Rewards, false).unwrap();
    pallet.add_manager(true, acct(1), Funding::Milestone, false).unwrap();
    pallet.remove_manager(true, acct(1), Funding::Milestone).unwrap();
    assert_eq!(pallet.managers.len(), 1);
    assert!(entry_of(&pallet, acct(7), Funding::Rewards).is_some());
}

#[test]
fn spend_local_milestone_creates_an_approved_proposal() {
    let mut pallet = Pallet::new(config());
    pallet.add_manager(true, acct(3), Funding::Milestone, false).unwrap();
    let mut ctx = None;
    assert_eq!(
        pallet.spend_local_milestone(&mut ctx, Some(20), 5, acct(3)),
        Ok(SpendApproval {
            event: Event::SpendApproved { proposal_index: 0, amount: 5, beneficiary: acct(3) },
            bond_holder: acct(3),
            bond: 2,
        })
    );
    assert_eq!(
        pallet.spend_local_milestone(&mut ctx, Some(20), 20, acct(3)),
        Ok(SpendApproval {
            event: Event::SpendApproved { proposal_index: 1, amount: 20, beneficiary: acct(3) },
            bond_holder: acct(3),
            bond: 10,
        })
    );
    assert_eq!(pallet.proposal_count, 2);
    assert_eq!(pallet.approvals, vec![0, 1]);
    let props = &entry_of(&pallet, acct(3), Funding::Milestone).unwrap().proposals;
    // The bond is half the value, rounded down.
    assert_eq!(
        props[0],
        Proposal { index: 0, proposer: acct(3), value: 5, beneficiary: acct(3), bond: 2, funding: Funding::Milestone }
    );
    assert_eq!(props[1].bond, 10);
    assert!(ctx.is_none());
}

#[test]
fn spend_local_milestone_origin_and_permission_errors() {
    let mut pallet = Pallet::new(config());
    let mut ctx = None;
    assert_eq!(pallet.spend_local_milestone(&mut ctx, None, 5, acct(3)), Err(DispatchError::BadOrigin));
    assert_eq!(
        pallet.spend_local_milestone(&mut ctx, Some(4), 5, acct(3)),
        Err(DispatchError::Module(Error::InsufficientPermission))
    );
    assert_eq!(
        pallet.spend_local_milestone(&mut ctx, Some(5), 5, acct(3)),
        Err(DispatchError::Module(Error::UnauthorizedManager))
    );
    // A manager of another funding type is no milestone manager.
    pallet.add_manager(true, acct(3), Funding::Donation, false).unwrap();
    assert_eq!(
        pallet.spend_local_milestone(&mut ctx, Some(5), 5, acct(3)),
        Err(DispatchError::Module(Error::UnauthorizedManager))
    );
    assert_eq!(pallet.proposal_count, 0);
}

#[test]
fn spends_within_one_context_share_the_limit() {
    let mut pallet = Pallet::new(config());
    pallet.add_manager(true, acct(3), Funding::Milestone, false).unwrap();
    let mut ctx = Some(SpendContext { spend_in_context: BTreeMap::new() });
    assert!(pallet.spend_local_milestone(&mut ctx, Some(10), 6, acct(3)).is_ok());
    assert_eq!(
        pallet.spend_local_milestone(&mut ctx, Some(10), 5, acct(3)),
        Err(DispatchError::Module(Error::InsufficientPermission))
    );
    assert_eq!(ctx.as_ref().unwrap().spend_in_context.get(&10), Some(&6));
    assert!(pallet.spend_local_milestone(&mut ctx, Some(10), 4, acct(3)).is_ok());
    assert_eq!(ctx.as_ref().unwrap().spend_in_context.get(&10), Some(&10));
    // Another limit is counted apart.
    assert!(pallet.spend_local_milestone(&mut ctx, Some(20), 15, acct(3)).is_ok());
    assert_eq!(ctx.as_ref().unwrap().spend_in_context.get(&20), Some(&15));
    assert_eq!(pallet.proposal_count, 3);
}

#[test]
fn a_refused_context_spend_records_the_limit() {
    let mut pallet = Pallet::new(config());
    pallet.add_manager(true, acct(3), Funding::Milestone, false).unwrap();
    let mut spent = SpendContext { spend_in_context: BTreeMap::new() };
    spent.spend_in_context.insert(10, 8);
    let mut ctx = Some(spent);
    assert_eq!(
        pallet.spend_local_milestone(&mut ctx, Some(10), 3, acct(3)),
        Err(DispatchError::Module(Error::InsufficientPermission))
    );
    assert_eq!(ctx.as_ref().unwrap().spend_in_context.get(&10), Some(&8));
}

#[test]
fn too_many_approvals_leaves_storage_unchanged() {
    let mut cfg = config();
    cfg.max_approvals = 1;
    let mut pallet = Pallet::new(cfg);
    pallet.add_manager(true, acct(3), Funding::Milestone, false).unwrap();
    let mut ctx = Some(SpendContext { spend_in_context: BTreeMap::new() });
    assert!(pallet.spend_local_milestone(&mut ctx, Some(100), 1, acct(3)).is_ok());
    assert_eq!(
        pallet.spend_local_milestone(&mut ctx, Some(100), 2, acct(3)),
        Err(DispatchError::Module(Error::TooManyApprovals))
    );
    assert_eq!(pallet.approvals, vec![0]);
    assert_eq!(pallet.proposal_count, 1);
    assert_eq!(entry_of(&pallet, acct(3), Funding::Milestone).unwrap().proposals.len(), 1);
    // The context keeps what was spent in it, the refused spend included.
    assert_eq!(ctx.as_ref().unwrap().spend_in_context.get(&100), Some(&3));
}

#[test]
fn too_many_proposals_leaves_storage_unchanged() {
    let mut cfg = config();
    cfg.max_proposals_per_manager = 1;
    let mut pallet = Pallet::new(cfg);
    pallet.add_manager(true, acct(3), Funding::Milestone, false).unwrap();
    let mut ctx = None;
    assert!(pallet.spend_local_milestone(&mut ctx, Some(100), 1, acct(3)).is_ok());
    assert_eq!(
        pallet.spend_local_milestone(&mut ctx, Some(100), 2, acct(3)),
        Err(DispatchError::Module(Error::TooManyProposals))
    );
    assert_eq!(pallet.approvals, vec![0]);
    assert_eq!(pallet.proposal_count, 1);
}

#[test]
fn paid_indices_leave_the_approvals() {
    let mut pallet = Pallet::new(config());
    pallet.add_manager(true, acct(1), Funding::Milestone, false).unwrap();
    pallet.add_manager(true, acct(2), Funding::Milestone, false).unwrap();
    let mut ctx = None;
    for i in 0..5u128 {
        pallet.spend_local_milestone(&mut ctx, Some(1000), 100 * i, acct(1 + (i as u64) % 2)).unwrap();
    }
    assert_eq!(pallet.approvals, vec![0, 1, 2, 3, 4]);
    // A pot of 450 pays 400 and 0 to manager 1 and misses the rest.
    let out = pallet.spend_funds(1, 2, 450);
    let paid: Vec<u32> = out.awarded.iter().map(|p| p.index).collect();
    assert_eq!(paid, vec![4, 0]);
    let mut left: Vec<u32> = (0..5).filter(|i| !paid.contains(i)).collect();
    left.sort();
    assert_eq!(pallet.approvals, left);
    assert!(!paid.is_empty());
    assert!(paid.iter().all(|i| !pallet.approvals.contains(i)));
}

#[test]
fn approvals_fill_up_only_with_unpaid_proposals() {
    let mut cfg = config();
    cfg.max_approvals = 1;
    let mut pallet = Pallet::new(cfg);
    pallet.add_manager(true, acct(3), Funding::Milestone, false).unwrap();
    let mut ctx = None;
    pallet.spend_local_milestone(&mut ctx, Some(100), 10, acct(3)).unwrap();
    assert_eq!(
        pallet.spend_local_milestone(&mut ctx, Some(100), 10, acct(3)),
        Err(DispatchError::Module(Error::TooManyApprovals))
    );
    let out = pallet.spend_funds(1, 2, 100);
    assert_eq!(out.processed, 1);
    assert!(pallet.approvals.is_empty());
    assert!(pallet.spend_local_milestone(&mut ctx, Some(100), 10, acct(3)).is_ok());
    assert_eq!(pallet.approvals, vec![1]);
}

#[test]
fn would_succeed_tells_when_a_proposal_is_created() {
    let mut pallet = Pallet::new(config());
    let ctx = None;
    assert!(!pallet.milestone_spend_would_succeed(&ctx, Some(10), 5, acct(3)));
    pallet.add_manager(true, acct(3), Funding::Milestone, false).unwrap();
    assert!(pallet.milestone_spend_would_succeed(&ctx, Some(10), 5, acct(3)));
    assert!(!pallet.milestone_spend_would_succeed(&ctx, None, 5, acct(3)));
    assert!(!pallet.milestone_spend_would_succeed(&ctx, Some(4), 5, acct(3)));
    let mut spent = SpendContext { spend_in_context: BTreeMap::new() };
    spent.spend_in_context.insert(10, 6);
    let ctx = Some(spent);
    assert!(!pallet.milestone_spend_would_succeed(&ctx, Some(10), 5, acct(3)));
    assert!(pallet.milestone_spend_would_succeed(&ctx, Some(10), 4, acct(3)));
    assert!(pallet.has_unique_managers());
}

#[test]
fn the_last_proposal_index_panics_only_where_a_proposal_is_made() {
    let mut pallet = Pallet::new(config());
    pallet.proposal_count = u32::MAX;
    let mut ctx = None;
    // Refused calls are answered as usual.
    assert_eq!(
        pallet.spend_local_milestone(&mut ctx, Some(5), 5, acct(3)),
        Err(DispatchError::Module(Error::UnauthorizedManager))
    );
    pallet.add_manager(true, acct(3), Funding::Milestone, false).unwrap();
    assert!(pallet.milestone_spend_would_succeed(&ctx, Some(5), 5, acct(3)));
}

#[test]
fn a_full_bond_equals_the_value() {
    let mut cfg = config();
    cfg.proposal_bond = 1_000_000;
    let mut pallet = Pallet::new(cfg);
    pallet.add_manager(true, acct(3), Funding::Milestone, false).unwrap();
    let mut ctx = None;
    pallet.spend_local_milestone(&mut ctx, Some(u128::MAX), u128::MAX, acct(3)).unwrap();
    assert_eq!(entry_of(&pallet, acct(3), Funding::Milestone).unwrap().proposals[0].bond, u128::MAX);
    let mut cfg = config();
    cfg.proposal_bond = 0;
    let mut pallet = Pallet::new(cfg);
    pallet.add_manager(true, acct(3), Funding::Milestone, false).unwrap();
    pallet.spend_local_milestone(&mut ctx, Some(7), 7, acct(3)).unwrap();
    assert_eq!(entry_of(&pallet, acct(3), Funding::Milestone).unwrap().proposals[0].bond, 0);
}

#[test]
fn is_well_formed_checks_the_invariant() {
    let mut pallet = Pallet::new(config());
    assert!(pallet.is_well_formed());
    pallet.approvals = vec![0];
    assert!(!pallet.is_well_formed());
    pallet.proposal_count = 2;
    assert!(pallet.is_well_formed());
    pallet.approvals = vec![1, 0];
    assert!(!pallet.is_well_formed());
    pallet.approvals = vec![];
    pallet.add_manager(true, acct(1), Funding::Rewards, false).unwrap();
    pallet.managers.push(ManagerEntry { manager: acct(1), funding: Funding::Rewards, proposals: vec![] });
    assert!(!pallet.is_well_formed());
}

#[test]
fn the_unit_spend_hook_spends_nothing() {
    let mut budget = 10u128;
    let mut imbalance = 3u128;
    let mut weight = Weight::from_parts(1, 2);
    let mut missed = true;
    <() as SpendFunds>::spend_funds(&mut budget, &mut imbalance, &mut weight, &mut missed);
    assert_eq!((budget, imbalance, weight, missed), (10, 3, Weight::from_parts(1, 2), true));
}

/// The indices of the stored proposals, after checking that each sits under its
/// beneficiary's milestone key, below the count, with no index twice.
fn stored_indices(pallet: &Pallet) -> Vec<u32> {
    let mut seen: Vec<u32> = Vec::new();
    for entry in &pallet.managers {
        for p in &entry.proposals {
            assert_eq!((entry.manager, entry.funding), (p.beneficiary, Funding::Milestone));
            assert!(p.index < pallet.proposal_count);
            assert!(!seen.contains(&p.index));
            seen.push(p.index);
        }
    }
    seen.sort();
    seen
}

#[test]
fn milestone_spends_keep_proposals_indexed() {
    let mut pallet = Pallet::new(config());
    pallet.add_manager(true, acct(1), Funding::Milestone, false).unwrap();
    pallet.add_manager(true, acct(2), Funding::Milestone, false).unwrap();
    pallet.add_manager(true, acct(2), Funding::Donation, false).unwrap();
    let mut ctx = None;
    for i in 0..6u64 {
        pallet.spend_local_milestone(&mut ctx, Some(1000), 10 * (i as u128 + 1), acct(1 + i % 2)).unwrap();
    }
    assert_eq!(stored_indices(&pallet), vec![0, 1, 2, 3, 4, 5]);
    // A pot of 100 pays manager 1's proposals 4, 2 and 0 (50, 30, 10) and misses manager 2's.
    pallet.spend_funds(1, 2, 100);
    assert_eq!(stored_indices(&pallet), vec![1, 3, 5]);
    pallet.spend_local_milestone(&mut ctx, Some(1000), 5, acct(2)).unwrap();
    assert_eq!(stored_indices(&pallet), vec![1, 3, 5, 6]);
}

#[test]
fn accounts_are_compared_by_every_byte() {
    let mut pallet = Pallet::new(config());
    let mut far = acct(1);
    far[31] = 1;
    pallet.add_manager(true, acct(1), Funding::Milestone, false).unwrap();
    assert_eq!(pallet.add_manager(true, far, Funding::Milestone, false), Ok(()));
    assert_eq!(pallet.managers.len(), 2);
    assert_eq!(pallet.remove_manager(true, far, Funding::Milestone), Ok(()));
    assert!(entry_of(&pallet, acct(1), Funding::Milestone).is_some());
}
