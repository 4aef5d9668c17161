use pallet_projects::pallet::{Config, Pallet};
use pallet_projects::spend::InactiveUpdate;
use pallet_projects::types::{Event, Funding, ManagerEntry, Proposal};

/// A `u64` account as the library holds it: its eight little-endian bytes, then zeroes.
fn acct(n: u64) -> [u8; 32] {
    let mut a = [0u8; 32];
    a[..8].copy_from_slice(&n.to_le_bytes());
    a
}

fn config(burn: u32) -> Config {
    Config {
        max_proposals_per_manager: 100,
        max_approvals: 100,
        pallet_id: *b"py/trsry",
        proposal_bond: 500_000,
        spend_period: 2,
        burn,
    }
}

fn proposal(index: u32, value: u128) -> Proposal {
    Proposal { index, proposer: acct(9), value, beneficiary: acct(10 + index as u64), bond: value / 2, funding: Funding::Milestone }
}

fn pallet_with(burn: u32, props: Vec<Proposal>, approvals: Vec<u32>, count: u32) -> Pallet {
    let mut pallet = Pallet::new(config(burn));
    pallet.managers.push(ManagerEntry { manager: acct(9), funding: Funding::Milestone, proposals: props });
    pallet.approvals = approvals;
    pallet.proposal_count = count;
    pallet
}

#[test]
fn spend_pays_from_the_last_proposal_and_misses_what_does_not_fit() {
    let mut pallet = pallet_with(500_000, vec![proposal(0, 30), proposal(1, 50), proposal(2, 40)], vec![0, 1, 2], 3);
    let out = pallet.spend_funds(1, 10, 100);
    assert_eq!(out.awarded, vec![proposal(2, 40), proposal(1, 50)]);
    assert_eq!(out.processed, 2);
    // A proposal was missed, so nothing is burnt.
    assert_eq!(out.burnt, None);
    assert_eq!(out.rollover, 10);
    assert_eq!(pallet.managers[0].proposals, vec![proposal(0, 30)]);
    // The paid indices are awarded and leave the approvals; the missed one stays.
    assert_eq!(pallet.approvals, vec![0]);
    assert_eq!(pallet.last_spend_period, Some(10));
    assert_eq!(
        out.events,
        vec![
            Event::Spending { budget_remaining: 100 },
            Event::Awarded { proposal_index: 2, award: 40, account: acct(12) },
            Event::Awarded { proposal_index: 1, award: 50, account: acct(11) },
            Event::Rollover { rollover_balance: 10 },
        ]
    );
}

#[test]
fn spend_skips_proposals_that_are_not_approved() {
    let mut pallet = pallet_with(0, vec![proposal(0, 1), proposal(1, 2), proposal(2, 3), proposal(3, 4)], vec![1, 3], 4);
    let out = pallet.spend_funds(1, 0, 100);
    assert_eq!(out.awarded, vec![proposal(3, 4), proposal(1, 2)]);
    // swap_remove at 3, then at 1.
    assert_eq!(pallet.managers[0].proposals, vec![proposal(0, 1), proposal(2, 3)]);
    assert_eq!(out.rollover, 94);
    assert!(pallet.approvals.is_empty());
}

#[test]
fn removal_moves_the_last_proposal_into_the_gap() {
    let mut pallet = pallet_with(0, vec![proposal(0, 1), proposal(1, 2), proposal(2, 3), proposal(3, 4)], vec![0, 1], 4);
    let out = pallet.spend_funds(1, 0, 100);
    assert_eq!(out.awarded, vec![proposal(1, 2), proposal(0, 1)]);
    // swap_remove at 1 gives [0, 3, 2]; at 0 then gives [2, 3].
    assert_eq!(pallet.managers[0].proposals, vec![proposal(2, 3), proposal(3, 4)]);
}

#[test]
fn spend_burns_half_per_period_when_nothing_was_missed() {
    let mut pallet = pallet_with(500_000, vec![proposal(0, 30)], vec![0], 1);
    let out = pallet.spend_funds(1, 2, 100);
    assert_eq!(out.burnt, Some(35));
    assert_eq!(out.rollover, 35);
    assert_eq!(
        out.events,
        vec![
            Event::Spending { budget_remaining: 100 },
            Event::Awarded { proposal_index: 0, award: 30, account: acct(10) },
            Event::Burnt { burnt_funds: 35 },
            Event::Rollover { rollover_balance: 35 },
        ]
    );
    assert!(pallet.managers[0].proposals.is_empty());
}

#[test]
fn burn_over_two_periods_rounds_to_nearest_with_half_down() {
    // 70 * 0.25 = 17.5, rounded down to 17.
    let mut pallet = pallet_with(500_000, vec![proposal(0, 30)], vec![0], 1);
    let out = pallet.spend_funds(2, 4, 100);
    assert_eq!(out.rollover, 17);
    assert_eq!(out.burnt, Some(53));
    // 75 * 0.25 = 18.75, rounded up to 19.
    let mut pallet = pallet_with(500_000, vec![proposal(0, 30)], vec![0], 1);
    let out = pallet.spend_funds(2, 4, 105);
    assert_eq!(out.rollover, 19);
    assert_eq!(out.burnt, Some(56));
}

#[test]
fn no_burn_configured_rolls_everything_over() {
    let mut pallet = pallet_with(0, vec![], vec![], 0);
    let out = pallet.spend_funds(3, 6, 100);
    assert_eq!(out.burnt, None);
    assert_eq!(out.rollover, 100);
    assert_eq!(out.events, vec![Event::Spending { budget_remaining: 100 }, Event::Rollover { rollover_balance: 100 }]);
}

#[test]
fn full_burn_burns_everything() {
    let mut pallet = pallet_with(1_000_000, vec![], vec![], 0);
    let out = pallet.spend_funds(1, 2, 100);
    assert_eq!(out.burnt, Some(100));
    assert_eq!(out.rollover, 0);
}

#[test]
fn spend_accounts_for_the_whole_pot() {
    let mut pallet = Pallet::new(config(300_000));
    pallet.managers.push(ManagerEntry { manager: acct(1), funding: Funding::Milestone, proposals: vec![proposal(0, 7), proposal(1, 11)] });
    pallet.managers.push(ManagerEntry { manager: acct(2), funding: Funding::Donation, proposals: vec![proposal(2, 13), proposal(3, 1)] });
    pallet.approvals = vec![0, 1, 2, 3];
    pallet.proposal_count = 4;
    let before: Vec<Proposal> = pallet.managers.iter().flat_map(|e| e.proposals.clone()).collect();
    let pot = 1_000;
    let out = pallet.spend_funds(3, 6, pot);
    let paid: u128 = out.awarded.iter().map(|p| p.value).sum();
    assert_eq!(paid + out.burnt.unwrap_or(0) + out.rollover, pot);
    // 968 * 0.7^3 = 968 * 0.343 = 332.024
    assert_eq!(out.rollover, 332);
    // Nothing is lost or duplicated.
    let mut after: Vec<Proposal> = pallet.managers.iter().flat_map(|e| e.proposals.clone()).collect();
    after.extend(out.awarded.iter().cloned());
    let key = |p: &Proposal| p.index;
    let mut before_sorted = before.clone();
    before_sorted.sort_by_key(key);
    after.sort_by_key(key);
    assert_eq!(after, before_sorted);
    assert_eq!(out.processed, 4);
}

#[test]
fn update_last_spend_period_backdates_on_a_period_block() {
    let mut pallet = Pallet::new(config(0));
    assert_eq!(pallet.update_last_spend_period(10), 8);
    assert_eq!(pallet.last_spend_period, Some(8));
    assert_eq!(pallet.update_last_spend_period(11), 10);
    assert_eq!(pallet.update_last_spend_period(0), 0);
    assert_eq!(pallet.update_last_spend_period(1), 0);
    let mut zero_period = Pallet::new(Config { spend_period: 0, ..config(0) });
    assert_eq!(zero_period.update_last_spend_period(7), 6);
}

#[test]
fn on_initialize_deactivates_a_changed_pot_and_spends_when_due() {
    let mut pallet = pallet_with(0, vec![proposal(0, 30)], vec![0], 1);
    let out = pallet.on_initialize(10, 101, 1);
    assert_eq!(out.inactive, Some(InactiveUpdate { reactivate: 0, deactivate: 100 }));
    assert_eq!(pallet.deactivated, 100);
    let spend = out.spend.as_ref().unwrap();
    assert_eq!(spend.awarded, vec![proposal(0, 30)]);
    assert_eq!(spend.rollover, 70);
    assert_eq!(pallet.last_spend_period, Some(10));
    assert_eq!(
        out.events,
        vec![
            Event::UpdatedInactive { reactivated: 0, deactivated: 100 },
            Event::Spending { budget_remaining: 100 },
            Event::Awarded { proposal_index: 0, award: 30, account: acct(10) },
            Event::Rollover { rollover_balance: 70 },
        ]
    );
}

#[test]
fn on_initialize_waits_for_a_whole_period() {
    let mut pallet = pallet_with(0, vec![proposal(0, 30)], vec![0], 1);
    pallet.deactivated = 100;
    let out = pallet.on_initialize(5, 101, 1);
    assert_eq!(out.inactive, None);
    assert!(out.spend.is_none());
    assert!(out.events.is_empty());
    assert_eq!(pallet.last_spend_period, Some(4));
    assert_eq!(pallet.managers[0].proposals.len(), 1);
    // Two blocks later one period has passed.
    let out = pallet.on_initialize(7, 101, 1);
    assert!(out.spend.is_some());
    assert_eq!(pallet.last_spend_period, Some(6));
}

#[test]
fn on_initialize_counts_the_periods_passed() {
    let mut pallet = pallet_with(500_000, vec![], vec![], 0);
    pallet.last_spend_period = Some(2);
    pallet.deactivated = 100;
    // 7 blocks since the last period: three periods and one block.
    let out = pallet.on_initialize(9, 101, 1);
    let spend = out.spend.unwrap();
    // 100 * 0.5^3 = 12.5, rounded down.
    assert_eq!(spend.rollover, 12);
    assert_eq!(spend.burnt, Some(88));
    assert_eq!(pallet.last_spend_period, Some(8));
}

#[test]
fn a_burn_leaves_only_unapproved_proposals() {
    let mut pallet = pallet_with(500_000, vec![proposal(0, 10), proposal(5, 1_000)], vec![0], 6);
    let out = pallet.spend_funds(1, 2, 100);
    assert_eq!(out.burnt, Some(45));
    assert_eq!(out.rollover, 45);
    // The proposal left is not approved.
    assert_eq!(pallet.managers[0].proposals, vec![proposal(5, 1_000)]);
}

#[test]
fn many_periods_burn_the_whole_budget() {
    let mut pallet = pallet_with(500_000, vec![], vec![], 0);
    let out = pallet.spend_funds(u64::MAX, 2, 1_000);
    assert_eq!(out.burnt, Some(1_000));
    assert_eq!(out.rollover, 0);
}

#[test]
fn zero_pot_pays_only_free_proposals() {
    let mut pallet = pallet_with(500_000, vec![proposal(0, 0), proposal(1, 1)], vec![0, 1], 2);
    let out = pallet.spend_funds(1, 2, 0);
    // Proposal 1 does not fit and is missed; proposal 0 costs nothing and is paid.
    assert_eq!(out.awarded, vec![proposal(0, 0)]);
    assert_eq!(out.burnt, None);
    assert_eq!(out.rollover, 0);
    assert_eq!(pallet.managers[0].proposals, vec![proposal(1, 1)]);
}

#[test]
fn the_schedule_over_successive_blocks() {
    // Last spend period 2, period 2, the hook first runs at block 7: it catches up two periods
    // and then runs every second block.
    let mut pallet = pallet_with(0, vec![], vec![], 0);
    pallet.last_spend_period = Some(2);
    let mut runs = Vec::new();
    for block in 7..14u64 {
        let out = pallet.on_initialize(block, 1, 1);
        if let Some(spend) = out.spend {
            runs.push((block, spend.events.len()));
        }
        assert_eq!(pallet.spend_periods_due(block), 0);
    }
    assert_eq!(runs.iter().map(|r| r.0).collect::<Vec<_>>(), vec![7, 8, 10, 12]);
    assert_eq!(pallet.last_spend_period, Some(12));
}

#[test]
fn the_periods_due_are_those_the_hook_finds() {
    let mut pallet = pallet_with(500_000, vec![], vec![], 0);
    pallet.last_spend_period = Some(2);
    pallet.deactivated = 100;
    assert_eq!(pallet.spend_periods_due(9), 3);
    assert_eq!(pallet.spend_periods_due(3), 0);
    pallet.last_spend_period = None;
    // Block 10 on a period of 2 backdates to 8.
    assert_eq!(pallet.spend_periods_due(10), 1);
}
