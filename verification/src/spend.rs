//! Spend periods: paying approved proposals out of the pot, burning part of what is left, and
//! the block hook that decides when a spend period has passed.
use vstd::prelude::*;

use crate::managers::{entry_key, keys_unique};
use crate::laws::{law_spend_keeps_proposals_indexed, law_spend_pays_in_turn, passed_over, pay_order, pays_in_turn};
use crate::pallet::{config_valid, proposals_indexed, strictly_sorted, Pallet};

use crate::permill::{
    lemma_mul_nearest_le, lemma_permill_pow_bounded, mul_nearest_spec, permill_left_from_one, permill_mul_nearest,
    permill_pow, permill_saturating_pow, ACCURACY,
};
use crate::types::{Balance, BlockNumber, Event, ManagerEntry, Proposal, ProposalIndex};

verus! {

/// What one spend period did.
pub struct SpendOutcome {
    /// The proposals that were paid, in the order they were paid. For each, the proposer's
    /// bond is unreserved and the value is deposited to the beneficiary.
    pub awarded: Vec<Proposal>,
    /// The amount burnt from the remaining budget, if any was.
    pub burnt: Option<Balance>,
    /// The budget that rolls over to the next period.
    pub rollover: Balance,
    /// The number of proposals paid.
    pub processed: u32,
    /// The events deposited, in order.
    pub events: Vec<Event>,
}

/// The amounts to reactivate and to deactivate in the currency when the pot changed.
#[derive(Clone, Copy, PartialEq, Eq, Structural, Debug)]
pub struct InactiveUpdate {
    pub reactivate: Balance,
    pub deactivate: Balance,
}

/// What the block hook did.
pub struct InitializeOutcome {
    /// The change of the inactive amount, when the pot differs from what was deactivated.
    pub inactive: Option<InactiveUpdate>,
    /// The spend period that ran, if one passed.
    pub spend: Option<SpendOutcome>,
    /// All events deposited, in order.
    pub events: Vec<Event>,
}

/// Scanning proposals from position `n - 1` down to `0`: an approved proposal whose value
/// fits in the budget is paid; an approved one that does not fit is missed.
/// The result is the budget left, whether any was missed, the positions paid and the
/// proposals paid, both in the order they were paid.
pub open spec fn scan(
    props: Seq<Proposal>,
    approvals: Seq<ProposalIndex>,
    budget: int,
    missed: bool,
    n: nat,
) -> (int, bool, Seq<int>, Seq<Proposal>)
    decreases n,
{
    if n == 0 {
        (budget, missed, Seq::empty(), Seq::empty())
    } else {
        let i = n - 1;
        let p = props[i];
        if approvals.contains(p.index) {
            if p.value <= budget {
                let r = scan(props, approvals, budget - p.value, missed, (n - 1) as nat);
                (r.0, r.1, seq![i].add(r.2), seq![p].add(r.3))
            } else {
                scan(props, approvals, budget, true, (n - 1) as nat)
            }
        } else {
            scan(props, approvals, budget, missed, (n - 1) as nat)
        }
    }
}

/// `Vec::swap_remove` at position `i`: the last element takes the place of the removed one.
pub open spec fn swap_remove_at(s: Seq<Proposal>, i: int) -> Seq<Proposal> {
    s.update(i, s.last()).drop_last()
}

/// `swap_remove` at each of the positions, in order.
pub open spec fn swap_remove_all(s: Seq<Proposal>, idxs: Seq<int>) -> Seq<Proposal>
    decreases idxs.len(),
{
    if idxs.len() == 0 {
        s
    } else {
        swap_remove_all(swap_remove_at(s, idxs[0]), idxs.drop_first())
    }
}

/// Paying out the managers' proposals, entry after entry, from `budget`. The result is the
/// budget left, whether any approved proposal was missed, each entry's remaining proposals,
/// and the proposals paid in the order they were paid.
pub open spec fn spend_all(
    entries: Seq<ManagerEntry>,
    approvals: Seq<ProposalIndex>,
    budget: int,
    missed: bool,
) -> (int, bool, Seq<Seq<Proposal>>, Seq<Proposal>)
    decreases entries.len(),
{
    if entries.len() == 0 {
        (budget, missed, Seq::empty(), Seq::empty())
    } else {
        let props = entries[0].proposals@;
        let r = scan(props, approvals, budget, missed, props.len());
        let rest = spend_all(entries.drop_first(), approvals, r.0, r.1);
        (rest.0, rest.1, seq![swap_remove_all(props, r.2)].add(rest.2), r.3.add(rest.3))
    }
}

/// The number of proposals that all managers hold.
pub open spec fn total_proposals(entries: Seq<ManagerEntry>) -> nat
    decreases entries.len(),
{
    if entries.len() == 0 {
        0
    } else {
        entries[0].proposals@.len() + total_proposals(entries.drop_first())
    }
}

/// The sum of the proposals' values.
pub open spec fn total_value(s: Seq<Proposal>) -> int
    decreases s.len(),
{
    if s.len() == 0 {
        0
    } else {
        s[0].value + total_value(s.drop_first())
    }
}

/// The number of spend periods as the exponent of the burn, saturating at `usize::MAX`.
pub open spec fn periods_exponent(passed: BlockNumber) -> usize {
    if passed > usize::MAX {
        usize::MAX
    } else {
        passed as usize
    }
}

/// Whether the remaining budget is burnt in part: when no approved proposal was missed and
/// the burn is not zero.
pub open spec fn burns(burn: u32, missed: bool) -> bool {
    !missed && burn != 0
}

/// The budget left after burning over `passed` spend periods: the budget times
/// `(1 - burn)` to the power of the number of periods.
pub open spec fn budget_after_burn(burn: u32, passed: BlockNumber, budget: int) -> int {
    mul_nearest_spec(
        permill_pow((ACCURACY - burn) as u32, periods_exponent(passed)) as int,
        budget,
    )
}

/// The event that paying a proposal deposits.
pub open spec fn award_event(p: Proposal) -> Event {
    Event::Awarded { proposal_index: p.index, award: p.value, account: p.beneficiary }
}

/// The events of a spend period, in order.
pub open spec fn spend_events(
    pot: Balance,
    awarded: Seq<Proposal>,
    burnt: Option<Balance>,
    rollover: Balance,
) -> Seq<Event> {
    seq![Event::Spending { budget_remaining: pot }].add(
        awarded.map_values(|p: Proposal| award_event(p)),
    ).add(
        match burnt {
            Some(b) => seq![Event::Burnt { burnt_funds: b }],
            None => Seq::empty(),
        },
    ).add(seq![Event::Rollover { rollover_balance: rollover }])
}

/// What a spend period from `pot` does to the managers `pre` holds under `approvals`, and
/// what it reports: each entry keeps its key and holds what `spend_all` leaves of it.
pub open spec fn spend_effect(
    pre: Seq<ManagerEntry>,
    approvals: Seq<ProposalIndex>,
    burn: u32,
    passed: BlockNumber,
    pot: Balance,
    post: Seq<ManagerEntry>,
    out: SpendOutcome,
) -> bool {
    let r = spend_all(pre, approvals, pot as int, false);
    let after = budget_after_burn(burn, passed, r.0);
    &&& post.len() == pre.len()
    &&& forall|k: int|
        0 <= k < pre.len() ==> (#[trigger] post[k]).manager == pre[k].manager && post[k].funding
            == pre[k].funding && post[k].proposals@ == r.2[k]
    &&& burns(burn, r.1) ==> 0 <= after <= r.0
    &&& out.awarded@ == r.3
    &&& out.processed == r.3.len()
    &&& out.burnt == if burns(burn, r.1) {
        Some((r.0 - after) as Balance)
    } else {
        None::<Balance>
    }
    &&& out.rollover == if burns(burn, r.1) {
        after as Balance
    } else {
        r.0 as Balance
    }
    &&& out.events@ == spend_events(pot, r.3, out.burnt, out.rollover)
}

/// `max(spend_period, 1)`: the spend period, never zero.
pub open spec fn safe_period(spend_period: BlockNumber) -> BlockNumber {
    if spend_period > 1 {
        spend_period
    } else {
        1
    }
}

/// `a - b`, or zero where `b` is larger.
pub open spec fn sat_sub(a: u64, b: u64) -> u64 {
    if a >= b {
        (a - b) as u64
    } else {
        0
    }
}

/// The last spend period before `block`: the last multiple of the period below it, or one
/// period back where `block` is itself a multiple.
pub open spec fn last_spend_period_at(block: BlockNumber, spend_period: BlockNumber) -> BlockNumber {
    let period = safe_period(spend_period);
    let since = block % period;
    if since == 0 {
        sat_sub(block, period)
    } else {
        (block - since) as BlockNumber
    }
}

/// The pot: the free balance less the minimum balance, or zero.
pub open spec fn pot_of(free_balance: Balance, minimum_balance: Balance) -> Balance {
    if free_balance >= minimum_balance {
        (free_balance - minimum_balance) as Balance
    } else {
        0
    }
}

/// The last spend period that the block hook starts from: the recorded one, or the one
/// before the block where none is recorded yet.
pub open spec fn hook_last(last: Option<BlockNumber>, block: BlockNumber, spend_period: BlockNumber) -> BlockNumber {
    match last {
        Some(l) => l,
        None => last_spend_period_at(block, spend_period),
    }
}

/// The number of whole spend periods from `last` to `block`.
pub open spec fn periods_passed(last: BlockNumber, block: BlockNumber, spend_period: BlockNumber) -> BlockNumber {
    (sat_sub(block, last) / safe_period(spend_period)) as BlockNumber
}

/// The last spend period after those periods: `block` less the blocks beyond whole periods.
pub open spec fn advanced_last(last: BlockNumber, block: BlockNumber, spend_period: BlockNumber) -> BlockNumber {
    sat_sub(block, (sat_sub(block, last) % safe_period(spend_period)) as BlockNumber)
}

/// The last spend period that the block hook records at `block`, starting from `last`.
pub open spec fn hook_step(last: BlockNumber, block: BlockNumber, spend_period: BlockNumber) -> BlockNumber {
    if periods_passed(last, block, spend_period) > 0 {
        advanced_last(last, block, spend_period)
    } else {
        last
    }
}

/// The last spend period before `block`.
fn last_spend_period_before(block_number: BlockNumber, spend_period: BlockNumber) -> (r: BlockNumber)
    ensures
        r == last_spend_period_at(block_number, spend_period),
{
    let spend_period = if spend_period > 1 {
        spend_period
    } else {
        1
    };
    let time_since_last_spend = block_number % spend_period;
    assert(time_since_last_spend <= block_number) by (nonlinear_arith)
        requires
            time_since_last_spend == block_number % spend_period,
            spend_period >= 1,
    ;
    // On a spend period block itself, backdate one period so that a spend still
    // occurs in this block.
    if time_since_last_spend == 0 {
        block_number.saturating_sub(spend_period)
    } else {
        block_number.saturating_sub(time_since_last_spend)
    }
}

/// The spend periods passed from `last` to `block_number`, and the last spend period after
/// them.
fn periods_since(last: BlockNumber, block_number: BlockNumber, spend_period: BlockNumber) -> (r: (
    BlockNumber,
    BlockNumber,
))
    ensures
        r.0 == periods_passed(last, block_number, spend_period),
        r.1 == advanced_last(last, block_number, spend_period),
{
    let blocks_since_last_spend_period = block_number.saturating_sub(last);
    // Never zero: `max(spend_period, 1)`.
    let safe_spend_period = if spend_period > 1 {
        spend_period
    } else {
        1
    };
    let spend_periods_passed = blocks_since_last_spend_period / safe_spend_period;
    let extra_blocks = blocks_since_last_spend_period % safe_spend_period;
    (spend_periods_passed, block_number.saturating_sub(extra_blocks))
}

/// Whether `index` is one of the approvals. Where the approvals are sorted, as the pallet
/// keeps them, this is what a binary search of them answers.
fn is_approved(approvals: &Vec<ProposalIndex>, index: ProposalIndex) -> (r: bool)
    ensures
        r == approvals@.contains(index),
{
    let mut i: usize = 0;
    while i < approvals.len()
        invariant
            i <= approvals@.len(),
            forall|j: int| 0 <= j < i ==> approvals@[j] != index,
        decreases approvals@.len() - i,
    {
        if approvals[i] == index {
            proof {
                assert(approvals@[i as int] == index);
            }
            return true;
        }
        i = i + 1;
    }
    false
}

/// Some proposal paid has the index `index`.
pub open spec fn paid_index(paid: Seq<Proposal>, index: ProposalIndex) -> bool {
    exists|t: int| 0 <= t < paid.len() && (#[trigger] paid[t]).index == index
}

/// The approvals without the indices of the proposals paid, the others kept in order.
pub open spec fn unpaid_approvals(approvals: Seq<ProposalIndex>, paid: Seq<Proposal>) -> Seq<
    ProposalIndex,
>
    decreases approvals.len(),
{
    if approvals.len() == 0 {
        Seq::empty()
    } else {
        let rest = unpaid_approvals(approvals.drop_last(), paid);
        if paid_index(paid, approvals.last()) {
            rest
        } else {
            rest.push(approvals.last())
        }
    }
}

/// What is left of the approvals once the paid ones are dropped: exactly the approvals that
/// were not paid, in their order, so sorted approvals stay sorted.
pub proof fn lemma_unpaid_approvals(approvals: Seq<ProposalIndex>, paid: Seq<Proposal>)
    ensures
        forall|x: ProposalIndex|
            #[trigger] unpaid_approvals(approvals, paid).contains(x) <==> approvals.contains(x)
                && !paid_index(paid, x),
        strictly_sorted(approvals) ==> strictly_sorted(unpaid_approvals(approvals, paid)),
    decreases approvals.len(),
{
    if approvals.len() > 0 {
        let init = approvals.drop_last();
        let last = approvals.last();
        lemma_unpaid_approvals(init, paid);
        let rest = unpaid_approvals(init, paid);
        assert(approvals =~= init.push(last));
        assert forall|x: ProposalIndex|
            #[trigger] unpaid_approvals(approvals, paid).contains(x) <==> approvals.contains(x)
                && !paid_index(paid, x) by {
            if approvals.contains(x) {
                let j = choose|j: int| 0 <= j < approvals.len() && approvals[j] == x;
                if j < init.len() {
                    assert(init[j] == x);
                }
            }
            if init.contains(x) {
                let j = choose|j: int| 0 <= j < init.len() && init[j] == x;
                assert(approvals[j] == x);
            }
            if !paid_index(paid, last) {
                assert(rest.push(last)[rest.len() as int] == last);
                if rest.contains(x) {
                    let j = choose|j: int| 0 <= j < rest.len() && rest[j] == x;
                    assert(rest.push(last)[j] == x);
                }
                if rest.push(last).contains(x) {
                    let j = choose|j: int| 0 <= j < rest.len() + 1 && rest.push(last)[j] == x;
                    if j < rest.len() {
                        assert(rest[j] == x);
                    }
                }
            }
        }
        if strictly_sorted(approvals) && !paid_index(paid, last) {
            let r = rest.push(last);
            assert forall|i: int, j: int| 0 <= i < j < r.len() implies r[i] < r[j] by {
                if j == rest.len() {
                    assert(rest.contains(r[i]));
                    assert(init.contains(r[i]));
                    let k = choose|k: int| 0 <= k < init.len() && init[k] == r[i];
                    assert(approvals[k] == r[i]);
                } else {
                    assert(r[i] == rest[i] && r[j] == rest[j]);
                }
            }
        }
    }
}

/// Whether some proposal paid has the index `index`.
fn is_paid(paid: &Vec<Proposal>, index: ProposalIndex) -> (r: bool)
    ensures
        r == paid_index(paid@, index),
{
    let mut i: usize = 0;
    while i < paid.len()
        invariant
            i <= paid@.len(),
            forall|j: int| 0 <= j < i ==> (#[trigger] paid@[j]).index != index,
        decreases paid@.len() - i,
    {
        if paid[i].index == index {
            proof {
                assert(paid@[i as int].index == index);
            }
            return true;
        }
        i = i + 1;
    }
    false
}

/// The approvals without the indices of the proposals paid.
fn drop_paid_approvals(approvals: &Vec<ProposalIndex>, paid: &Vec<Proposal>) -> (r: Vec<ProposalIndex>)
    ensures
        r@ == unpaid_approvals(approvals@, paid@),
{
    let mut r: Vec<ProposalIndex> = Vec::new();
    let mut i: usize = 0;
    proof {
        assert(approvals@.take(0) =~= Seq::<ProposalIndex>::empty());
    }
    while i < approvals.len()
        invariant
            i <= approvals@.len(),
            r@ == unpaid_approvals(approvals@.take(i as int), paid@),
        decreases approvals@.len() - i,
    {
        let a = approvals[i];
        proof {
            assert(approvals@.take(i + 1).drop_last() =~= approvals@.take(i as int));
            assert(approvals@.take(i + 1).last() == a);
        }
        if !is_paid(paid, a) {
            r.push(a);
        }
        i = i + 1;
    }
    proof {
        assert(approvals@.take(approvals@.len() as int) =~= approvals@);
    }
    r
}

/// The facts about one scan: the budget only shrinks, by exactly what was paid; the
/// positions paid descend, each below `n`, and hold the proposals paid; each proposal paid
/// is approved.
pub proof fn lemma_scan(
    props: Seq<Proposal>,
    approvals: Seq<ProposalIndex>,
    budget: int,
    missed: bool,
    n: nat,
)
    requires
        0 <= budget,
        n <= props.len(),
    ensures
        ({
            let r = scan(props, approvals, budget, missed, n);
            &&& 0 <= r.0 <= budget
            &&& r.0 + total_value(r.3) == budget
            &&& r.2.len() == r.3.len()
            &&& r.3.len() <= n
            &&& forall|t: int| 0 <= t < r.2.len() ==> 0 <= #[trigger] r.2[t] < n
            &&& forall|t: int, u: int| 0 <= t < u < r.2.len() ==> r.2[t] > r.2[u]
            &&& forall|t: int| 0 <= t < r.2.len() ==> #[trigger] r.3[t] == props[r.2[t]]
            &&& forall|t: int| 0 <= t < r.3.len() ==> approvals.contains(#[trigger] r.3[t].index)
            &&& missed ==> r.1
        }),
    decreases n,
{
    if n > 0 {
        let i = n - 1;
        let p = props[i];
        if approvals.contains(p.index) {
            if p.value <= budget {
                lemma_scan(props, approvals, budget - p.value, missed, (n - 1) as nat);
                let r = scan(props, approvals, budget - p.value, missed, (n - 1) as nat);
                let rem = seq![i].add(r.2);
                let aw = seq![p].add(r.3);
                assert(aw.drop_first() =~= r.3);
                assert forall|t: int| 0 <= t < rem.len() implies 0 <= #[trigger] rem[t] < n by {
                    if t > 0 {
                        assert(rem[t] == r.2[t - 1]);
                    }
                }
                assert forall|t: int, u: int| 0 <= t < u < rem.len() implies rem[t] > rem[u] by {
                    assert(rem[u] == r.2[u - 1]);
                    if t > 0 {
                        assert(rem[t] == r.2[t - 1]);
                    }
                }
                assert forall|t: int| 0 <= t < rem.len() implies #[trigger] aw[t] == props[rem[t]] by {
                    if t > 0 {
                        assert(rem[t] == r.2[t - 1]);
                        assert(aw[t] == r.3[t - 1]);
                    }
                }
                assert forall|t: int| 0 <= t < aw.len() implies approvals.contains(#[trigger] aw[t].index) by {
                    if t > 0 {
                        assert(aw[t] == r.3[t - 1]);
                    }
                }
            } else {
                lemma_scan(props, approvals, budget, true, (n - 1) as nat);
            }
        } else {
            lemma_scan(props, approvals, budget, missed, (n - 1) as nat);
        }
    }
}

/// Paying out one manager's proposals, from the last position down to the first.
/// Returns the budget left, whether an approved proposal was missed, and the positions paid;
/// the proposals paid are appended to `awarded`.
fn scan_entry(
    props: &Vec<Proposal>,
    approvals: &Vec<ProposalIndex>,
    budget: Balance,
    missed: bool,
    awarded: &mut Vec<Proposal>,
) -> (res: (Balance, bool, Vec<usize>))
    ensures
        ({
            let r = scan(props@, approvals@, budget as int, missed, props@.len());
            &&& res.0 == r.0
            &&& res.1 == r.1
            &&& res.2@.len() == r.2.len()
            &&& forall|t: int| 0 <= t < r.2.len() ==> res.2@[t] as int == #[trigger] r.2[t]
            &&& final(awarded)@ == old(awarded)@ + r.3
        }),
{
    let ghost total = scan(props@, approvals@, budget as int, missed, props@.len());
    let ghost rem: Seq<int> = Seq::empty();
    let ghost acc: Seq<Proposal> = Seq::empty();
    let mut cur_budget = budget;
    let mut cur_missed = missed;
    let mut removed: Vec<usize> = Vec::new();
    let mut n = props.len();
    while n > 0
        invariant
            n <= props@.len(),
            total == scan(props@, approvals@, budget as int, missed, props@.len()),
            ({
                let s = scan(props@, approvals@, cur_budget as int, cur_missed, n as nat);
                &&& total.0 == s.0
                &&& total.1 == s.1
                &&& total.2 =~= rem + s.2
                &&& total.3 =~= acc + s.3
            }),
            removed@.len() == rem.len(),
            forall|t: int| 0 <= t < rem.len() ==> removed@[t] as int == #[trigger] rem[t],
            awarded@ == old(awarded)@ + acc,
        decreases n,
    {
        n = n - 1;
        let p = props[n];
        if is_approved(approvals, p.index) {
            if p.value <= cur_budget {
                let ghost r = scan(props@, approvals@, cur_budget - p.value, cur_missed, n as nat);
                proof {
                    assert(rem + (seq![n as int].add(r.2)) =~= rem.push(n as int) + r.2);
                    assert(acc + (seq![p].add(r.3)) =~= acc.push(p) + r.3);
                    rem = rem.push(n as int);
                    acc = acc.push(p);
                }
                cur_budget = cur_budget - p.value;
                removed.push(n);
                awarded.push(p);
            } else {
                cur_missed = true;
            }
        }
    }
    proof {
        assert(rem + Seq::<int>::empty() =~= rem);
        assert(acc + Seq::<Proposal>::empty() =~= acc);
    }
    (cur_budget, cur_missed, removed)
}

/// A copy of the proposals.
fn copy_proposals(props: &Vec<Proposal>) -> (r: Vec<Proposal>)
    ensures
        r@ == props@,
{
    let mut r: Vec<Proposal> = Vec::new();
    let mut i: usize = 0;
    while i < props.len()
        invariant
            i <= props@.len(),
            r@ =~= props@.take(i as int),
        decreases props@.len() - i,
    {
        r.push(props[i]);
        i = i + 1;
        proof {
            assert(r@ =~= props@.take(i as int));
        }
    }
    proof {
        assert(props@.take(props@.len() as int) =~= props@);
    }
    r
}

/// The proposals left after `swap_remove` at each of the positions, in order. The positions
/// descend and are all within the list.
fn remove_awarded(props: &Vec<Proposal>, removed: &Vec<usize>) -> (r: Vec<Proposal>)
    requires
        forall|t: int| 0 <= t < removed@.len() ==> #[trigger] removed@[t] < props@.len(),
        forall|t: int, u: int| 0 <= t < u < removed@.len() ==> removed@[t] > removed@[u],
    ensures
        r@ == swap_remove_all(props@, removed@.map_values(|i: usize| i as int)),
{
    let ghost idxs = removed@.map_values(|i: usize| i as int);
    let mut out = copy_proposals(props);
    let mut t: usize = 0;
    proof {
        assert(idxs.skip(0) =~= idxs);
    }
    while t < removed.len()
        invariant
            t <= removed@.len(),
            out@.len() == props@.len() - t,
            idxs == removed@.map_values(|i: usize| i as int),
            forall|u: int| t <= u < removed@.len() ==> #[trigger] removed@[u] < out@.len(),
            forall|a: int, b: int| 0 <= a < b < removed@.len() ==> removed@[a] > removed@[b],
            swap_remove_all(props@, idxs) == swap_remove_all(out@, idxs.skip(t as int)),
        decreases removed@.len() - t,
    {
        let i = removed[t];
        proof {
            let rest = idxs.skip(t as int);
            assert(rest[0] == i as int);
            assert(rest.drop_first() =~= idxs.skip(t + 1));
        }
        out.swap_remove(i);
        t = t + 1;
        proof {
            assert forall|u: int| t <= u < removed@.len() implies #[trigger] removed@[u] < out@.len() by {
                assert(removed@[u] < removed@[t - 1]);
            }
        }
    }
    proof {
        assert(idxs.skip(removed@.len() as int) =~= Seq::<int>::empty());
    }
    out
}

/// The sum of values splits over concatenation.
pub proof fn lemma_total_value_add(a: Seq<Proposal>, b: Seq<Proposal>)
    ensures
        total_value(a + b) == total_value(a) + total_value(b),
    decreases a.len(),
{
    if a.len() > 0 {
        assert((a + b).drop_first() =~= a.drop_first() + b);
        lemma_total_value_add(a.drop_first(), b);
    } else {
        assert(a + b =~= b);
    }
}

/// The facts about paying out all entries: the budget shrinks by exactly what was paid,
/// no more proposals are paid than are held, every entry gets its remaining proposals, and
/// every proposal paid is approved.
pub proof fn lemma_spend_all(
    entries: Seq<ManagerEntry>,
    approvals: Seq<ProposalIndex>,
    budget: int,
    missed: bool,
)
    requires
        0 <= budget,
    ensures
        ({
            let r = spend_all(entries, approvals, budget, missed);
            &&& 0 <= r.0 <= budget
            &&& r.0 + total_value(r.3) == budget
            &&& r.2.len() == entries.len()
            &&& r.3.len() <= total_proposals(entries)
            &&& forall|t: int| 0 <= t < r.3.len() ==> approvals.contains(#[trigger] r.3[t].index)
            &&& missed ==> r.1
        }),
    decreases entries.len(),
{
    if entries.len() > 0 {
        let props = entries[0].proposals@;
        let r = scan(props, approvals, budget, missed, props.len());
        lemma_scan(props, approvals, budget, missed, props.len());
        lemma_spend_all(entries.drop_first(), approvals, r.0, r.1);
        let rest = spend_all(entries.drop_first(), approvals, r.0, r.1);
        lemma_total_value_add(r.3, rest.3);
        let all = r.3.add(rest.3);
        assert forall|t: int| 0 <= t < all.len() implies approvals.contains(#[trigger] all[t].index) by {
            if t < r.3.len() {
                assert(all[t] == r.3[t]);
            } else {
                assert(all[t] == rest.3[t - r.3.len()]);
            }
        }
    }
}

impl Pallet {
    /// Pays approved proposals out of the pot for the spend periods passed, managers in storage
    /// order and each manager's proposals from the last to the first: a proposal whose value
    /// fits in the remaining budget is paid and removed with `swap_remove`; one that does not
    /// fit is missed. When none was missed and the burn is not zero, the remaining budget is
    /// burnt down by the burn share for each period passed; the rest rolls over. The indices
    /// of the proposals paid are awarded and leave the approvals; the others stay, in order.
    /// Records `new_last_spend_period` as the last spend period.
    pub fn spend_funds(
        &mut self,
        spend_periods_passed: BlockNumber,
        new_last_spend_period: BlockNumber,
        pot: Balance,
    ) -> (out: SpendOutcome)
        requires
            config_valid(old(self).config),
            total_proposals(old(self).managers@) <= u32::MAX,
        ensures
            keys_unique(old(self).managers@) ==> keys_unique(final(self).managers@),
            old(self).wf() ==> final(self).wf(),
            keys_unique(old(self).managers@) && proposals_indexed(old(self).managers_map(), old(self).proposal_count)
                ==> proposals_indexed(final(self).managers_map(), final(self).proposal_count),
            final(self).config == old(self).config,
            final(self).proposal_count == old(self).proposal_count,
            final(self).deactivated == old(self).deactivated,
            final(self).approvals@ == unpaid_approvals(old(self).approvals@, out.awarded@),
            final(self).last_spend_period == Some(new_last_spend_period),
            spend_effect(
                old(self).managers@,
                old(self).approvals@,
                old(self).config.burn,
                spend_periods_passed,
                pot,
                final(self).managers@,
                out,
            ),
            exists|pos: Seq<int>|
                pays_in_turn(pay_order(old(self).managers@), old(self).approvals@, pot as int, out.awarded@, pos)
                    && (out.burnt is Some <==> (old(self).config.burn != 0 && !passed_over(
                    pay_order(old(self).managers@),
                    old(self).approvals@,
                    pos,
                ))),
    {
        self.last_spend_period = Some(new_last_spend_period);
        let mut entries: Vec<ManagerEntry> = Vec::new();
        std::mem::swap(&mut entries, &mut self.managers);
        let ghost pre = entries@;
        let ghost total = spend_all(pre, self.approvals@, pot as int, false);
        let ghost done: Seq<Seq<Proposal>> = Seq::empty();
        proof {
            lemma_spend_all(pre, self.approvals@, pot as int, false);
        }

        let mut budget = pot;
        let mut missed = false;
        let mut awarded: Vec<Proposal> = Vec::new();
        let mut processed: u32 = 0;
        let mut k: usize = 0;
        proof {
            assert(pre.skip(0) =~= pre);
            assert(done + total.2 =~= total.2);
            assert(awarded@ + total.3 =~= total.3);
        }
        while k < entries.len()
            invariant
                k <= entries@.len(),
                entries@ == pre,
                pre == old(self).managers@,
                self.config == old(self).config,
                self.proposal_count == old(self).proposal_count,
                self.deactivated == old(self).deactivated,
                self.approvals@ == old(self).approvals@,
                self.last_spend_period == Some(new_last_spend_period),
                total_proposals(pre) <= u32::MAX,
                total == spend_all(pre, self.approvals@, pot as int, false),
                self.managers@.len() == k,
                done.len() == k,
                forall|j: int|
                    0 <= j < k ==> (#[trigger] self.managers@[j]).manager == pre[j].manager
                        && self.managers@[j].funding == pre[j].funding
                        && self.managers@[j].proposals@ == done[j],
                ({
                    let rest = spend_all(pre.skip(k as int), self.approvals@, budget as int, missed);
                    &&& total.0 == rest.0
                    &&& total.1 == rest.1
                    &&& total.2 =~= done + rest.2
                    &&& total.3 =~= awarded@ + rest.3
                }),
                processed == awarded@.len(),
                awarded@.len() + total_proposals(pre.skip(k as int)) <= total_proposals(pre),
            decreases entries@.len() - k,
        {
            let ghost tail = pre.skip(k as int);
            let ghost props = pre[k as int].proposals@;
            let ghost r = scan(props, self.approvals@, budget as int, missed, props.len());
            proof {
                assert(tail[0] == pre[k as int]);
                assert(tail.drop_first() =~= pre.skip(k + 1));
                lemma_scan(props, self.approvals@, budget as int, missed, props.len());
            }
            let ghost awarded_before = awarded@;
            let (b, m, removed) = scan_entry(&entries[k].proposals, &self.approvals, budget, missed, &mut awarded);
            proof {
                assert(removed@.map_values(|i: usize| i as int) =~= r.2);
                assert forall|t: int| 0 <= t < removed@.len() implies #[trigger] removed@[t] < props.len() by {
                    assert(removed@[t] as int == r.2[t]);
                }
                assert forall|t: int, u: int| 0 <= t < u < removed@.len() implies removed@[t] > removed@[u] by {
                    assert(removed@[t] as int == r.2[t]);
                    assert(removed@[u] as int == r.2[u]);
                }
            }
            let kept = remove_awarded(&entries[k].proposals, &removed);
            let count = removed.len();
            processed = processed + count as u32;
            let entry = ManagerEntry {
                manager: entries[k].manager,
                funding: entries[k].funding,
                proposals: kept,
            };
            self.managers.push(entry);
            proof {
                let rest = spend_all(pre.skip(k + 1), self.approvals@, b as int, m);
                assert(done.push(swap_remove_all(props, r.2)) + rest.2 =~= done + (seq![swap_remove_all(props, r.2)].add(rest.2)));
                assert(awarded_before + r.3 + rest.3 =~= awarded_before + r.3.add(rest.3));
                done = done.push(swap_remove_all(props, r.2));
            }
            budget = b;
            missed = m;
            k = k + 1;
        }
        proof {
            assert(pre.skip(k as int) =~= Seq::<ManagerEntry>::empty());
            assert(done + Seq::<Seq<Proposal>>::empty() =~= done);
            assert(awarded@ + Seq::<Proposal>::empty() =~= awarded@);
            if keys_unique(pre) {
                assert forall|a: int, b: int|
                    0 <= a < self.managers@.len() && 0 <= b < self.managers@.len() && a != b
                    implies entry_key(#[trigger] self.managers@[a]) != entry_key(#[trigger] self.managers@[b]) by {
                    assert(entry_key(self.managers@[a]) == entry_key(pre[a]));
                    assert(entry_key(self.managers@[b]) == entry_key(pre[b]));
                }
            }
        }
        // The proposals paid are awarded: their indices are no longer approved.
        let ghost approvals_before = self.approvals@;
        let kept_approvals = drop_paid_approvals(&self.approvals, &awarded);
        self.approvals = kept_approvals;
        proof {
            lemma_unpaid_approvals(approvals_before, awarded@);
            if old(self).wf() {
                assert forall|i: int| 0 <= i < self.approvals@.len() implies #[trigger] self.approvals@[i] < self.proposal_count by {
                    assert(self.approvals@.contains(self.approvals@[i]));
                    let j = choose|j: int| 0 <= j < approvals_before.len() && approvals_before[j] == self.approvals@[i];
                }
            }
        }

        let burn = self.config.burn;
        let burning = !missed && burn != 0;
        let ghost after = budget_after_burn(burn, spend_periods_passed, budget as int);
        let mut burnt: Option<Balance> = None;
        let mut rollover = budget;
        if burning {
            let one_minus_burn = permill_left_from_one(burn);
            let exp: usize = if spend_periods_passed > usize::MAX as u64 {
                usize::MAX
            } else {
                spend_periods_passed as usize
            };
            let percent_left = permill_saturating_pow(one_minus_burn, exp);
            proof {
                lemma_permill_pow_bounded(one_minus_burn, exp);
            }
            let new_budget = permill_mul_nearest(percent_left, budget);
            proof {
                lemma_mul_nearest_le(percent_left as int, budget as int);
            }
            burnt = Some(budget - new_budget);
            rollover = new_budget;
        }

        let mut events: Vec<Event> = Vec::new();
        events.push(Event::Spending { budget_remaining: pot });
        let mut i: usize = 0;
        while i < awarded.len()
            invariant
                i <= awarded@.len(),
                events@ =~= seq![Event::Spending { budget_remaining: pot }].add(
                    awarded@.take(i as int).map_values(|p: Proposal| award_event(p)),
                ),
            decreases awarded@.len() - i,
        {
            let p = awarded[i];
            events.push(Event::Awarded { proposal_index: p.index, award: p.value, account: p.beneficiary });
            proof {
                assert(awarded@.take(i + 1) =~= awarded@.take(i as int).push(p));
            }
            i = i + 1;
        }
        proof {
            assert(awarded@.take(awarded@.len() as int) =~= awarded@);
        }
        match burnt {
            Some(b) => events.push(Event::Burnt { burnt_funds: b }),
            None => {},
        }
        events.push(Event::Rollover { rollover_balance: rollover });

        let out = SpendOutcome { awarded, burnt, rollover, processed, events };
        proof {
            let r = total;
            assert(self.managers@.len() == pre.len());
            assert(burns(burn, r.1) ==> 0 <= after <= r.0);
            assert(out.awarded@ == r.3);
            assert(out.processed == r.3.len());
            assert(out.burnt == if burns(burn, r.1) { Some((r.0 - after) as Balance) } else { None::<Balance> });
            assert(out.rollover == if burns(burn, r.1) { after as Balance } else { r.0 as Balance });
            assert(out.events@ == spend_events(pot, r.3, out.burnt, out.rollover));
            let pos = law_spend_pays_in_turn(
                old(self).managers@,
                old(self).approvals@,
                old(self).config.burn,
                spend_periods_passed,
                pot,
                self.managers@,
                out,
            );
            assert(pays_in_turn(pay_order(old(self).managers@), old(self).approvals@, pot as int, out.awarded@, pos));
            assert(out.burnt is Some <==> (old(self).config.burn != 0 && !passed_over(
                pay_order(old(self).managers@),
                old(self).approvals@,
                pos,
            )));
            if keys_unique(old(self).managers@) && proposals_indexed(old(self).managers_map(), old(self).proposal_count) {
                law_spend_keeps_proposals_indexed(
                    old(self).managers@,
                    old(self).approvals@,
                    burn,
                    spend_periods_passed,
                    pot,
                    self.managers@,
                    out,
                    self.proposal_count,
                );
            }
        }
        out
    }

    /// Whether the managers hold no more proposals than a `u32` counts: what the block hook
    /// and a spend period require.
    pub fn holds_countable_proposals(&self) -> (r: bool)
        ensures
            r == (total_proposals(self.managers@) <= u32::MAX),
    {
        let mut total: u64 = 0;
        let mut k: usize = 0;
        proof {
            assert(self.managers@.skip(0) =~= self.managers@);
        }
        while k < self.managers.len()
            invariant
                k <= self.managers@.len(),
                total <= u32::MAX,
                total_proposals(self.managers@) == total + total_proposals(self.managers@.skip(k as int)),
            decreases self.managers@.len() - k,
        {
            let n = self.managers[k].proposals.len();
            proof {
                let tail = self.managers@.skip(k as int);
                assert(tail[0] == self.managers@[k as int]);
                assert(tail.drop_first() =~= self.managers@.skip(k + 1));
            }
            if n as u64 > u32::MAX as u64 - total {
                return false;
            }
            total = total + n as u64;
            k = k + 1;
        }
        true
    }

    /// Records the last spend period before `block_number` and returns it.
    pub fn update_last_spend_period(&mut self, block_number: BlockNumber) -> (r: BlockNumber)
        ensures
            r == last_spend_period_at(block_number, old(self).config.spend_period),
            final(self).last_spend_period == Some(r),
            final(self).config == old(self).config,
            final(self).proposal_count == old(self).proposal_count,
            final(self).deactivated == old(self).deactivated,
            final(self).approvals@ == old(self).approvals@,
            final(self).managers@ == old(self).managers@,
    {
        let last_spend_period = last_spend_period_before(block_number, self.config.spend_period);
        self.last_spend_period = Some(last_spend_period);
        last_spend_period
    }

    /// The number of spend periods that the block hook finds passed at `block_number`.
    pub fn spend_periods_due(&self, block_number: BlockNumber) -> (r: BlockNumber)
        ensures
            r == periods_passed(
                hook_last(self.last_spend_period, block_number, self.config.spend_period),
                block_number,
                self.config.spend_period,
            ),
    {
        let last = match self.last_spend_period {
            Some(l) => l,
            None => last_spend_period_before(block_number, self.config.spend_period),
        };
        periods_since(last, block_number, self.config.spend_period).0
    }

    /// The hook run at the start of each block. It reports the pot as inactive when it
    /// changed, and runs a spend period when at least one has passed since the last one,
    /// with the pot as budget. `free_balance` and `minimum_balance` are those of the pallet's
    /// account in the currency.
    pub fn on_initialize(
        &mut self,
        block_number: BlockNumber,
        free_balance: Balance,
        minimum_balance: Balance,
    ) -> (out: InitializeOutcome)
        requires
            config_valid(old(self).config),
            periods_passed(
                hook_last(old(self).last_spend_period, block_number, old(self).config.spend_period),
                block_number,
                old(self).config.spend_period,
            ) > 0 ==> total_proposals(old(self).managers@) <= u32::MAX,
        ensures
            keys_unique(old(self).managers@) ==> keys_unique(final(self).managers@),
            old(self).wf() ==> final(self).wf(),
            keys_unique(old(self).managers@) && proposals_indexed(old(self).managers_map(), old(self).proposal_count)
                ==> proposals_indexed(final(self).managers_map(), final(self).proposal_count),
            ({
                let pot = pot_of(free_balance, minimum_balance);
                let sp = old(self).config.spend_period;
                let last = hook_last(old(self).last_spend_period, block_number, sp);
                let passed = periods_passed(last, block_number, sp);
                let inactive_events = if pot != old(self).deactivated {
                    seq![Event::UpdatedInactive { reactivated: old(self).deactivated, deactivated: pot }]
                } else {
                    Seq::empty()
                };
                &&& final(self).config == old(self).config
                &&& final(self).proposal_count == old(self).proposal_count
                &&& final(self).deactivated == pot
                &&& final(self).last_spend_period == Some(hook_step(last, block_number, sp))
                &&& out.inactive == if pot != old(self).deactivated {
                    Some(InactiveUpdate { reactivate: old(self).deactivated, deactivate: pot })
                } else {
                    None::<InactiveUpdate>
                }
                &&& if passed > 0 {
                    &&& out.spend is Some
                    &&& spend_effect(
                        old(self).managers@,
                        old(self).approvals@,
                        old(self).config.burn,
                        passed,
                        pot,
                        final(self).managers@,
                        out.spend->0,
                    )
                    &&& final(self).approvals@ == unpaid_approvals(old(self).approvals@, out.spend->0.awarded@)
                    &&& out.events@ == inactive_events + out.spend->0.events@
                } else {
                    &&& out.spend is None
                    &&& final(self).managers@ == old(self).managers@
                    &&& final(self).approvals@ == old(self).approvals@
                    &&& out.events@ == inactive_events
                }
            }),
    {
        let pot = Pallet::pot(free_balance, minimum_balance);
        let deactivated = self.deactivated;
        let mut events: Vec<Event> = Vec::new();
        let mut inactive: Option<InactiveUpdate> = None;
        if pot != deactivated {
            self.deactivated = pot;
            events.push(Event::UpdatedInactive { reactivated: deactivated, deactivated: pot });
            inactive = Some(InactiveUpdate { reactivate: deactivated, deactivate: pot });
        }
        let last_spend_period = match self.last_spend_period {
            Some(l) => l,
            None => self.update_last_spend_period(block_number),
        };
        let (spend_periods_passed, new_last_spend_period) = periods_since(
            last_spend_period,
            block_number,
            self.config.spend_period,
        );
        let mut spend: Option<SpendOutcome> = None;
        if spend_periods_passed > 0 {
            let outcome = self.spend_funds(spend_periods_passed, new_last_spend_period, pot);
            let ghost before = events@;
            let mut i: usize = 0;
            while i < outcome.events.len()
                invariant
                    i <= outcome.events@.len(),
                    events@ =~= before + outcome.events@.take(i as int),
                decreases outcome.events@.len() - i,
            {
                events.push(outcome.events[i]);
                proof {
                    assert(outcome.events@.take(i + 1) =~= outcome.events@.take(i as int).push(outcome.events@[i as int]));
                }
                i = i + 1;
            }
            proof {
                assert(outcome.events@.take(outcome.events@.len() as int) =~= outcome.events@);
            }
            spend = Some(outcome);
        }
        InitializeOutcome { inactive, spend, events }
    }

}

} // verus!
