//! What holds of the pallet across its calls and over all inputs.
use vstd::multiset::Multiset;
use vstd::prelude::*;

use crate::permill::{lemma_mul_nearest_le, mul_floor_spec};
use crate::pallet::{context_spent, context_step, milestone_proposal, proposals_indexed};
use crate::spend::{
    burns, hook_step, last_spend_period_at, lemma_scan, lemma_spend_all, lemma_unpaid_approvals,
    paid_index, periods_passed, safe_period, sat_sub, scan, spend_all, spend_effect,
    swap_remove_all, swap_remove_at, total_proposals, total_value, unpaid_approvals, SpendOutcome,
};
use vstd::arithmetic::div_mod::{lemma_fundamental_div_mod, lemma_fundamental_div_mod_converse};
use crate::managers::{entry_key, keys_unique, lemma_view_at, managers_view};
use crate::types::{AccountId, Balance, BlockNumber, Funding, ManagerEntry, Proposal, ProposalIndex};

verus! {

/// The proposals of all entries, entry after entry.
pub open spec fn all_proposals(entries: Seq<ManagerEntry>) -> Seq<Proposal>
    decreases entries.len(),
{
    if entries.len() == 0 {
        Seq::empty()
    } else {
        entries[0].proposals@ + all_proposals(entries.drop_first())
    }
}

/// The amount burnt, zero where nothing was.
pub open spec fn burnt_amount(out: SpendOutcome) -> int {
    match out.burnt {
        Some(b) => b as int,
        None => 0,
    }
}

/// A spend period accounts for the whole pot: what it paid, what it burnt and what rolls
/// over add up to the pot. Every proposal it paid is approved, and it paid no more proposals
/// than the managers held.
pub proof fn law_spend_accounts_for_pot(
    pre: Seq<ManagerEntry>,
    approvals: Seq<ProposalIndex>,
    burn: u32,
    passed: BlockNumber,
    pot: Balance,
    post: Seq<ManagerEntry>,
    out: SpendOutcome,
)
    requires
        spend_effect(pre, approvals, burn, passed, pot, post, out),
    ensures
        pot == total_value(out.awarded@) + burnt_amount(out) + out.rollover,
        forall|t: int| 0 <= t < out.awarded@.len() ==> approvals.contains(#[trigger] out.awarded@[t].index),
        out.processed <= total_proposals(pre),
{
    lemma_spend_all(pre, approvals, pot as int, false);
}

/// Removing at one position takes exactly the element there out of the multiset.
proof fn lemma_swap_remove_at_multiset(s: Seq<Proposal>, i: int)
    requires
        0 <= i < s.len(),
    ensures
        swap_remove_at(s, i).to_multiset() =~= s.to_multiset().remove(s[i]),
        swap_remove_at(s, i).len() == s.len() - 1,
{
    broadcast use vstd::seq_lib::group_to_multiset_ensures;

    let t = s.drop_last();
    let v = s.last();
    assert(s =~= t.push(v));
    assert(s.to_multiset() =~= t.to_multiset().insert(v));
    if i == s.len() - 1 {
        assert(swap_remove_at(s, i) =~= t);
    } else {
        let u = t.update(i, v);
        assert(swap_remove_at(s, i) =~= u);
        assert(u.remove(i) =~= t.remove(i));
        assert(u.remove(i).to_multiset() =~= u.to_multiset().remove(u[i]));
        assert(t.remove(i).to_multiset() =~= t.to_multiset().remove(t[i]));
        assert(u.to_multiset().count(v) > 0);
        assert(t.to_multiset().count(s[i]) > 0);
        assert(u.to_multiset() =~= t.to_multiset().remove(s[i]).insert(v));
    }
}

/// `x` is at a position of `s` that is not one of `idxs`.
pub open spec fn kept_from(s: Seq<Proposal>, idxs: Seq<int>, x: Proposal) -> bool {
    exists|j: int| 0 <= j < s.len() && !idxs.contains(j) && s[j] == x
}

/// `swap_remove` at positions that descend, each within the list: what is left comes from
/// the positions not removed, and together with the removed elements it is the whole list.
proof fn lemma_swap_remove_all(s: Seq<Proposal>, idxs: Seq<int>)
    requires
        forall|t: int| 0 <= t < idxs.len() ==> 0 <= #[trigger] idxs[t] < s.len(),
        forall|t: int, u: int| 0 <= t < u < idxs.len() ==> idxs[t] > idxs[u],
    ensures
        swap_remove_all(s, idxs).len() == s.len() - idxs.len(),
        forall|y: int|
            0 <= y < swap_remove_all(s, idxs).len() ==> kept_from(s, idxs, #[trigger] swap_remove_all(s, idxs)[y]),
        swap_remove_all(s, idxs).to_multiset().add(idxs.map_values(|i: int| s[i]).to_multiset())
            =~= s.to_multiset(),
    decreases idxs.len(),
{
    broadcast use vstd::seq_lib::group_to_multiset_ensures;

    if idxs.len() == 0 {
        assert(idxs.map_values(|i: int| s[i]) =~= Seq::<Proposal>::empty());
        assert(Seq::<Proposal>::empty().to_multiset() =~= Multiset::empty());
        assert(s.to_multiset().add(Multiset::empty()) =~= s.to_multiset());
        assert forall|y: int| 0 <= y < swap_remove_all(s, idxs).len() implies kept_from(s, idxs, #[trigger] swap_remove_all(s, idxs)[y]) by {
            assert(!idxs.contains(y));
            assert(swap_remove_all(s, idxs)[y] == s[y]);
        }
    } else {
        let i0 = idxs[0];
        let s2 = swap_remove_at(s, i0);
        let rest = idxs.drop_first();
        lemma_swap_remove_at_multiset(s, i0);
        assert forall|t: int| 0 <= t < rest.len() implies 0 <= #[trigger] rest[t] < s2.len() by {
            assert(rest[t] == idxs[t + 1]);
        }
        assert forall|t: int, u: int| 0 <= t < u < rest.len() implies rest[t] > rest[u] by {
            assert(rest[t] == idxs[t + 1] && rest[u] == idxs[u + 1]);
        }
        lemma_swap_remove_all(s2, rest);
        let res = swap_remove_all(s, idxs);
        assert(res == swap_remove_all(s2, rest));
        assert forall|y: int| 0 <= y < swap_remove_all(s, idxs).len() implies kept_from(s, idxs, #[trigger] swap_remove_all(s, idxs)[y]) by {
            assert(kept_from(s2, rest, swap_remove_all(s2, rest)[y]));
            let j2 = choose|j: int| 0 <= j < s2.len() && !rest.contains(j) && s2[j] == swap_remove_all(s2, rest)[y];
            assert(res[y] == s2[j2]);
            let j = if j2 == i0 { s.len() - 1 } else { j2 };
            assert(s2[j2] == s[j]);
            assert(!idxs.contains(j)) by {
                if idxs.contains(j) {
                    let t = choose|t: int| 0 <= t < idxs.len() && idxs[t] == j;
                    if j2 == i0 {
                        if t > 0 {
                            assert(idxs[0] > idxs[t]);
                        }
                    } else {
                        assert(t != 0);
                        assert(rest[t - 1] == j2);
                    }
                }
            }
            assert(0 <= j < s.len() && !idxs.contains(j) && res[y] == s[j]);
        }
        let m_all = idxs.map_values(|i: int| s[i]);
        let m_rest = rest.map_values(|i: int| s2[i]);
        assert(m_rest =~= m_all.drop_first()) by {
            assert forall|t: int| 0 <= t < m_rest.len() implies m_rest[t] == m_all.drop_first()[t] by {
                assert(rest[t] == idxs[t + 1]);
                assert(idxs[t + 1] < idxs[0]);
            }
        }
        assert(m_all =~= seq![s[i0]] + m_all.drop_first());
        vstd::seq_lib::lemma_multiset_commutative(seq![s[i0]], m_all.drop_first());
        assert(seq![s[i0]].to_multiset() =~= Multiset::empty().insert(s[i0])) by {
            assert(seq![s[i0]] =~= Seq::<Proposal>::empty().push(s[i0]));
        }
        assert(s.to_multiset().count(s[i0]) > 0);
        assert(m_all.to_multiset() =~= m_rest.to_multiset().insert(s[i0]));
        assert(s2.to_multiset() =~= s.to_multiset().remove(s[i0]));
        assert(res.to_multiset().add(m_rest.to_multiset()) =~= s2.to_multiset());
        assert forall|v: Proposal| #[trigger] res.to_multiset().add(m_all.to_multiset()).count(v)
            == s.to_multiset().count(v) by {
            assert(res.to_multiset().add(m_all.to_multiset()).count(v) == res.to_multiset().count(v) + m_all.to_multiset().count(v));
            assert(m_all.to_multiset().count(v) == m_rest.to_multiset().count(v) + if v == s[i0] { 1int } else { 0int });
            assert(res.to_multiset().count(v) + m_rest.to_multiset().count(v) == s2.to_multiset().count(v));
            assert(s2.to_multiset().count(v) == s.to_multiset().count(v) - if v == s[i0] { 1int } else { 0int });
        }
        assert(res.to_multiset().add(m_all.to_multiset()) =~= s.to_multiset());
    }
}

/// The facts about one scan that a run without a miss gives: every approved proposal among
/// the positions scanned was paid.
proof fn lemma_scan_pays_all_approved(
    props: Seq<Proposal>,
    approvals: Seq<ProposalIndex>,
    budget: int,
    missed: bool,
    n: nat,
)
    requires
        n <= props.len(),
    ensures
        ({
            let r = scan(props, approvals, budget, missed, n);
            !r.1 ==> forall|j: int|
                0 <= j < n && approvals.contains(#[trigger] props[j].index) ==> r.2.contains(j)
        }),
        missed ==> scan(props, approvals, budget, missed, n).1,
    decreases n,
{
    if n > 0 {
        let i = n - 1;
        let p = props[i];
        if approvals.contains(p.index) {
            if p.value <= budget {
                lemma_scan_pays_all_approved(props, approvals, budget - p.value, missed, (n - 1) as nat);
                let r = scan(props, approvals, budget - p.value, missed, (n - 1) as nat);
                let rem = seq![i].add(r.2);
                assert(rem[0] == i);
                assert forall|j: int| 0 <= j < n && approvals.contains(#[trigger] props[j].index) && !r.1 implies rem.contains(j) by {
                    if j < i {
                        let t = choose|t: int| 0 <= t < r.2.len() && r.2[t] == j;
                        assert(rem[t + 1] == j);
                    }
                }
            } else {
                lemma_scan_pays_all_approved(props, approvals, budget, true, (n - 1) as nat);
            }
        } else {
            lemma_scan_pays_all_approved(props, approvals, budget, missed, (n - 1) as nat);
        }
    }
}

/// Each entry's remaining proposals and the proposals paid together are the proposals held
/// before; and where nothing was missed, no remaining proposal is approved.
proof fn lemma_spend_all_keeps(
    entries: Seq<ManagerEntry>,
    approvals: Seq<ProposalIndex>,
    budget: int,
    missed: bool,
)
    requires
        0 <= budget,
    ensures
        ({
            let r = spend_all(entries, approvals, budget, missed);
            &&& r.2.len() == entries.len()
            &&& flatten(r.2).to_multiset().add(r.3.to_multiset()) =~= all_proposals(entries).to_multiset()
            &&& !r.1 ==> forall|k: int, y: int|
                0 <= k < r.2.len() && 0 <= y < r.2[k].len() ==> !approvals.contains(
                    #[trigger] r.2[k][y].index,
                )
        }),
    decreases entries.len(),
{
    broadcast use vstd::seq_lib::group_to_multiset_ensures;

    let r = spend_all(entries, approvals, budget, missed);
    if entries.len() == 0 {
        assert(flatten(r.2) =~= Seq::<Proposal>::empty());
        assert(r.3 =~= Seq::<Proposal>::empty());
    } else {
        let props = entries[0].proposals@;
        let sc = scan(props, approvals, budget, missed, props.len());
        lemma_scan(props, approvals, budget, missed, props.len());
        lemma_scan_pays_all_approved(props, approvals, budget, missed, props.len());
        let kept = swap_remove_all(props, sc.2);
        lemma_swap_remove_all(props, sc.2);
        assert(sc.2.map_values(|i: int| props[i]) =~= sc.3);
        lemma_spend_all(entries.drop_first(), approvals, sc.0, sc.1);
        lemma_spend_all_keeps(entries.drop_first(), approvals, sc.0, sc.1);
        let rest = spend_all(entries.drop_first(), approvals, sc.0, sc.1);
        assert(r.2 == seq![kept].add(rest.2));
        assert(r.2.drop_first() =~= rest.2);
        assert(flatten(r.2) == kept + flatten(rest.2));
        vstd::seq_lib::lemma_multiset_commutative(kept, flatten(rest.2));
        vstd::seq_lib::lemma_multiset_commutative(sc.3, rest.3);
        vstd::seq_lib::lemma_multiset_commutative(props, all_proposals(entries.drop_first()));
        assert forall|k: int, y: int|
            0 <= k < r.2.len() && 0 <= y < r.2[k].len() && !r.1 implies !approvals.contains(
            #[trigger] r.2[k][y].index) by {
            if k == 0 {
                assert(r.2[0] == kept);
                assert(!sc.1);
                assert(kept_from(props, sc.2, kept[y]));
                let j = choose|j: int| 0 <= j < props.len() && !sc.2.contains(j) && props[j] == kept[y];
                assert(kept[y] == props[j]);
            } else {
                assert(r.2[k] == rest.2[k - 1]);
            }
        }
    }
}

/// The proposals of a list of lists, list after list.
pub open spec fn flatten(ss: Seq<Seq<Proposal>>) -> Seq<Proposal>
    decreases ss.len(),
{
    if ss.len() == 0 {
        Seq::empty()
    } else {
        ss[0] + flatten(ss.drop_first())
    }
}

/// Entries that hold the lists `ss`, one each, hold their concatenation.
proof fn lemma_all_proposals_flatten(entries: Seq<ManagerEntry>, ss: Seq<Seq<Proposal>>)
    requires
        entries.len() == ss.len(),
        forall|k: int| 0 <= k < ss.len() ==> (#[trigger] entries[k]).proposals@ == ss[k],
    ensures
        all_proposals(entries) == flatten(ss),
    decreases ss.len(),
{
    if ss.len() > 0 {
        assert forall|k: int| 0 <= k < ss.drop_first().len() implies (#[trigger] entries.drop_first()[k]).proposals@ == ss.drop_first()[k] by {
            assert(entries.drop_first()[k] == entries[k + 1]);
        }
        lemma_all_proposals_flatten(entries.drop_first(), ss.drop_first());
    }
}

/// A spend period loses and duplicates no proposal: what the managers hold after it, with
/// what it paid, is what they held before.
pub proof fn law_spend_keeps_every_proposal(
    pre: Seq<ManagerEntry>,
    approvals: Seq<ProposalIndex>,
    burn: u32,
    passed: BlockNumber,
    pot: Balance,
    post: Seq<ManagerEntry>,
    out: SpendOutcome,
)
    requires
        spend_effect(pre, approvals, burn, passed, pot, post, out),
    ensures
        all_proposals(post).to_multiset().add(out.awarded@.to_multiset()) =~= all_proposals(
            pre,
        ).to_multiset(),
{
    let r = spend_all(pre, approvals, pot as int, false);
    lemma_spend_all_keeps(pre, approvals, pot as int, false);
    lemma_all_proposals_flatten(post, r.2);
}

/// No two proposals of the list have the same index.
pub open spec fn indices_distinct(s: Seq<Proposal>) -> bool {
    forall|i1: int, i2: int|
        0 <= i1 < s.len() && 0 <= i2 < s.len() && i1 != i2 ==> (#[trigger] s[i1]).index != (#[trigger] s[i2]).index
}

/// `swap_remove` at positions that descend, each within the list, keeps the indices of the
/// list distinct.
proof fn lemma_swap_remove_all_distinct(s: Seq<Proposal>, idxs: Seq<int>)
    requires
        forall|t: int| 0 <= t < idxs.len() ==> 0 <= #[trigger] idxs[t] < s.len(),
        forall|t: int, u: int| 0 <= t < u < idxs.len() ==> idxs[t] > idxs[u],
        indices_distinct(s),
    ensures
        indices_distinct(swap_remove_all(s, idxs)),
    decreases idxs.len(),
{
    if idxs.len() > 0 {
        let i0 = idxs[0];
        let s2 = swap_remove_at(s, i0);
        let rest = idxs.drop_first();
        let last = s.len() - 1;
        assert forall|p1: int, p2: int|
            0 <= p1 < s2.len() && 0 <= p2 < s2.len() && p1 != p2 implies (#[trigger] s2[p1]).index != (
            #[trigger] s2[p2]).index by {
            let q1 = if p1 == i0 { last } else { p1 };
            let q2 = if p2 == i0 { last } else { p2 };
            assert(s2[p1] == s[q1]);
            assert(s2[p2] == s[q2]);
        }
        assert forall|t: int| 0 <= t < rest.len() implies 0 <= #[trigger] rest[t] < s2.len() by {
            assert(rest[t] == idxs[t + 1]);
        }
        assert forall|t: int, u: int| 0 <= t < u < rest.len() implies rest[t] > rest[u] by {
            assert(rest[t] == idxs[t + 1] && rest[u] == idxs[u + 1]);
        }
        lemma_swap_remove_all_distinct(s2, rest);
    }
}

/// What a run of scans leaves of each entry comes from that entry, and keeps its indices
/// distinct where they were.
proof fn lemma_spend_all_remains(
    entries: Seq<ManagerEntry>,
    approvals: Seq<ProposalIndex>,
    budget: int,
    missed: bool,
)
    requires
        0 <= budget,
    ensures
        ({
            let r = spend_all(entries, approvals, budget, missed);
            &&& r.2.len() == entries.len()
            &&& forall|k: int, y: int|
                0 <= k < entries.len() && 0 <= y < r.2[k].len() ==> exists|j: int|
                    0 <= j < entries[k].proposals@.len() && #[trigger] r.2[k][y] == entries[k].proposals@[j]
            &&& forall|k: int|
                0 <= k < entries.len() && indices_distinct(entries[k].proposals@) ==> indices_distinct(
                    #[trigger] r.2[k],
                )
        }),
    decreases entries.len(),
{
    let r = spend_all(entries, approvals, budget, missed);
    if entries.len() > 0 {
        let props = entries[0].proposals@;
        let sc = scan(props, approvals, budget, missed, props.len());
        lemma_scan(props, approvals, budget, missed, props.len());
        let kept = swap_remove_all(props, sc.2);
        lemma_swap_remove_all(props, sc.2);
        if indices_distinct(props) {
            lemma_swap_remove_all_distinct(props, sc.2);
        }
        lemma_spend_all(entries.drop_first(), approvals, sc.0, sc.1);
        lemma_spend_all_remains(entries.drop_first(), approvals, sc.0, sc.1);
        let rest = spend_all(entries.drop_first(), approvals, sc.0, sc.1);
        assert(r.2 == seq![kept].add(rest.2));
        assert forall|k: int, y: int| 0 <= k < entries.len() && 0 <= y < r.2[k].len() implies exists|j: int|
            0 <= j < entries[k].proposals@.len() && #[trigger] r.2[k][y] == entries[k].proposals@[j] by {
            if k == 0 {
                assert(r.2[0] == kept);
                assert(kept_from(props, sc.2, kept[y]));
            } else {
                assert(r.2[k] == rest.2[k - 1]);
                assert(entries[k] == entries.drop_first()[k - 1]);
            }
        }
        assert forall|k: int|
            0 <= k < entries.len() && indices_distinct(entries[k].proposals@) implies indices_distinct(
            #[trigger] r.2[k]) by {
            if k == 0 {
                assert(r.2[0] == kept);
            } else {
                assert(r.2[k] == rest.2[k - 1]);
                assert(entries[k] == entries.drop_first()[k - 1]);
            }
        }
    }
}

/// A spend period keeps the proposals indexed: it only takes proposals out, so every
/// proposal the managers still hold sits under its beneficiary's milestone key, with an index
/// below the proposal count that no other stored proposal has.
pub proof fn law_spend_keeps_proposals_indexed(
    pre: Seq<ManagerEntry>,
    approvals: Seq<ProposalIndex>,
    burn: u32,
    passed: BlockNumber,
    pot: Balance,
    post: Seq<ManagerEntry>,
    out: SpendOutcome,
    count: ProposalIndex,
)
    requires
        keys_unique(pre),
        proposals_indexed(managers_view(pre), count),
        spend_effect(pre, approvals, burn, passed, pot, post, out),
    ensures
        keys_unique(post),
        proposals_indexed(managers_view(post), count),
{
    let r = spend_all(pre, approvals, pot as int, false);
    lemma_spend_all(pre, approvals, pot as int, false);
    lemma_spend_all_remains(pre, approvals, pot as int, false);
    let m = managers_view(pre);
    let n = managers_view(post);
    assert forall|a: int, b: int| 0 <= a < post.len() && 0 <= b < post.len() && a != b implies entry_key(
        #[trigger] post[a]) != entry_key(#[trigger] post[b]) by {
        assert(entry_key(post[a]) == entry_key(pre[a]));
        assert(entry_key(post[b]) == entry_key(pre[b]));
    }
    // Where a key of the remaining managers sits, and where each remaining proposal came from.
    assert forall|k: (AccountId, Funding)| #[trigger] n.contains_key(k) implies exists|a: int|
        0 <= a < post.len() && entry_key(post[a]) == k && n[k] == r.2[a] && m.contains_key(k) && m[k]
            == pre[a].proposals@ by {
        let a = choose|a: int| 0 <= a < post.len() && entry_key(#[trigger] post[a]) == k;
        lemma_view_at(post, a);
        lemma_view_at(pre, a);
        assert(entry_key(pre[a]) == k);
    }
    assert forall|k: (AccountId, Funding), i: int| n.contains_key(k) && 0 <= i < n[k].len() implies (
    #[trigger] n[k][i]).index < count && k == (n[k][i].beneficiary, Funding::Milestone) by {
        let a = choose|a: int|
            0 <= a < post.len() && entry_key(post[a]) == k && n[k] == r.2[a] && m.contains_key(k) && m[k]
                == pre[a].proposals@;
        let j = choose|j: int| 0 <= j < pre[a].proposals@.len() && #[trigger] r.2[a][i] == pre[a].proposals@[j];
        assert(n[k][i] == m[k][j]);
    }
    assert forall|k1: (AccountId, Funding), i1: int, k2: (AccountId, Funding), i2: int|
        n.contains_key(k1) && n.contains_key(k2) && 0 <= i1 < n[k1].len() && 0 <= i2 < n[k2].len() && (k1
            != k2 || i1 != i2) implies (#[trigger] n[k1][i1]).index != (#[trigger] n[k2][i2]).index by {
        let a1 = choose|a: int|
            0 <= a < post.len() && entry_key(post[a]) == k1 && n[k1] == r.2[a] && m.contains_key(k1) && m[k1]
                == pre[a].proposals@;
        let a2 = choose|a: int|
            0 <= a < post.len() && entry_key(post[a]) == k2 && n[k2] == r.2[a] && m.contains_key(k2) && m[k2]
                == pre[a].proposals@;
        if k1 == k2 {
            assert(a1 == a2);
            assert(indices_distinct(pre[a1].proposals@)) by {
                assert forall|x1: int, x2: int|
                    0 <= x1 < m[k1].len() && 0 <= x2 < m[k1].len() && x1 != x2 implies (#[trigger] m[k1][x1]).index
                        != (#[trigger] m[k1][x2]).index by {}
            }
            assert(indices_distinct(r.2[a1]));
            assert(n[k1][i1] == r.2[a1][i1] && n[k2][i2] == r.2[a1][i2]);
        } else {
            let j1 = choose|j: int| 0 <= j < pre[a1].proposals@.len() && #[trigger] r.2[a1][i1] == pre[a1].proposals@[j];
            let j2 = choose|j: int| 0 <= j < pre[a2].proposals@.len() && #[trigger] r.2[a2][i2] == pre[a2].proposals@[j];
            assert(n[k1][i1] == m[k1][j1]);
            assert(n[k2][i2] == m[k2][j2]);
        }
    }
}

/// The proposals of a list, from the one before position `n` down to the first.
pub open spec fn last_to_first(props: Seq<Proposal>, n: nat) -> Seq<Proposal> {
    Seq::new(n, |k: int| props[n - 1 - k])
}

/// The order in which a spend period comes to the managers' proposals: managers in storage
/// order, and each manager's proposals from last to first.
pub open spec fn pay_order(entries: Seq<ManagerEntry>) -> Seq<Proposal>
    decreases entries.len(),
{
    if entries.len() == 0 {
        Seq::empty()
    } else {
        last_to_first(entries[0].proposals@, entries[0].proposals@.len()) + pay_order(entries.drop_first())
    }
}

/// `paid`, at the positions `pos` of `order`, is what a pass over `order` from `budget` pays
/// in turn: positions in order; each paid proposal approved and at most the budget left
/// when its turn comes; and every approved proposal passed over between two payments worth
/// more than the budget left at its turn.
pub open spec fn pays_in_turn(
    order: Seq<Proposal>,
    approvals: Seq<ProposalIndex>,
    budget: int,
    paid: Seq<Proposal>,
    pos: Seq<int>,
) -> bool {
    &&& pos.len() == paid.len()
    &&& forall|t: int| 0 <= t < pos.len() ==> 0 <= #[trigger] pos[t] < order.len() && order[pos[t]] == paid[t]
    &&& forall|t: int, u: int| 0 <= t < u < pos.len() ==> pos[t] < pos[u]
    &&& forall|t: int|
        0 <= t < paid.len() ==> approvals.contains((#[trigger] paid[t]).index) && paid[t].value <= budget
            - total_value(paid.take(t))
    &&& forall|t: int, q: int|
        #![trigger order[q], paid.take(t)]
        0 <= t <= paid.len() && 0 <= q < order.len() && (t == 0 || pos[t - 1] < q) && (t == paid.len() || q
            < pos[t]) && approvals.contains(order[q].index) ==> order[q].value > budget - total_value(
            paid.take(t),
        )
}

/// The positions, in `last_to_first(props, n)`, of what a scan pays.
pub open spec fn scan_positions(
    props: Seq<Proposal>,
    approvals: Seq<ProposalIndex>,
    budget: int,
    missed: bool,
    n: nat,
) -> Seq<int> {
    scan(props, approvals, budget, missed, n).2.map_values(|i: int| n - 1 - i)
}

/// The positions, in `pay_order(entries)`, of what a run of scans pays.
pub open spec fn spend_positions(
    entries: Seq<ManagerEntry>,
    approvals: Seq<ProposalIndex>,
    budget: int,
    missed: bool,
) -> Seq<int>
    decreases entries.len(),
{
    if entries.len() == 0 {
        Seq::empty()
    } else {
        let props = entries[0].proposals@;
        let r = scan(props, approvals, budget, missed, props.len());
        let offset = props.len() as int;
        scan_positions(props, approvals, budget, missed, props.len()) + spend_positions(
            entries.drop_first(),
            approvals,
            r.0,
            r.1,
        ).map_values(|q: int| q + offset)
    }
}

/// The value of what follows a first proposal, up to `t` proposals in all.
proof fn lemma_total_value_take_cons(p: Proposal, s: Seq<Proposal>, t: int)
    requires
        1 <= t <= s.len() + 1,
    ensures
        total_value((seq![p] + s).take(t)) == p.value + total_value(s.take(t - 1)),
{
    assert((seq![p] + s).take(t).drop_first() =~= s.take(t - 1));
}

/// The first `a.len() + t` proposals of `a + b` are worth `a` and the first `t` of `b`.
proof fn lemma_total_value_take_add(a: Seq<Proposal>, b: Seq<Proposal>, t: int)
    requires
        0 <= t <= b.len(),
    ensures
        total_value((a + b).take(a.len() + t)) == total_value(a) + total_value(b.take(t)),
{
    assert((a + b).take(a.len() + t) =~= a + b.take(t));
    crate::spend::lemma_total_value_add(a, b.take(t));
}

/// One scan pays in turn over the proposals before `n`, from last to first.
proof fn lemma_scan_pays_in_turn(
    props: Seq<Proposal>,
    approvals: Seq<ProposalIndex>,
    budget: int,
    missed: bool,
    n: nat,
)
    requires
        0 <= budget,
        n <= props.len(),
    ensures
        pays_in_turn(
            last_to_first(props, n),
            approvals,
            budget,
            scan(props, approvals, budget, missed, n).3,
            scan_positions(props, approvals, budget, missed, n),
        ),
    decreases n,
{
    let r = scan(props, approvals, budget, missed, n);
    let o = last_to_first(props, n);
    let pos = scan_positions(props, approvals, budget, missed, n);
    lemma_scan(props, approvals, budget, missed, n);
    if n == 0 {
        assert(r.3 =~= Seq::<Proposal>::empty());
        assert(pos =~= Seq::<int>::empty());
    } else {
        let i = n - 1;
        let p = props[i];
        let m = (n - 1) as nat;
        let o1 = last_to_first(props, m);
        assert forall|k: int| 0 <= k < o1.len() implies #[trigger] o1[k] == o[k + 1] by {}
        assert(o[0] == p);
        if approvals.contains(p.index) && p.value <= budget {
            let b1 = budget - p.value;
            let r1 = scan(props, approvals, b1, missed, m);
            let pos1 = scan_positions(props, approvals, b1, missed, m);
            lemma_scan_pays_in_turn(props, approvals, b1, missed, m);
            assert(r.3 == seq![p] + r1.3);
            assert(r.2 == seq![i as int] + r1.2);
            assert(pos[0] == 0);
            assert forall|t: int| 1 <= t < pos.len() implies #[trigger] pos[t] == pos1[t - 1] + 1 by {
                assert(r.2[t] == r1.2[t - 1]);
            }
            assert(r.3.take(0) =~= Seq::<Proposal>::empty());
            assert forall|t: int| 0 <= t < pos.len() implies 0 <= #[trigger] pos[t] < o.len() && o[pos[t]]
                == r.3[t] by {
                if t > 0 {
                    assert(pos[t] == pos1[t - 1] + 1);
                    assert(r.3[t] == r1.3[t - 1]);
                }
            }
            assert forall|t: int, u: int| 0 <= t < u < pos.len() implies pos[t] < pos[u] by {
                assert(pos[u] == pos1[u - 1] + 1);
                if t > 0 {
                    assert(pos[t] == pos1[t - 1] + 1);
                }
            }
            assert forall|t: int| 0 <= t < r.3.len() implies approvals.contains((#[trigger] r.3[t]).index)
                && r.3[t].value <= budget - total_value(r.3.take(t)) by {
                if t > 0 {
                    assert(r.3[t] == r1.3[t - 1]);
                    lemma_total_value_take_cons(p, r1.3, t);
                }
            }
            assert forall|t: int, q: int|
                #![trigger o[q], r.3.take(t)]
                0 <= t <= r.3.len() && 0 <= q < o.len() && (t == 0 || pos[t - 1] < q) && (t == r.3.len() || q
                    < pos[t]) && approvals.contains(o[q].index) implies o[q].value > budget - total_value(
                r.3.take(t),
            ) by {
                if t == 0 {
                    assert(pos[0] == 0);
                } else {
                    lemma_total_value_take_cons(p, r1.3, t);
                    assert(o1[q - 1] == o[q]);
                    if t > 1 {
                        assert(pos[t - 1] == pos1[t - 2] + 1);
                    }
                    if t < r.3.len() {
                        assert(pos[t] == pos1[t - 1] + 1);
                    }
                    assert(o1[q - 1].value > b1 - total_value(r1.3.take(t - 1)));
                }
            }
        } else {
            let m1 = if approvals.contains(p.index) { true } else { missed };
            let r1 = scan(props, approvals, budget, m1, m);
            let pos1 = scan_positions(props, approvals, budget, m1, m);
            lemma_scan_pays_in_turn(props, approvals, budget, m1, m);
            assert(r == r1);
            assert forall|t: int| 0 <= t < pos.len() implies #[trigger] pos[t] == pos1[t] + 1 by {}
            assert forall|t: int| 0 <= t < pos.len() implies 0 <= #[trigger] pos[t] < o.len() && o[pos[t]]
                == r.3[t] by {
                assert(pos[t] == pos1[t] + 1);
            }
            assert forall|t: int, u: int| 0 <= t < u < pos.len() implies pos[t] < pos[u] by {
                assert(pos[t] == pos1[t] + 1);
                assert(pos[u] == pos1[u] + 1);
            }
            assert forall|t: int, q: int|
                #![trigger o[q], r.3.take(t)]
                0 <= t <= r.3.len() && 0 <= q < o.len() && (t == 0 || pos[t - 1] < q) && (t == r.3.len() || q
                    < pos[t]) && approvals.contains(o[q].index) implies o[q].value > budget - total_value(
                r.3.take(t),
            ) by {
                if t == 0 {
                    assert(r.3.take(0) =~= Seq::<Proposal>::empty());
                }
                if q > 0 {
                    assert(o1[q - 1] == o[q]);
                    if t > 0 {
                        assert(pos[t - 1] == pos1[t - 1] + 1);
                    }
                    if t < r.3.len() {
                        assert(pos[t] == pos1[t] + 1);
                    }
                    assert(o1[q - 1].value > budget - total_value(r1.3.take(t)));
                }
            }
        }
    }
}

/// Paying in turn over one list, then over the next from what is left, pays in turn over
/// both.
proof fn lemma_pays_in_turn_concat(
    oa: Seq<Proposal>,
    ob: Seq<Proposal>,
    approvals: Seq<ProposalIndex>,
    budget: int,
    a: Seq<Proposal>,
    b: Seq<Proposal>,
    pa: Seq<int>,
    pb: Seq<int>,
)
    requires
        pays_in_turn(oa, approvals, budget, a, pa),
        pays_in_turn(ob, approvals, budget - total_value(a), b, pb),
    ensures
        pays_in_turn(oa + ob, approvals, budget, a + b, pa + pb.map_values(|q: int| q + oa.len())),
{
    let na = oa.len() as int;
    let order = oa + ob;
    let paid = a + b;
    let pos = pa + pb.map_values(|q: int| q + na);
    assert forall|t: int| 0 <= t < pos.len() implies 0 <= #[trigger] pos[t] < order.len() && order[pos[t]]
        == paid[t] by {
        if t < a.len() {
            assert(pos[t] == pa[t]);
        } else {
            assert(pos[t] == pb[t - a.len()] + na);
        }
    }
    assert forall|t: int, u: int| 0 <= t < u < pos.len() implies pos[t] < pos[u] by {
        if u < a.len() {
            assert(pos[t] == pa[t] && pos[u] == pa[u]);
        } else if t < a.len() {
            assert(pos[t] == pa[t]);
            assert(pos[u] == pb[u - a.len()] + na);
        } else {
            assert(pos[t] == pb[t - a.len()] + na);
            assert(pos[u] == pb[u - a.len()] + na);
        }
    }
    assert forall|t: int| 0 <= t < paid.len() implies approvals.contains((#[trigger] paid[t]).index)
        && paid[t].value <= budget - total_value(paid.take(t)) by {
        if t < a.len() {
            assert(paid.take(t) =~= a.take(t));
            assert(paid[t] == a[t]);
        } else {
            lemma_total_value_take_add(a, b, t - a.len());
            assert(paid[t] == b[t - a.len()]);
        }
    }
    assert forall|t: int, q: int|
        #![trigger order[q], paid.take(t)]
        0 <= t <= paid.len() && 0 <= q < order.len() && (t == 0 || pos[t - 1] < q) && (t == paid.len() || q
            < pos[t]) && approvals.contains(order[q].index) implies order[q].value > budget - total_value(
        paid.take(t),
    ) by {
        if t < a.len() {
            assert(paid.take(t) =~= a.take(t));
            assert(pos[t] == pa[t]);
            if t > 0 {
                assert(pos[t - 1] == pa[t - 1]);
            }
            assert(order[q] == oa[q]);
        } else if t == a.len() {
            assert(paid.take(t) =~= a);
            assert(a.take(t) =~= a);
            if t > 0 {
                assert(pos[t - 1] == pa[t - 1]);
            }
            if q < na {
                assert(order[q] == oa[q]);
            } else {
                assert(order[q] == ob[q - na]);
                if t < paid.len() {
                    assert(pos[t] == pb[0] + na);
                }
                assert(b.take(0) =~= Seq::<Proposal>::empty());
                assert(ob[q - na].value > budget - total_value(a) - total_value(b.take(0)));
            }
        } else {
            lemma_total_value_take_add(a, b, t - a.len());
            assert(pos[t - 1] == pb[t - 1 - a.len()] + na);
            if t < paid.len() {
                assert(pos[t] == pb[t - a.len()] + na);
            }
            assert(order[q] == ob[q - na]);
            assert(ob[q - na].value > budget - total_value(a) - total_value(b.take(t - a.len())));
        }
    }
}

/// A run of scans pays in turn over the managers' proposals in the order it comes to them.
proof fn lemma_spend_all_pays_in_turn(
    entries: Seq<ManagerEntry>,
    approvals: Seq<ProposalIndex>,
    budget: int,
    missed: bool,
)
    requires
        0 <= budget,
    ensures
        pays_in_turn(
            pay_order(entries),
            approvals,
            budget,
            spend_all(entries, approvals, budget, missed).3,
            spend_positions(entries, approvals, budget, missed),
        ),
    decreases entries.len(),
{
    let r = spend_all(entries, approvals, budget, missed);
    if entries.len() == 0 {
        assert(r.3 =~= Seq::<Proposal>::empty());
        assert(spend_positions(entries, approvals, budget, missed) =~= Seq::<int>::empty());
        assert(pay_order(entries) =~= Seq::<Proposal>::empty());
    } else {
        let props = entries[0].proposals@;
        let n = props.len();
        let sc = scan(props, approvals, budget, missed, n);
        lemma_scan(props, approvals, budget, missed, n);
        lemma_scan_pays_in_turn(props, approvals, budget, missed, n);
        let rest = entries.drop_first();
        lemma_spend_all(rest, approvals, sc.0, sc.1);
        lemma_spend_all_pays_in_turn(rest, approvals, sc.0, sc.1);
        let rb = spend_all(rest, approvals, sc.0, sc.1);
        lemma_pays_in_turn_concat(
            last_to_first(props, n),
            pay_order(rest),
            approvals,
            budget,
            sc.3,
            rb.3,
            scan_positions(props, approvals, budget, missed, n),
            spend_positions(rest, approvals, sc.0, sc.1),
        );
    }
}

/// Some approved proposal of `order` is at none of the positions `pos`: it was passed over.
pub open spec fn passed_over(order: Seq<Proposal>, approvals: Seq<ProposalIndex>, pos: Seq<int>) -> bool {
    exists|q: int| 0 <= q < order.len() && approvals.contains(#[trigger] order[q].index) && !pos.contains(q)
}

/// A scan reports a miss exactly when one was reported before it or it passed over an
/// approved proposal.
proof fn lemma_scan_passes_over(
    props: Seq<Proposal>,
    approvals: Seq<ProposalIndex>,
    budget: int,
    missed: bool,
    n: nat,
)
    requires
        0 <= budget,
        n <= props.len(),
    ensures
        scan(props, approvals, budget, missed, n).1 == (missed || passed_over(
            last_to_first(props, n),
            approvals,
            scan_positions(props, approvals, budget, missed, n),
        )),
    decreases n,
{
    let r = scan(props, approvals, budget, missed, n);
    let o = last_to_first(props, n);
    let pos = scan_positions(props, approvals, budget, missed, n);
    lemma_scan(props, approvals, budget, missed, n);
    if n > 0 {
        let i = n - 1;
        let p = props[i];
        let m = (n - 1) as nat;
        let o1 = last_to_first(props, m);
        assert forall|k: int| 0 <= k < o1.len() implies #[trigger] o1[k] == o[k + 1] by {}
        assert(o[0] == p);
        if approvals.contains(p.index) && p.value <= budget {
            let b1 = budget - p.value;
            let pos1 = scan_positions(props, approvals, b1, missed, m);
            lemma_scan_passes_over(props, approvals, b1, missed, m);
            let r1 = scan(props, approvals, b1, missed, m);
            assert(r.2 == seq![i as int] + r1.2);
            assert(pos[0] == 0);
            assert forall|t: int| 1 <= t < pos.len() implies #[trigger] pos[t] == pos1[t - 1] + 1 by {
                assert(r.2[t] == r1.2[t - 1]);
            }
            if passed_over(o, approvals, pos) {
                let q = choose|q: int| 0 <= q < o.len() && approvals.contains(#[trigger] o[q].index) && !pos.contains(q);
                assert(q != 0) by {
                    if q == 0 {
                        assert(pos.contains(0));
                    }
                }
                assert(o1[q - 1] == o[q]);
                assert(!pos1.contains(q - 1)) by {
                    if pos1.contains(q - 1) {
                        let t = choose|t: int| 0 <= t < pos1.len() && pos1[t] == q - 1;
                        assert(pos[t + 1] == q);
                    }
                }
                assert(passed_over(o1, approvals, pos1));
            }
            if passed_over(o1, approvals, pos1) {
                let q1 = choose|q: int| 0 <= q < o1.len() && approvals.contains(#[trigger] o1[q].index) && !pos1.contains(q);
                assert(o[q1 + 1] == o1[q1]);
                assert(!pos.contains(q1 + 1)) by {
                    if pos.contains(q1 + 1) {
                        let t = choose|t: int| 0 <= t < pos.len() && pos[t] == q1 + 1;
                        assert(t != 0);
                        assert(pos1[t - 1] == q1);
                    }
                }
                assert(passed_over(o, approvals, pos));
            }
        } else {
            let m1 = if approvals.contains(p.index) { true } else { missed };
            let pos1 = scan_positions(props, approvals, budget, m1, m);
            lemma_scan_passes_over(props, approvals, budget, m1, m);
            let r1 = scan(props, approvals, budget, m1, m);
            assert(r == r1);
            assert forall|t: int| 0 <= t < pos.len() implies #[trigger] pos[t] == pos1[t] + 1 by {}
            if approvals.contains(p.index) {
                assert(!pos.contains(0)) by {
                    if pos.contains(0) {
                        let t = choose|t: int| 0 <= t < pos.len() && pos[t] == 0;
                        assert(pos[t] == pos1[t] + 1);
                        lemma_scan(props, approvals, budget, m1, m);
                        assert(0 <= r1.2[t]);
                    }
                }
                assert(passed_over(o, approvals, pos));
            } else {
                if passed_over(o, approvals, pos) {
                    let q = choose|q: int| 0 <= q < o.len() && approvals.contains(#[trigger] o[q].index) && !pos.contains(q);
                    assert(q != 0);
                    assert(o1[q - 1] == o[q]);
                    assert(!pos1.contains(q - 1)) by {
                        if pos1.contains(q - 1) {
                            let t = choose|t: int| 0 <= t < pos1.len() && pos1[t] == q - 1;
                            assert(pos[t] == q);
                        }
                    }
                    assert(passed_over(o1, approvals, pos1));
                }
                if passed_over(o1, approvals, pos1) {
                    let q1 = choose|q: int| 0 <= q < o1.len() && approvals.contains(#[trigger] o1[q].index) && !pos1.contains(q);
                    assert(o[q1 + 1] == o1[q1]);
                    assert(!pos.contains(q1 + 1)) by {
                        if pos.contains(q1 + 1) {
                            let t = choose|t: int| 0 <= t < pos.len() && pos[t] == q1 + 1;
                            assert(pos1[t] == q1);
                        }
                    }
                    assert(passed_over(o, approvals, pos));
                }
            }
        }
    }
}

/// Passing over two lists, with positions in each, is passing over one of them.
proof fn lemma_passed_over_concat(
    oa: Seq<Proposal>,
    ob: Seq<Proposal>,
    approvals: Seq<ProposalIndex>,
    pa: Seq<int>,
    pb: Seq<int>,
)
    requires
        forall|t: int| 0 <= t < pa.len() ==> 0 <= #[trigger] pa[t] < oa.len(),
        forall|t: int| 0 <= t < pb.len() ==> 0 <= #[trigger] pb[t] < ob.len(),
    ensures
        passed_over(oa + ob, approvals, pa + pb.map_values(|q: int| q + oa.len())) == (passed_over(
            oa,
            approvals,
            pa,
        ) || passed_over(ob, approvals, pb)),
{
    let na = oa.len() as int;
    let order = oa + ob;
    let pbs = pb.map_values(|q: int| q + na);
    let pos = pa + pbs;
    if passed_over(order, approvals, pos) {
        let q = choose|q: int| 0 <= q < order.len() && approvals.contains(#[trigger] order[q].index) && !pos.contains(q);
        if q < na {
            assert(order[q] == oa[q]);
            assert(!pa.contains(q)) by {
                if pa.contains(q) {
                    let t = choose|t: int| 0 <= t < pa.len() && pa[t] == q;
                    assert(pos[t] == q);
                }
            }
            assert(passed_over(oa, approvals, pa));
        } else {
            assert(order[q] == ob[q - na]);
            assert(!pb.contains(q - na)) by {
                if pb.contains(q - na) {
                    let t = choose|t: int| 0 <= t < pb.len() && pb[t] == q - na;
                    assert(pos[t + pa.len()] == q);
                }
            }
            assert(passed_over(ob, approvals, pb));
        }
    }
    if passed_over(oa, approvals, pa) {
        let q = choose|q: int| 0 <= q < oa.len() && approvals.contains(#[trigger] oa[q].index) && !pa.contains(q);
        assert(order[q] == oa[q]);
        assert(!pos.contains(q)) by {
            if pos.contains(q) {
                let t = choose|t: int| 0 <= t < pos.len() && pos[t] == q;
                if t < pa.len() {
                    assert(pa[t] == q);
                } else {
                    assert(pos[t] == pb[t - pa.len()] + na);
                }
            }
        }
        assert(passed_over(order, approvals, pos));
    }
    if passed_over(ob, approvals, pb) {
        let q = choose|q: int| 0 <= q < ob.len() && approvals.contains(#[trigger] ob[q].index) && !pb.contains(q);
        assert(order[q + na] == ob[q]);
        assert(!pos.contains(q + na)) by {
            if pos.contains(q + na) {
                let t = choose|t: int| 0 <= t < pos.len() && pos[t] == q + na;
                if t < pa.len() {
                    assert(pa[t] == q + na);
                } else {
                    assert(pos[t] == pb[t - pa.len()] + na);
                }
            }
        }
        assert(passed_over(order, approvals, pos));
    }
}

/// A run of scans reports a miss exactly when one was reported before it or it passed over
/// an approved proposal.
proof fn lemma_spend_all_passes_over(
    entries: Seq<ManagerEntry>,
    approvals: Seq<ProposalIndex>,
    budget: int,
    missed: bool,
)
    requires
        0 <= budget,
    ensures
        spend_all(entries, approvals, budget, missed).1 == (missed || passed_over(
            pay_order(entries),
            approvals,
            spend_positions(entries, approvals, budget, missed),
        )),
    decreases entries.len(),
{
    if entries.len() == 0 {
        assert(pay_order(entries) =~= Seq::<Proposal>::empty());
    } else {
        let props = entries[0].proposals@;
        let n = props.len();
        let sc = scan(props, approvals, budget, missed, n);
        lemma_scan(props, approvals, budget, missed, n);
        lemma_scan_pays_in_turn(props, approvals, budget, missed, n);
        lemma_scan_passes_over(props, approvals, budget, missed, n);
        let rest = entries.drop_first();
        lemma_spend_all(rest, approvals, sc.0, sc.1);
        lemma_spend_all_pays_in_turn(rest, approvals, sc.0, sc.1);
        lemma_spend_all_passes_over(rest, approvals, sc.0, sc.1);
        let pa = scan_positions(props, approvals, budget, missed, n);
        let pb = spend_positions(rest, approvals, sc.0, sc.1);
        lemma_passed_over_concat(last_to_first(props, n), pay_order(rest), approvals, pa, pb);
    }
}

/// A spend period pays the approved proposals in turn: it comes to the managers in storage
/// order and to each manager's proposals from last to first, pays an approved proposal
/// exactly when its value is at most the budget left at its turn, whatever was missed
/// before, and leaves every other proposal unpaid. It burns exactly when a burn is configured
/// and it passed over no approved proposal. `pos` are the positions of the paid proposals in
/// that order.
pub proof fn law_spend_pays_in_turn(
    pre: Seq<ManagerEntry>,
    approvals: Seq<ProposalIndex>,
    burn: u32,
    passed: BlockNumber,
    pot: Balance,
    post: Seq<ManagerEntry>,
    out: SpendOutcome,
) -> (pos: Seq<int>)
    requires
        spend_effect(pre, approvals, burn, passed, pot, post, out),
    ensures
        pays_in_turn(pay_order(pre), approvals, pot as int, out.awarded@, pos),
        out.burnt is Some <==> (burn != 0 && !passed_over(pay_order(pre), approvals, pos)),
{
    lemma_spend_all_pays_in_turn(pre, approvals, pot as int, false);
    lemma_spend_all_passes_over(pre, approvals, pot as int, false);
    spend_positions(pre, approvals, pot as int, false)
}

/// A spend period burns only when it paid every approved proposal: after a burn, no
/// proposal that a manager still holds is approved.
pub proof fn law_burn_only_when_all_approved_paid(
    pre: Seq<ManagerEntry>,
    approvals: Seq<ProposalIndex>,
    burn: u32,
    passed: BlockNumber,
    pot: Balance,
    post: Seq<ManagerEntry>,
    out: SpendOutcome,
)
    requires
        spend_effect(pre, approvals, burn, passed, pot, post, out),
        out.burnt is Some,
    ensures
        forall|k: int, y: int|
            0 <= k < post.len() && 0 <= y < post[k].proposals@.len() ==> !approvals.contains(
                #[trigger] post[k].proposals@[y].index,
            ),
{
    let r = spend_all(pre, approvals, pot as int, false);
    lemma_spend_all_keeps(pre, approvals, pot as int, false);
    assert(burns(burn, r.1));
    assert forall|k: int, y: int|
        0 <= k < post.len() && 0 <= y < post[k].proposals@.len() implies !approvals.contains(
        #[trigger] post[k].proposals@[y].index) by {
        assert(post[k].proposals@ == r.2[k]);
    }
}

/// The last spend period before a block is a multiple of the period, at most one period
/// before the block, and before it unless the block is the first.
pub proof fn law_last_spend_period_aligned(block: BlockNumber, spend_period: BlockNumber)
    ensures
        ({
            let last = last_spend_period_at(block, spend_period);
            let period = safe_period(spend_period);
            &&& last % period == 0
            &&& last <= block
            &&& block == 0 || last < block
            &&& block - last <= period
        }),
{
    let period = safe_period(spend_period);
    let q = block / period;
    let since = block % period;
    assert(block == q * period + since && 0 <= since < period) by (nonlinear_arith)
        requires
            period >= 1,
            q == block / period,
            since == block % period,
    ;
    if since == 0 {
        if block >= period {
            assert((block - period) as int == (q - 1) * period) by (nonlinear_arith)
                requires
                    block == q * period,
            ;
            vstd::arithmetic::div_mod::lemma_mod_multiples_basic(q - 1, period as int);
        } else {
            assert(q == 0) by (nonlinear_arith)
                requires
                    q * period < period,
                    period >= 1,
                    q >= 0,
            ;
            assert(q * period == 0) by (nonlinear_arith)
                requires
                    q == 0,
            ;
            assert(block == 0);
        }
    } else {
        vstd::arithmetic::div_mod::lemma_mod_multiples_basic(q as int, period as int);
    }
}

/// When spend periods have passed, the new last spend period lies a whole number of periods
/// after the old one, and not after the block.
pub proof fn law_spend_period_advance(block: BlockNumber, last: BlockNumber, spend_period: BlockNumber)
    ensures
        ({
            let period = safe_period(spend_period);
            let since = sat_sub(block, last);
            let passed = since / period;
            let new_last = sat_sub(block, (since % period) as BlockNumber);
            &&& new_last <= block
            &&& passed > 0 ==> new_last == last + passed * period
        }),
{
    let period = safe_period(spend_period);
    let since = sat_sub(block, last);
    let passed = since / period;
    let extra = since % period;
    assert(since == passed * period + extra && 0 <= extra < period) by (nonlinear_arith)
        requires
            period >= 1,
            passed == since / period,
            extra == since % period,
    ;
    if passed > 0 {
        assert(passed * period >= period) by (nonlinear_arith)
            requires
                passed >= 1,
                period >= 1,
        ;
    }
}

/// A proposal's bond, the configured share of its value rounded down, is at most its value.
pub proof fn law_bond_at_most_value(bond_parts: u32, amount: Balance)
    requires
        bond_parts <= 1_000_000,
    ensures
        0 <= mul_floor_spec(bond_parts as int, amount as int) <= amount,
{
    lemma_mul_nearest_le(bond_parts as int, amount as int);
}

/// A milestone spend keeps the proposals indexed: the proposal it adds under its beneficiary's
/// milestone key takes the proposal count as its index, so every stored proposal still sits
/// under its beneficiary's milestone key, and the indices stay distinct and below the count,
/// which grows by one.
pub proof fn law_milestone_spend_keeps_proposals_indexed(
    m: Map<(AccountId, Funding), Seq<Proposal>>,
    count: ProposalIndex,
    beneficiary: AccountId,
    amount: Balance,
    bond_parts: u32,
)
    requires
        proposals_indexed(m, count),
        m.contains_key((beneficiary, Funding::Milestone)),
        count < u32::MAX,
    ensures
        ({
            let key = (beneficiary, Funding::Milestone);
            proposals_indexed(
                m.insert(key, m[key].push(milestone_proposal(count, beneficiary, amount, bond_parts))),
                (count + 1) as ProposalIndex,
            )
        }),
{
    let key = (beneficiary, Funding::Milestone);
    let p = milestone_proposal(count, beneficiary, amount, bond_parts);
    let n = m.insert(key, m[key].push(p));
    let c = (count + 1) as ProposalIndex;
    assert forall|k: (AccountId, Funding), i: int| n.contains_key(k) && 0 <= i < n[k].len() implies (
    #[trigger] n[k][i]).index < c && k == (n[k][i].beneficiary, Funding::Milestone) by {
        if k == key && i == m[key].len() {
            assert(n[k][i] == p);
        } else {
            assert(n[k][i] == m[k][i]);
        }
    }
    assert forall|k1: (AccountId, Funding), i1: int, k2: (AccountId, Funding), i2: int|
        n.contains_key(k1) && n.contains_key(k2) && 0 <= i1 < n[k1].len() && 0 <= i2 < n[k2].len() && (k1
            != k2 || i1 != i2) implies (#[trigger] n[k1][i1]).index != (#[trigger] n[k2][i2]).index by {
        let new1 = k1 == key && i1 == m[key].len();
        let new2 = k2 == key && i2 == m[key].len();
        if !new1 {
            assert(n[k1][i1] == m[k1][i1]);
        }
        if !new2 {
            assert(n[k2][i2] == m[k2][i2]);
        }
        if new1 {
            assert(n[k1][i1] == p);
        }
        if new2 {
            assert(n[k2][i2] == p);
        }
    }
}

/// Managers that hold, under each of their keys, either nothing or what they held under it
/// before, keep the proposals indexed: no proposal is added or moved.
pub proof fn lemma_proposals_indexed_kept(
    m: Map<(AccountId, Funding), Seq<Proposal>>,
    n: Map<(AccountId, Funding), Seq<Proposal>>,
    count: ProposalIndex,
)
    requires
        proposals_indexed(m, count),
        forall|k: (AccountId, Funding)| #[trigger] n.contains_key(k) ==> n[k].len() == 0 || (m.contains_key(k)
            && n[k] == m[k]),
    ensures
        proposals_indexed(n, count),
{
    assert forall|k: (AccountId, Funding), i: int| n.contains_key(k) && 0 <= i < n[k].len() implies (
    #[trigger] n[k][i]).index < count && k == (n[k][i].beneficiary, Funding::Milestone) by {
        assert(n[k][i] == m[k][i]);
    }
    assert forall|k1: (AccountId, Funding), i1: int, k2: (AccountId, Funding), i2: int|
        n.contains_key(k1) && n.contains_key(k2) && 0 <= i1 < n[k1].len() && 0 <= i2 < n[k2].len() && (k1
            != k2 || i1 != i2) implies (#[trigger] n[k1][i1]).index != (#[trigger] n[k2][i2]).index by {
        assert(n[k1][i1] == m[k1][i1]);
        assert(n[k2][i2] == m[k2][i2]);
    }
}

/// Adding a manager for a funding type it did not hold, then removing it again, gives back
/// the managers as they were.
pub proof fn law_add_then_remove_manager(
    managers: Map<(AccountId, Funding), Seq<Proposal>>,
    manager: AccountId,
    funding: Funding,
)
    requires
        !managers.contains_key((manager, funding)),
    ensures
        managers.insert((manager, funding), Seq::empty()).contains_key((manager, funding)),
        managers.insert((manager, funding), Seq::empty())[(manager, funding)].len() == 0,
        managers.insert((manager, funding), Seq::empty()).remove((manager, funding)) == managers,
{
    assert(managers.insert((manager, funding), Seq::empty()).remove((manager, funding)) =~= managers);
}

/// A spend period awards what it pays: no index of a paid proposal stays approved, and
/// every approval that was not paid stays.
pub proof fn law_paid_indices_leave_approvals(approvals: Seq<ProposalIndex>, paid: Seq<Proposal>)
    ensures
        forall|t: int|
            0 <= t < paid.len() ==> !unpaid_approvals(approvals, paid).contains(#[trigger] paid[t].index),
        forall|x: ProposalIndex|
            approvals.contains(x) && !paid_index(paid, x) ==> #[trigger] unpaid_approvals(
                approvals,
                paid,
            ).contains(x),
{
    lemma_unpaid_approvals(approvals, paid);
    assert forall|t: int| 0 <= t < paid.len() implies !unpaid_approvals(approvals, paid).contains(
        #[trigger] paid[t].index) by {
        assert(paid_index(paid, paid[t].index));
    }
}

/// The context after a run of milestone spends that reach the context check, each a limit
/// and an amount.
pub open spec fn context_run(spent: Map<Balance, Balance>, spends: Seq<(Balance, Balance)>) -> Map<
    Balance,
    Balance,
>
    decreases spends.len(),
{
    if spends.len() == 0 {
        spent
    } else {
        context_run(context_step(spent, spends[0].0, spends[0].1).0, spends.drop_first())
    }
}

/// The total of the amounts accepted under the limit `max` in such a run.
pub open spec fn accepted_under(
    spent: Map<Balance, Balance>,
    spends: Seq<(Balance, Balance)>,
    max: Balance,
) -> int
    decreases spends.len(),
{
    if spends.len() == 0 {
        0
    } else {
        let step = context_step(spent, spends[0].0, spends[0].1);
        (if spends[0].0 == max && step.1 { spends[0].1 as int } else { 0 }) + accepted_under(
            step.0,
            spends.drop_first(),
            max,
        )
    }
}

/// Within one dispatch context, the spends accepted under one limit together stay within
/// it: what the context records under the limit is what it held before plus the amounts
/// accepted since, and never more than the limit.
pub proof fn law_context_limits_spends_together(
    spent: Map<Balance, Balance>,
    spends: Seq<(Balance, Balance)>,
    max: Balance,
)
    requires
        context_spent(spent, max) <= max,
    ensures
        context_spent(context_run(spent, spends), max) == context_spent(spent, max) + accepted_under(
            spent,
            spends,
            max,
        ),
        context_spent(context_run(spent, spends), max) <= max,
    decreases spends.len(),
{
    if spends.len() > 0 {
        let step = context_step(spent, spends[0].0, spends[0].1);
        if spends[0].0 != max {
            assert(context_spent(step.0, max) == context_spent(spent, max));
        }
        law_context_limits_spends_together(step.0, spends.drop_first(), max);
    }
}

/// The block hook keeps the last spend period aligned: it never moves back, it moves by
/// whole periods, and it moves only when a spend period runs, to at most one period before
/// the block.
pub proof fn law_hook_keeps_spend_period_aligned(last: BlockNumber, block: BlockNumber, spend_period: BlockNumber)
    ensures
        ({
            let p = safe_period(spend_period) as int;
            let next = hook_step(last, block, spend_period);
            let passed = periods_passed(last, block, spend_period);
            &&& last <= next
            &&& (next - last) % p == 0
            &&& passed == 0 ==> next == last
            &&& passed > 0 ==> last < next <= block && block - next < p
        }),
{
    let p = safe_period(spend_period) as int;
    if last > block {
        lemma_fundamental_div_mod_converse(0, p, 0, 0);
    } else {
        let since = block - last;
        let q = since / p;
        let e = since % p;
        lemma_fundamental_div_mod(since, p);
        assert(p * q == q * p) by (nonlinear_arith);
        if q > 0 {
            assert(q * p >= p) by (nonlinear_arith)
                requires
                    q >= 1,
                    p >= 1,
            ;
            lemma_fundamental_div_mod_converse(q * p, p, q, 0);
        } else {
            lemma_fundamental_div_mod_converse(0, p, 0, 0);
        }
    }
}

/// The last spend period after the block hook ran at `first`, `first + 1`, ... for `k` blocks,
/// starting from `last`.
pub open spec fn last_after(last: BlockNumber, first: BlockNumber, k: nat, spend_period: BlockNumber) -> BlockNumber
    decreases k,
{
    if k == 0 {
        last
    } else {
        hook_step(last_after(last, first, (k - 1) as nat, spend_period), (first + k - 1) as BlockNumber, spend_period)
    }
}

/// After the hook ran at least once on successive blocks, the last spend period is a whole
/// number `j` of periods after where it started, and less than a period before the block.
proof fn lemma_schedule_step(last: BlockNumber, first: BlockNumber, k: nat, spend_period: BlockNumber) -> (j: int)
    requires
        last <= first,
        k >= 1,
        first + k - 1 <= u64::MAX,
    ensures
        ({
            let l = last_after(last, first, k, spend_period);
            let p = safe_period(spend_period) as int;
            &&& last <= l <= first + k - 1 < l + p
            &&& j >= 0
            &&& l - last == j * p
        }),
    decreases k,
{
    let p = safe_period(spend_period) as int;
    if k == 1 {
        assert(last_after(last, first, 0, spend_period) == last);
        law_hook_keeps_spend_period_aligned(last, first, spend_period);
        let l = hook_step(last, first, spend_period);
        let since = first - last;
        lemma_fundamental_div_mod(since, p);
        lemma_fundamental_div_mod(l - last, p);
        let j = (l - last) / p;
        assert(p * j == j * p) by (nonlinear_arith);
        if periods_passed(last, first, spend_period) == 0 {
            assert(p * (since / p) == 0) by (nonlinear_arith)
                requires
                    since / p == 0,
            ;
        }
        assert(j >= 0) by (nonlinear_arith)
            requires
                l - last >= 0,
                p >= 1,
                j == (l - last) / p,
        ;
        j
    } else {
        let j = lemma_schedule_step(last, first, (k - 1) as nat, spend_period);
        let l = last_after(last, first, (k - 1) as nat, spend_period);
        let b = first + k - 1;
        let since = b - l;
        assert(1 <= since <= p);
        if since == p {
            lemma_fundamental_div_mod_converse(since, p, 1, 0);
            assert(p + j * p == (j + 1) * p) by (nonlinear_arith);
            j + 1
        } else {
            lemma_fundamental_div_mod_converse(since, p, 0, since);
            j
        }
    }
}

/// The spend schedule over successive blocks: from a last spend period `last`, with the hook
/// running at `first`, `first + 1`, ..., a spend period runs at the block `first + k` exactly
/// when that block is at least a period after `last` and, after the first block, a whole number
/// of periods after it. The first block may catch up several periods; every later run
/// covers one.
pub proof fn law_spend_schedule(last: BlockNumber, first: BlockNumber, k: nat, spend_period: BlockNumber)
    requires
        last <= first,
        first + k <= u64::MAX,
    ensures
        ({
            let p = safe_period(spend_period) as int;
            let b = first + k;
            let passed = periods_passed(last_after(last, first, k, spend_period), b as BlockNumber, spend_period);
            &&& passed > 0 <==> (b >= last + p && (k == 0 || (b - last) % p == 0))
            &&& passed > 0 ==> passed == if k == 0 { (b - last) / p } else { 1 }
        }),
{
    let p = safe_period(spend_period) as int;
    let b = first + k;
    if k == 0 {
        let since = first - last;
        lemma_fundamental_div_mod(since, p);
        let q = since / p;
        if q >= 1 {
            assert(p * q >= p) by (nonlinear_arith)
                requires
                    q >= 1,
                    p >= 1,
            ;
        } else {
            assert(q == 0) by (nonlinear_arith)
                requires
                    q < 1,
                    since >= 0,
                    p >= 1,
                    q == since / p,
            ;
            assert(p * q == 0) by (nonlinear_arith)
                requires
                    q == 0,
            ;
        }
    } else {
        let j = lemma_schedule_step(last, first, k, spend_period);
        let l = last_after(last, first, k, spend_period);
        let since = b - l;
        assert(1 <= since <= p);
        assert(b - last == j * p + since);
        if since == p {
            lemma_fundamental_div_mod_converse(since, p, 1, 0);
            assert(j * p + p == (j + 1) * p) by (nonlinear_arith);
            lemma_fundamental_div_mod_converse(b - last, p, j + 1, 0);
        } else {
            lemma_fundamental_div_mod_converse(since, p, 0, since);
            lemma_fundamental_div_mod_converse(b - last, p, j, since);
        }
    }
}

} // verus!
