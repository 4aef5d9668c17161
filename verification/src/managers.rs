//! The managers of the pallet: for each manager and funding type, the list of that manager's
//! proposals. They are held as a list of entries, in the order in which storage walks them,
//! with no key twice; as a map they are what the pallet's storage double map holds.
use vstd::prelude::*;

use crate::account::same_account;
use crate::types::{AccountId, Funding, ManagerEntry, Proposal};

verus! {

/// The key of an entry: its manager and its funding type.
pub open spec fn entry_key(e: ManagerEntry) -> (AccountId, Funding) {
    (e.manager, e.funding)
}

/// No two entries have the same key.
pub open spec fn keys_unique(s: Seq<ManagerEntry>) -> bool {
    forall|i: int, j: int|
        0 <= i < s.len() && 0 <= j < s.len() && i != j ==> entry_key(#[trigger] s[i])
            != entry_key(#[trigger] s[j])
}

/// Some entry has the key `k`.
pub open spec fn has_key(s: Seq<ManagerEntry>, k: (AccountId, Funding)) -> bool {
    exists|i: int| 0 <= i < s.len() && entry_key(#[trigger] s[i]) == k
}

/// The entries as a map from key to proposals.
pub open spec fn managers_view(s: Seq<ManagerEntry>) -> Map<(AccountId, Funding), Seq<Proposal>> {
    Map::new(
        |k: (AccountId, Funding)| has_key(s, k),
        |k: (AccountId, Funding)|
            s[choose|i: int| 0 <= i < s.len() && entry_key(#[trigger] s[i]) == k].proposals@,
    )
}

/// With unique keys, the map holds each entry's proposals under its key.
pub proof fn lemma_view_at(s: Seq<ManagerEntry>, i: int)
    requires
        keys_unique(s),
        0 <= i < s.len(),
    ensures
        managers_view(s).contains_key(entry_key(s[i])),
        managers_view(s)[entry_key(s[i])] == s[i].proposals@,
{
    let k = entry_key(s[i]);
    assert(has_key(s, k));
    let j = choose|j: int| 0 <= j < s.len() && entry_key(#[trigger] s[j]) == k;
    assert(j == i);
}

/// Appending an entry under a new key inserts it into the map.
pub proof fn lemma_view_push(s: Seq<ManagerEntry>, e: ManagerEntry)
    requires
        keys_unique(s),
        !has_key(s, entry_key(e)),
    ensures
        keys_unique(s.push(e)),
        managers_view(s.push(e)) =~= managers_view(s).insert(entry_key(e), e.proposals@),
{
    let t = s.push(e);
    assert forall|i: int, j: int|
        0 <= i < t.len() && 0 <= j < t.len() && i != j implies entry_key(#[trigger] t[i])
        != entry_key(#[trigger] t[j]) by {
        if i == s.len() {
            assert(t[j] == s[j]);
        } else if j == s.len() {
            assert(t[i] == s[i]);
        } else {
            assert(t[i] == s[i] && t[j] == s[j]);
        }
    }
    let m = managers_view(s).insert(entry_key(e), e.proposals@);
    assert forall|k: (AccountId, Funding)| #[trigger] managers_view(t).contains_key(k) <==> m.contains_key(k) by {
        if has_key(s, k) {
            let i = choose|i: int| 0 <= i < s.len() && entry_key(#[trigger] s[i]) == k;
            assert(t[i] == s[i]);
            assert(has_key(t, k));
        }
        if has_key(t, k) {
            let i = choose|i: int| 0 <= i < t.len() && entry_key(#[trigger] t[i]) == k;
            if i < s.len() {
                assert(t[i] == s[i]);
                assert(has_key(s, k));
            }
        }
        if k == entry_key(e) {
            assert(entry_key(t[s.len() as int]) == k);
        }
    }
    assert forall|k: (AccountId, Funding)| #[trigger] managers_view(t).contains_key(k) implies
        managers_view(t)[k] == m[k] by {
        let i = choose|i: int| 0 <= i < t.len() && entry_key(#[trigger] t[i]) == k;
        lemma_view_at(t, i);
        if i < s.len() {
            assert(t[i] == s[i]);
            lemma_view_at(s, i);
        }
    }
}

/// Replacing the proposals of an entry, with its key unchanged, updates the map.
pub proof fn lemma_view_update(s: Seq<ManagerEntry>, i: int, e: ManagerEntry)
    requires
        keys_unique(s),
        0 <= i < s.len(),
        entry_key(e) == entry_key(s[i]),
    ensures
        keys_unique(s.update(i, e)),
        managers_view(s.update(i, e)) =~= managers_view(s).insert(entry_key(e), e.proposals@),
{
    let t = s.update(i, e);
    assert forall|a: int, b: int|
        0 <= a < t.len() && 0 <= b < t.len() && a != b implies entry_key(#[trigger] t[a])
        != entry_key(#[trigger] t[b]) by {
        assert(entry_key(t[a]) == entry_key(s[a]));
        assert(entry_key(t[b]) == entry_key(s[b]));
    }
    let m = managers_view(s).insert(entry_key(e), e.proposals@);
    assert forall|k: (AccountId, Funding)| #[trigger] managers_view(t).contains_key(k) <==> m.contains_key(k) by {
        if has_key(s, k) {
            let j = choose|j: int| 0 <= j < s.len() && entry_key(#[trigger] s[j]) == k;
            assert(entry_key(t[j]) == k);
        }
        if has_key(t, k) {
            let j = choose|j: int| 0 <= j < t.len() && entry_key(#[trigger] t[j]) == k;
            assert(entry_key(s[j]) == k);
        }
        assert(entry_key(s[i]) == entry_key(e));
    }
    assert forall|k: (AccountId, Funding)| #[trigger] managers_view(t).contains_key(k) implies
        managers_view(t)[k] == m[k] by {
        let j = choose|j: int| 0 <= j < t.len() && entry_key(#[trigger] t[j]) == k;
        lemma_view_at(t, j);
        if j != i {
            lemma_view_at(s, j);
        }
    }
}

/// Removing an entry removes its key from the map.
pub proof fn lemma_view_remove(s: Seq<ManagerEntry>, i: int)
    requires
        keys_unique(s),
        0 <= i < s.len(),
    ensures
        keys_unique(s.remove(i)),
        managers_view(s.remove(i)) =~= managers_view(s).remove(entry_key(s[i])),
{
    let t = s.remove(i);
    assert forall|a: int| 0 <= a < t.len() implies #[trigger] t[a] == s[if a < i { a } else { a + 1 }] by {}
    assert forall|a: int, b: int|
        0 <= a < t.len() && 0 <= b < t.len() && a != b implies entry_key(#[trigger] t[a])
        != entry_key(#[trigger] t[b]) by {
        assert(t[a] == s[if a < i { a } else { a + 1 }]);
        assert(t[b] == s[if b < i { b } else { b + 1 }]);
    }
    let m = managers_view(s).remove(entry_key(s[i]));
    assert forall|k: (AccountId, Funding)| #[trigger] managers_view(t).contains_key(k) <==> m.contains_key(k) by {
        if has_key(s, k) && k != entry_key(s[i]) {
            let j = choose|j: int| 0 <= j < s.len() && entry_key(#[trigger] s[j]) == k;
            let a = if j < i { j } else { j - 1 };
            assert(t[a] == s[j]);
            assert(has_key(t, k));
        }
        if has_key(t, k) {
            let a = choose|a: int| 0 <= a < t.len() && entry_key(#[trigger] t[a]) == k;
            let j = if a < i { a } else { a + 1 };
            assert(t[a] == s[j]);
            assert(has_key(s, k));
            assert(j != i);
        }
    }
    assert forall|k: (AccountId, Funding)| #[trigger] managers_view(t).contains_key(k) implies
        managers_view(t)[k] == m[k] by {
        let a = choose|a: int| 0 <= a < t.len() && entry_key(#[trigger] t[a]) == k;
        let j = if a < i { a } else { a + 1 };
        assert(t[a] == s[j]);
        lemma_view_at(t, a);
        lemma_view_at(s, j);
    }
}

/// The position of the entry with the given key, if there is one.
pub fn find_entry(entries: &Vec<ManagerEntry>, manager: AccountId, funding: Funding) -> (r: Option<
    usize,
>)
    requires
        keys_unique(entries@),
    ensures
        match r {
            Some(i) => i < entries@.len() && entry_key(entries@[i as int]) == (manager, funding),
            None => !has_key(entries@, (manager, funding)),
        },
        r is Some <==> managers_view(entries@).contains_key((manager, funding)),
{
    let mut i: usize = 0;
    while i < entries.len()
        invariant
            i <= entries@.len(),
            forall|j: int| 0 <= j < i ==> entry_key(#[trigger] entries@[j]) != (manager, funding),
        decreases entries@.len() - i,
    {
        if same_account(&entries[i].manager, &manager) && entries[i].funding == funding {
            proof {
                assert(has_key(entries@, (manager, funding)));
            }
            return Some(i);
        }
        i = i + 1;
    }
    None
}

/// The position of some entry of the given manager, if there is one.
pub fn find_manager(entries: &Vec<ManagerEntry>, manager: AccountId) -> (r: Option<usize>)
    ensures
        match r {
            Some(i) => i < entries@.len() && entries@[i as int].manager == manager,
            None => forall|j: int| 0 <= j < entries@.len() ==> #[trigger] entries@[j].manager != manager,
        },
{
    let mut i: usize = 0;
    while i < entries.len()
        invariant
            i <= entries@.len(),
            forall|j: int| 0 <= j < i ==> #[trigger] entries@[j].manager != manager,
        decreases entries@.len() - i,
    {
        if same_account(&entries[i].manager, &manager) {
            return Some(i);
        }
        i = i + 1;
    }
    None
}

} // verus!
