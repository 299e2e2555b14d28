//! Sets of keys that the contracts speak of, and facts about sequences
//! that the proofs lean on.

use crate::types::EntryView;
use vstd::prelude::*;

verus! {

/// A count as far as it fits the machine's word.
pub open spec fn clamp(n: nat) -> usize {
    if n > usize::MAX {
        usize::MAX
    } else {
        n as usize
    }
}

/// The keys whose entries carry `tag`.
pub open spec fn with_tag(entries: Map<Seq<char>, EntryView>, tag: Seq<char>) -> Set<Seq<char>> {
    Set::new(|k: Seq<char>| entries.contains_key(k) && entries[k].tags.contains(tag))
}

/// The keys whose entries carry `tag` and are not expired at `now`.
pub open spec fn live_with_tag(
    entries: Map<Seq<char>, EntryView>,
    tag: Seq<char>,
    now: u128,
) -> Set<Seq<char>> {
    Set::new(
        |k: Seq<char>|
            entries.contains_key(k) && entries[k].tags.contains(tag) && !entries[k].is_expired(
                now,
            ),
    )
}

/// The keys whose entries are expired at `now`.
pub open spec fn expired_keys(entries: Map<Seq<char>, EntryView>, now: u128) -> Set<Seq<char>> {
    Set::new(|k: Seq<char>| entries.contains_key(k) && entries[k].is_expired(now))
}

/// The first `j + 1` items of a sequence hold what its first `j` items
/// hold, and the item at `j`.
pub proof fn lemma_take_step<A>(s: Seq<A>, j: int, x: A)
    requires
        0 <= j < s.len(),
    ensures
        s.take(j + 1).contains(x) == (s.take(j).contains(x) || s[j] == x),
{
    let shorter = s.take(j);
    let longer = s.take(j + 1);
    if shorter.contains(x) {
        let i = choose|i: int| 0 <= i < shorter.len() && shorter[i] == x;
        assert(longer[i] == x);
    }
    if s[j] == x {
        assert(longer[j] == x);
    }
    if longer.contains(x) {
        let i = choose|i: int| 0 <= i < longer.len() && longer[i] == x;
        if i < j {
            assert(shorter[i] == x);
        }
    }
}

/// A sequence with one more item holds what it held before, and that item.
pub proof fn lemma_push_contains<A>(s: Seq<A>, x: A)
    ensures
        forall|y: A| #[trigger] s.push(x).contains(y) == (s.contains(y) || y == x),
        s.no_duplicates() && !s.contains(x) ==> s.push(x).no_duplicates(),
{
    let longer = s.push(x);
    assert forall|y: A| #[trigger] longer.contains(y) == (s.contains(y) || y == x) by {
        if s.contains(y) {
            let i = choose|i: int| 0 <= i < s.len() && s[i] == y;
            assert(longer[i] == y);
        }
        if y == x {
            assert(longer[s.len() as int] == y);
        }
        if longer.contains(y) {
            let i = choose|i: int| 0 <= i < longer.len() && longer[i] == y;
            if i < s.len() {
                assert(s[i] == y);
            }
        }
    }
    if s.no_duplicates() && !s.contains(x) {
        assert forall|i: int, j: int|
            0 <= i < longer.len() && 0 <= j < longer.len() && i != j implies longer[i]
            != longer[j] by {
            if i < s.len() && j < s.len() {
            } else if i < s.len() {
                assert(s.contains(s[i]));
            } else {
                assert(s.contains(s[j]));
            }
        }
    }
}

/// Two sequences joined hold what either holds.
pub proof fn lemma_concat_contains<A>(a: Seq<A>, b: Seq<A>, x: A)
    ensures
        (a + b).contains(x) == (a.contains(x) || b.contains(x)),
{
    let joined = a + b;
    if a.contains(x) {
        let i = choose|i: int| 0 <= i < a.len() && a[i] == x;
        assert(joined[i] == x);
    }
    if b.contains(x) {
        let i = choose|i: int| 0 <= i < b.len() && b[i] == x;
        assert(joined[a.len() + i] == x);
    }
    if joined.contains(x) {
        let i = choose|i: int| 0 <= i < joined.len() && joined[i] == x;
        if i < a.len() {
            assert(a[i] == x);
        } else {
            assert(b[i - a.len()] == x);
        }
    }
}

} // verus!
