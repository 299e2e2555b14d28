//! Ordering of listed entries by the time of their creation.

use crate::search::SearchResultItem;
use vstd::prelude::*;

verus! {

/// Whether an entry created at `a` comes no later in a newest-first listing
/// than one created at `b`. An entry without a creation time is older than
/// every entry with one.
pub open spec fn no_older(a: Option<u64>, b: Option<u64>) -> bool {
    match (a, b) {
        (_, None) => true,
        (None, Some(_)) => false,
        (Some(x), Some(y)) => x >= y,
    }
}

/// Whether `after` holds the items of `before` in the order that `p`
/// gives: `p` lists each position of `before` exactly once, and the item at
/// a position of `after` is the item of `before` at the position that `p`
/// lists there.
pub open spec fn reorders(
    p: Seq<int>,
    before: Seq<SearchResultItem>,
    after: Seq<SearchResultItem>,
) -> bool {
    &&& p.len() == before.len()
    &&& after.len() == before.len()
    &&& p.no_duplicates()
    &&& forall|i: int| 0 <= i < p.len() ==> 0 <= #[trigger] p[i] < before.len()
    &&& forall|a: int| 0 <= a < before.len() ==> p.contains(a)
    &&& forall|i: int| 0 <= i < p.len() ==> #[trigger] after[i] == before[p[i]]
}

/// `slice::sort_by`, comparing the creation times of two items with that of
/// the second first: the items are put in another order, none is lost or
/// added, and afterwards no item is older than one that follows it.
#[verifier::external_body]
pub(crate) fn sort_newest_first(items: &mut Vec<SearchResultItem>)
    ensures
        forall|i: int, j: int|
            0 <= i <= j < final(items).len() ==> no_older(
                #[trigger] final(items)[i].created_ms,
                #[trigger] final(items)[j].created_ms,
            ),
        exists|p: Seq<int>| reorders(p, old(items)@, final(items)@),
{
    items.sort_by(|a, b| b.created_ms.cmp(&a.created_ms));
}

} // verus!
