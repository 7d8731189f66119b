//! Ordering rows by a key, largest first, with equal keys kept in their
//! input order: the `ORDER BY ... DESC` of the tracker's queries.
use vstd::prelude::*;

verus! {

/// Position `a` comes before position `b`: its key is larger, or the keys
/// are equal and `a` came first.
pub open spec fn precedes(keys: Seq<i128>, a: int, b: int) -> bool {
    keys[a] > keys[b] || (keys[a] == keys[b] && a < b)
}

/// `order` lists every position of `keys` exactly once, largest key first,
/// equal keys in their input order.
pub open spec fn is_stable_desc_order(keys: Seq<i128>, order: Seq<usize>) -> bool {
    &&& order.len() == keys.len()
    &&& order.len() <= usize::MAX
    &&& forall|k: int| 0 <= k < order.len() ==> order[k] < keys.len()
    &&& forall|k: int, l: int|
        0 <= k < l < order.len() ==> precedes(keys, order[k] as int, order[l] as int)
    &&& forall|j: usize| j < keys.len() ==> #[trigger] order.contains(j)
}

/// The positions of `keys` ordered by descending key, ties in input order.
pub fn stable_desc_order(keys: &Vec<i128>) -> (order: Vec<usize>)
    ensures
        is_stable_desc_order(keys@, order@),
{
    let n = keys.len();
    let mut order: Vec<usize> = Vec::new();
    let mut i: usize = 0;
    while i < n
        invariant
            n == keys@.len(),
            i <= n,
            order@.len() == i,
            forall|k: int| 0 <= k < order@.len() ==> order@[k] < i,
            forall|k: int, l: int|
                0 <= k < l < order@.len() ==> precedes(keys@, order@[k] as int, order@[l] as int),
            forall|j: usize| j < i ==> #[trigger] order@.contains(j),
        decreases n - i,
    {
        let key = keys[i];
        let mut pos: usize = 0;
        while pos < order.len() && keys[order[pos]] >= key
            invariant
                n == keys@.len(),
                i < n,
                key == keys@[i as int],
                pos <= order@.len(),
                forall|k: int| 0 <= k < order@.len() ==> order@[k] < i,
                forall|m: int| 0 <= m < pos ==> keys@[order@[m] as int] >= key,
            decreases order@.len() - pos,
        {
            pos = pos + 1;
        }
        let ghost old_order = order@;
        order.insert(pos, i);
        proof {
            assert forall|k: int, l: int| 0 <= k < l < order@.len() implies precedes(
                keys@,
                order@[k] as int,
                order@[l] as int,
            ) by {
                if k < pos as int && l < pos as int {
                    assert(order@[k] == old_order[k] && order@[l] == old_order[l]);
                } else if k < pos as int && l == pos as int {
                    assert(order@[k] == old_order[k]);
                } else if k < pos as int {
                    assert(order@[k] == old_order[k] && order@[l] == old_order[l - 1]);
                } else if k == pos as int {
                    assert(order@[l] == old_order[l - 1]);
                    assert(precedes(keys@, old_order[pos as int] as int, old_order[l - 1] as int)
                        || l - 1 == pos as int);
                } else {
                    assert(order@[k] == old_order[k - 1] && order@[l] == old_order[l - 1]);
                }
            }
            assert forall|j: usize| j < i + 1 implies #[trigger] order@.contains(j) by {
                if j == i {
                    assert(order@[pos as int] == j);
                } else {
                    assert(old_order.contains(j));
                    let k = choose|k: int| 0 <= k < old_order.len() && old_order[k] == j;
                    if k < pos as int {
                        assert(order@[k] == j);
                    } else {
                        assert(order@[k + 1] == j);
                    }
                }
            }
        }
        i = i + 1;
    }
    order
}

} // verus!
