//! Stable sorting by a numeric key, as positions.

use vstd::prelude::*;
use vstd::set_lib::{lemma_int_range, lemma_subset_equality, set_int_range};

verus! {

/// Position `x` of `keys` comes before position `y` in a stable sort by key.
pub open spec fn precedes(keys: Seq<u64>, x: int, y: int) -> bool {
    keys[x] < keys[y] || (keys[x] == keys[y] && x < y)
}

/// `order` lists the positions of `keys` sorted by key, positions with equal
/// keys in their given order (what a stable sort by key produces).
pub open spec fn is_stable_order(keys: Seq<u64>, order: Seq<usize>) -> bool {
    &&& order.len() == keys.len()
    &&& forall|j: int| 0 <= j < order.len() ==> #[trigger] order[j] < keys.len()
    &&& forall|a: int, b: int|
        0 <= a < b < order.len() ==> precedes(keys, #[trigger] order[a] as int, #[trigger] order[b] as int)
}

/// The positions of `keys` in the order of a stable sort by key.
pub fn stable_order(keys: &Vec<u64>) -> (order: Vec<usize>)
    ensures
        is_stable_order(keys@, order@),
        order@ == stable_order_of(keys@),
{
    let n = keys.len();
    let mut order: Vec<usize> = Vec::new();
    let mut i: usize = 0;
    while i < n
        invariant
            n == keys.len(),
            i <= n,
            order.len() == i,
            forall|j: int| 0 <= j < order.len() ==> #[trigger] order@[j] < i,
            forall|a: int, b: int|
                0 <= a < b < order.len() ==> precedes(keys@, #[trigger] order@[a] as int, #[trigger] order@[b] as int),
        decreases n - i,
    {
        let mut p: usize = 0;
        while p < order.len() && keys[order[p]] <= keys[i]
            invariant
                n == keys.len(),
                i < n,
                p <= order.len(),
                forall|j: int| 0 <= j < order.len() ==> #[trigger] order@[j] < i,
                forall|j: int| 0 <= j < p ==> keys@[#[trigger] order@[j] as int] <= keys@[i as int],
            decreases order.len() - p,
        {
            p = p + 1;
        }
        let ghost old_order = order@;
        proof {
            assert forall|j: int| p <= j < old_order.len() implies keys@[#[trigger] old_order[j] as int] > keys@[i as int] by {
                if j > p {
                    assert(precedes(keys@, old_order[p as int] as int, old_order[j] as int));
                }
            }
        }
        order.insert(p, i);
        proof {
            let new_order = order@;
            assert(new_order =~= old_order.insert(p as int, i));
            assert forall|j: int| 0 <= j < new_order.len() implies #[trigger] new_order[j] < i + 1 by {
                if j < p {
                    assert(new_order[j] == old_order[j]);
                } else if j > p {
                    assert(new_order[j] == old_order[j - 1]);
                }
            }
            assert forall|a: int, b: int|
                0 <= a < b < new_order.len() implies precedes(keys@, #[trigger] new_order[a] as int, #[trigger] new_order[b] as int) by {
                if b < p {
                    assert(new_order[a] == old_order[a] && new_order[b] == old_order[b]);
                } else if b == p {
                    assert(new_order[a] == old_order[a]);
                } else if a < p {
                    assert(new_order[a] == old_order[a] && new_order[b] == old_order[b - 1]);
                } else if a == p {
                    assert(new_order[b] == old_order[b - 1]);
                } else {
                    assert(new_order[a] == old_order[a - 1] && new_order[b] == old_order[b - 1]);
                }
            }
        }
        i = i + 1;
    }
    proof {
        lemma_stable_order_unique(keys@, order@, stable_order_of(keys@));
    }
    order
}


/// The positions listed by a stable order have no repeats.
proof fn lemma_stable_order_distinct(keys: Seq<u64>, order: Seq<usize>)
    requires
        is_stable_order(keys, order),
    ensures
        forall|a: int, b: int|
            0 <= a < order.len() && 0 <= b < order.len() && a != b ==> #[trigger] order[a] != #[trigger] order[b],
{
    assert forall|a: int, b: int|
        0 <= a < order.len() && 0 <= b < order.len() && a != b implies #[trigger] order[a] != #[trigger] order[b] by {
        if a < b {
            assert(precedes(keys, order[a] as int, order[b] as int));
        } else {
            assert(precedes(keys, order[b] as int, order[a] as int));
        }
    }
}

/// A stable order lists every position.
proof fn lemma_stable_order_covers(keys: Seq<u64>, order: Seq<usize>, x: int)
    requires
        is_stable_order(keys, order),
        0 <= x < keys.len(),
    ensures
        exists|p: int| 0 <= p < order.len() && order[p] == x,
{
    lemma_stable_order_distinct(keys, order);
    let positions = order.map_values(|j: usize| j as int);
    assert(positions.no_duplicates()) by {
        assert forall|a: int, b: int|
            0 <= a < positions.len() && 0 <= b < positions.len() && a != b implies positions[a] != positions[b] by {
            assert(order[a] != order[b]);
        }
    }
    positions.unique_seq_to_set();
    lemma_int_range(0, keys.len() as int);
    let all = set_int_range(0, keys.len() as int);
    assert(positions.to_set().subset_of(all)) by {
        assert forall|y: int| positions.to_set().contains(y) implies all.contains(y) by {
            let p = choose|p: int| 0 <= p < positions.len() && positions[p] == y;
            assert(order[p] < keys.len());
        }
    }
    lemma_subset_equality(positions.to_set(), all);
    assert(all.contains(x));
    assert(positions.to_set().contains(x));
    let p = choose|p: int| 0 <= p < positions.len() && positions[p] == x;
    assert(order[p] == x);
}

/// There is only one stable order of a sequence of keys.
pub proof fn lemma_stable_order_unique(keys: Seq<u64>, o1: Seq<usize>, o2: Seq<usize>)
    requires
        is_stable_order(keys, o1),
        is_stable_order(keys, o2),
    ensures
        o1 == o2,
{
    lemma_stable_order_distinct(keys, o1);
    lemma_stable_order_distinct(keys, o2);
    assert forall|j: int| 0 <= j < o1.len() implies o1[j] == o2[j] by {
        lemma_same_prefix(keys, o1, o2, j);
    }
    assert(o1 =~= o2);
}

proof fn lemma_same_prefix(keys: Seq<u64>, o1: Seq<usize>, o2: Seq<usize>, j: int)
    requires
        is_stable_order(keys, o1),
        is_stable_order(keys, o2),
        0 <= j < o1.len(),
    ensures
        o1[j] == o2[j],
    decreases j,
{
    lemma_stable_order_distinct(keys, o1);
    lemma_stable_order_distinct(keys, o2);
    if j > 0 {
        assert forall|i: int| 0 <= i < j implies o1[i] == o2[i] by {
            lemma_same_prefix(keys, o1, o2, i);
        }
    }
    let a = o1[j];
    let b = o2[j];
    if a != b {
        lemma_stable_order_covers(keys, o2, a as int);
        lemma_stable_order_covers(keys, o1, b as int);
        let p = choose|p: int| 0 <= p < o2.len() && o2[p] == a;
        let q = choose|q: int| 0 <= q < o1.len() && o1[q] == b;
        if p < j {
            assert(o1[p] == o2[p]);
        } else if q < j {
            assert(o1[q] == o2[q]);
        } else {
            // both a and b come after position j in the other order
            assert(p > j && q > j);
            assert(precedes(keys, o2[j] as int, o2[p] as int));
            assert(precedes(keys, o1[j] as int, o1[q] as int));
        }
    }
}

/// The stable order of the keys.
pub open spec fn stable_order_of(keys: Seq<u64>) -> Seq<usize> {
    choose|order: Seq<usize>| is_stable_order(keys, order)
}

} // verus!
