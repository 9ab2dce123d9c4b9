//! The stable order of a sequence of sort keys: the positions of the keys by
//! ascending key, positions that hold the same key by ascending position.
//! There is exactly one, and a merge sort finds it.

use vstd::prelude::*;
use vstd::set_lib::{lemma_int_range, lemma_len_subset, lemma_subset_equality, set_int_range};
use crate::key_order::{
    compare_keys, key_less, lemma_key_rank, lemma_segment_order, segment_less, Rank,
};
use crate::lex::lemma_lex_transitive;
use crate::sort_key::SortKey;

verus! {

/// Position `i` goes before position `j`: it holds the lesser key, or the
/// same key and is the earlier position.
pub open spec fn goes_before(keys: Seq<Seq<Seq<char>>>, i: int, j: int) -> bool {
    key_less(keys[i], keys[j]) || (keys[i] == keys[j] && i < j)
}

/// `order` holds positions from `lo` up to, not including, `hi`, each before
/// the ones that follow it.
pub open spec fn ascending_within(
    order: Seq<int>,
    keys: Seq<Seq<Seq<char>>>,
    lo: int,
    hi: int,
) -> bool {
    &&& forall|i: int| 0 <= i < order.len() ==> lo <= #[trigger] order[i] < hi
    &&& forall|i: int, j: int|
        0 <= i < j < order.len() ==> goes_before(keys, #[trigger] order[i], #[trigger] order[j])
}

/// `order` lists the positions of `keys`, as many as there are, by ascending
/// key, and positions that hold the same key by ascending position.
pub open spec fn is_stable_order(order: Seq<int>, keys: Seq<Seq<Seq<char>>>) -> bool {
    &&& order.len() == keys.len()
    &&& ascending_within(order, keys, 0, keys.len() as int)
}

/// The positions that a vector of indices holds.
pub open spec fn positions(v: Seq<usize>) -> Seq<int> {
    v.map_values(|p: usize| p as int)
}

/// What each key of a vector stands for.
pub open spec fn key_views(keys: Seq<SortKey>) -> Seq<Seq<Seq<char>>> {
    keys.map_values(|key: SortKey| key@)
}

/// Going before carries over a position in the middle.
pub proof fn lemma_goes_before_transitive(keys: Seq<Seq<Seq<char>>>, a: int, b: int, c: int)
    requires
        goes_before(keys, a, b),
        goes_before(keys, b, c),
    ensures
        goes_before(keys, a, c),
{
    lemma_segment_order();
    if key_less(keys[a], keys[b]) && key_less(keys[b], keys[c]) {
        lemma_lex_transitive(keys[a], keys[b], keys[c], segment_less());
    }
}

/// Of two different positions one goes before the other, never both.
pub proof fn lemma_goes_before_total(keys: Seq<Seq<Seq<char>>>, a: int, b: int)
    ensures
        a != b ==> (goes_before(keys, a, b) <==> !goes_before(keys, b, a)),
        !goes_before(keys, a, a),
{
    lemma_key_rank(keys[a], keys[b]);
    lemma_key_rank(keys[a], keys[a]);
}

/// A stable order names no position twice and leaves none out.
pub proof fn lemma_stable_order_is_permutation(keys: Seq<Seq<Seq<char>>>, order: Seq<int>)
    requires
        is_stable_order(order, keys),
    ensures
        order.no_duplicates(),
        forall|p: int| 0 <= p < keys.len() ==> order.contains(p),
{
    assert forall|i: int, j: int|
        0 <= i < order.len() && 0 <= j < order.len() && i != j implies order[i] != order[j] by {
        lemma_goes_before_total(keys, order[i], order[i]);
        if i < j {
            assert(goes_before(keys, order[i], order[j]));
        } else {
            assert(goes_before(keys, order[j], order[i]));
        }
    }
    let all = set_int_range(0, keys.len() as int);
    let named = order.to_set();
    order.unique_seq_to_set();
    lemma_int_range(0, keys.len() as int);
    assert(named.subset_of(all)) by {
        assert forall|p: int| named.contains(p) implies all.contains(p) by {
            let i = choose|i: int| 0 <= i < order.len() && order[i] == p;
            assert(0 <= order[i] < keys.len());
        }
    }
    lemma_len_subset(named, all);
    lemma_subset_equality(named, all);
    assert forall|p: int| 0 <= p < keys.len() implies order.contains(p) by {
        assert(all.contains(p));
        assert(named.contains(p));
    }
}

/// Two stable orders of the same keys agree on their first `k` places.
proof fn lemma_stable_orders_agree(keys: Seq<Seq<Seq<char>>>, a: Seq<int>, b: Seq<int>, k: int)
    requires
        is_stable_order(a, keys),
        is_stable_order(b, keys),
        0 <= k <= keys.len(),
    ensures
        forall|i: int| 0 <= i < k ==> a[i] == b[i],
    decreases k,
{
    if k > 0 {
        let m = k - 1;
        lemma_stable_orders_agree(keys, a, b, m);
        assert(0 <= a[m] < keys.len() && 0 <= b[m] < keys.len());
        if a[m] != b[m] {
            lemma_goes_before_total(keys, a[m], b[m]);
            if goes_before(keys, a[m], b[m]) {
                lemma_earlier_is_named_no_later(keys, a, b, m);
            } else {
                lemma_earlier_is_named_no_later(keys, b, a, m);
            }
        }
    }
}

/// Where two stable orders agree before place `m`, what the first names at
/// `m` does not go before what the second names there.
proof fn lemma_earlier_is_named_no_later(
    keys: Seq<Seq<Seq<char>>>,
    a: Seq<int>,
    b: Seq<int>,
    m: int,
)
    requires
        is_stable_order(a, keys),
        is_stable_order(b, keys),
        0 <= m < keys.len(),
        forall|i: int| 0 <= i < m ==> a[i] == b[i],
        a[m] != b[m],
    ensures
        !goes_before(keys, a[m], b[m]),
{
    assert(0 <= a[m] < keys.len());
    lemma_stable_order_is_permutation(keys, b);
    assert(b.contains(a[m]));
    let j = choose|j: int| 0 <= j < b.len() && b[j] == a[m];
    lemma_goes_before_total(keys, a[m], b[m]);
    lemma_goes_before_total(keys, a[m], a[m]);
    if j < m {
        assert(a[j] == b[j]);
        assert(goes_before(keys, a[j], a[m]));
    } else if j > m {
        assert(goes_before(keys, b[m], b[j]));
    }
}

/// The keys have one stable order only.
pub proof fn lemma_stable_order_unique(keys: Seq<Seq<Seq<char>>>, a: Seq<int>, b: Seq<int>)
    requires
        is_stable_order(a, keys),
        is_stable_order(b, keys),
    ensures
        a == b,
{
    lemma_stable_orders_agree(keys, a, b, keys.len() as int);
    assert(a =~= b);
}

/// The place at which `new` enters the ascending `order`: what stands before
/// that place goes before `new`, and `new` goes before what stands from
/// there on.
proof fn insertion_place(
    keys: Seq<Seq<Seq<char>>>,
    order: Seq<int>,
    new: int,
    from: int,
) -> (place: int)
    requires
        0 <= from <= order.len(),
        forall|i: int, j: int|
            0 <= i < j < order.len() ==> goes_before(
                keys,
                #[trigger] order[i],
                #[trigger] order[j],
            ),
        forall|i: int| 0 <= i < order.len() ==> #[trigger] order[i] != new,
        forall|i: int| 0 <= i < from ==> goes_before(keys, #[trigger] order[i], new),
    ensures
        from <= place <= order.len(),
        forall|i: int| 0 <= i < place ==> goes_before(keys, #[trigger] order[i], new),
        forall|i: int| place <= i < order.len() ==> goes_before(keys, new, #[trigger] order[i]),
    decreases order.len() - from,
{
    if from == order.len() {
        from
    } else if goes_before(keys, new, order[from]) {
        assert forall|i: int| from <= i < order.len() implies goes_before(
            keys,
            new,
            #[trigger] order[i],
        ) by {
            if i > from {
                assert(goes_before(keys, order[from], order[i]));
                lemma_goes_before_transitive(keys, new, order[from], order[i]);
            }
        }
        from
    } else {
        lemma_goes_before_total(keys, new, order[from]);
        insertion_place(keys, order, new, from + 1)
    }
}

/// Every sequence of keys has a stable order.
pub proof fn lemma_stable_order_exists(keys: Seq<Seq<Seq<char>>>) -> (order: Seq<int>)
    ensures
        is_stable_order(order, keys),
    decreases keys.len(),
{
    if keys.len() == 0 {
        Seq::empty()
    } else {
        let fewer = keys.drop_last();
        let new = keys.len() - 1;
        let inner = lemma_stable_order_exists(fewer);
        assert forall|i: int, j: int| 0 <= i < j < inner.len() implies goes_before(
            keys,
            #[trigger] inner[i],
            #[trigger] inner[j],
        ) by {
            assert(goes_before(fewer, inner[i], inner[j]));
            assert(fewer[inner[i]] == keys[inner[i]]);
            assert(fewer[inner[j]] == keys[inner[j]]);
        }
        let place = insertion_place(keys, inner, new, 0);
        let order = inner.insert(place, new);
        assert forall|i: int, j: int| 0 <= i < j < order.len() implies goes_before(
            keys,
            #[trigger] order[i],
            #[trigger] order[j],
        ) by {
            if j < place {
                assert(order[i] == inner[i] && order[j] == inner[j]);
            } else if j == place {
                assert(order[i] == inner[i]);
            } else if i < place {
                assert(order[i] == inner[i] && order[j] == inner[j - 1]);
            } else if i == place {
                assert(order[j] == inner[j - 1]);
            } else {
                assert(order[i] == inner[i - 1] && order[j] == inner[j - 1]);
            }
        }
        assert forall|i: int| 0 <= i < order.len() implies 0 <= #[trigger] order[i]
            < keys.len() by {
            if i < place {
                assert(order[i] == inner[i]);
            } else if i > place {
                assert(order[i] == inner[i - 1]);
            }
        }
        order
    }
}

/// The stable order of `keys`.
pub open spec fn stable_order_of(keys: Seq<Seq<Seq<char>>>) -> Seq<int> {
    choose|order: Seq<int>| is_stable_order(order, keys)
}

/// Merges two ascending runs of positions, the left one drawn from below
/// `mid` and the right one from `mid` on, into one.
fn merge(
    keys: &Vec<SortKey>,
    left: &Vec<usize>,
    right: &Vec<usize>,
    lo: usize,
    mid: usize,
    hi: usize,
) -> (merged: Vec<usize>)
    requires
        lo <= mid <= hi <= keys.len(),
        ascending_within(positions(left@), key_views(keys@), lo as int, mid as int),
        ascending_within(positions(right@), key_views(keys@), mid as int, hi as int),
        left.len() + right.len() <= usize::MAX,
    ensures
        merged.len() == left.len() + right.len(),
        ascending_within(positions(merged@), key_views(keys@), lo as int, hi as int),
{
    let ghost kv = key_views(keys@);
    let mut merged: Vec<usize> = Vec::new();
    let mut i: usize = 0;
    let mut j: usize = 0;
    while i < left.len() || j < right.len()
        invariant
            i <= left.len(),
            j <= right.len(),
            lo <= mid <= hi <= keys.len(),
            kv == key_views(keys@),
            merged.len() == i + j,
            left.len() + right.len() <= usize::MAX,
            ascending_within(positions(left@), kv, lo as int, mid as int),
            ascending_within(positions(right@), kv, mid as int, hi as int),
            ascending_within(positions(merged@), kv, lo as int, hi as int),
            forall|p: int|
                0 <= p < merged.len() && i < left.len() ==> goes_before(
                    kv,
                    #[trigger] positions(merged@)[p],
                    positions(left@)[i as int],
                ),
            forall|p: int|
                0 <= p < merged.len() && j < right.len() ==> goes_before(
                    kv,
                    #[trigger] positions(merged@)[p],
                    positions(right@)[j as int],
                ),
        decreases left.len() - i + right.len() - j,
    {
        let ghost before = positions(merged@);
        let take_left = if j == right.len() {
            true
        } else if i == left.len() {
            false
        } else {
            let l = left[i];
            let r = right[j];
            assert(lo <= positions(left@)[i as int] < mid);
            assert(mid <= positions(right@)[j as int] < hi);
            match compare_keys(&keys[r], &keys[l]) {
                Rank::Before => false,
                _ => true,
            }
        };
        if take_left {
            let l = left[i];
            assert(lo <= positions(left@)[i as int] < mid);
            merged.push(l);
            proof {
                let now = positions(merged@);
                assert(now =~= before.push(l as int));
                assert forall|p: int, q: int| 0 <= p < q < now.len() implies goes_before(
                    kv,
                    #[trigger] now[p],
                    #[trigger] now[q],
                ) by {
                    if q < before.len() {
                        assert(now[p] == before[p] && now[q] == before[q]);
                    } else {
                        assert(now[p] == before[p]);
                    }
                }
                assert forall|p: int| 0 <= p < now.len() && i + 1 < left.len() implies goes_before(
                    kv,
                    #[trigger] now[p],
                    positions(left@)[i + 1],
                ) by {
                    assert(goes_before(kv, positions(left@)[i as int], positions(left@)[i + 1]));
                    if p < before.len() {
                        assert(now[p] == before[p]);
                        lemma_goes_before_transitive(
                            kv,
                            now[p],
                            positions(left@)[i as int],
                            positions(left@)[i + 1],
                        );
                    }
                }
                assert forall|p: int| 0 <= p < now.len() && j < right.len() implies goes_before(
                    kv,
                    #[trigger] now[p],
                    positions(right@)[j as int],
                ) by {
                    if p < before.len() {
                        assert(now[p] == before[p]);
                    } else {
                        let r = positions(right@)[j as int];
                        assert(mid <= r < hi);
                        lemma_key_rank(kv[r], kv[l as int]);
                        lemma_key_rank(kv[l as int], kv[r]);
                    }
                }
            }
            i = i + 1;
        } else {
            let r = right[j];
            assert(mid <= positions(right@)[j as int] < hi);
            merged.push(r);
            proof {
                let now = positions(merged@);
                assert(now =~= before.push(r as int));
                assert forall|p: int, q: int| 0 <= p < q < now.len() implies goes_before(
                    kv,
                    #[trigger] now[p],
                    #[trigger] now[q],
                ) by {
                    if q < before.len() {
                        assert(now[p] == before[p] && now[q] == before[q]);
                    } else {
                        assert(now[p] == before[p]);
                    }
                }
                assert forall|p: int| 0 <= p < now.len() && j + 1 < right.len() implies goes_before(
                    kv,
                    #[trigger] now[p],
                    positions(right@)[j + 1],
                ) by {
                    assert(goes_before(kv, positions(right@)[j as int], positions(right@)[j + 1]));
                    if p < before.len() {
                        assert(now[p] == before[p]);
                        lemma_goes_before_transitive(
                            kv,
                            now[p],
                            positions(right@)[j as int],
                            positions(right@)[j + 1],
                        );
                    }
                }
                assert forall|p: int| 0 <= p < now.len() && i < left.len() implies goes_before(
                    kv,
                    #[trigger] now[p],
                    positions(left@)[i as int],
                ) by {
                    if p < before.len() {
                        assert(now[p] == before[p]);
                    }
                }
            }
            j = j + 1;
        }
    }
    merged
}

/// The positions from `lo` up to, not including, `hi`, put in ascending
/// order by merge sort.
fn sort_range(keys: &Vec<SortKey>, lo: usize, hi: usize) -> (order: Vec<usize>)
    requires
        lo <= hi <= keys.len(),
    ensures
        order.len() == hi - lo,
        ascending_within(positions(order@), key_views(keys@), lo as int, hi as int),
    decreases hi - lo,
{
    if hi - lo == 0 {
        Vec::new()
    } else if hi - lo == 1 {
        let mut order: Vec<usize> = Vec::new();
        order.push(lo);
        order
    } else {
        let mid = lo + (hi - lo) / 2;
        let left = sort_range(keys, lo, mid);
        let right = sort_range(keys, mid, hi);
        merge(keys, &left, &right, lo, mid, hi)
    }
}

/// The stable order of the keys: their positions by ascending key, positions
/// with the same key by ascending position.
pub fn stable_order(keys: &Vec<SortKey>) -> (order: Vec<usize>)
    ensures
        positions(order@) == stable_order_of(key_views(keys@)),
{
    let order = sort_range(keys, 0, keys.len());
    proof {
        lemma_stable_order_unique(
            key_views(keys@),
            positions(order@),
            stable_order_of(key_views(keys@)),
        );
    }
    order
}

} // verus!
