//! Lexicographic order on sequences, over any strict order of their items.

use vstd::prelude::*;
use vstd::relations::*;

verus! {

/// `a` and `b` are both at least `k` long and hold the same items before
/// position `k`.
pub open spec fn agree_before<T>(a: Seq<T>, b: Seq<T>, k: int) -> bool {
    &&& 0 <= k <= a.len()
    &&& k <= b.len()
    &&& forall|i: int| 0 <= i < k ==> a[i] == b[i]
}

/// Position `k` puts `a` before `b`: the two agree before `k`, and there
/// either `a` has ended while `b` goes on, or `a` holds the lesser item.
pub open spec fn decides_at<T>(a: Seq<T>, b: Seq<T>, less: spec_fn(T, T) -> bool, k: int) -> bool {
    &&& agree_before(a, b, k)
    &&& k < b.len()
    &&& (k == a.len() || less(a[k], b[k]))
}

/// `a` comes strictly before `b` in the lexicographic order built on `less`:
/// at the first position where they differ `a` holds the lesser item, or `a`
/// is a proper prefix of `b`.
pub open spec fn lex_less<T>(a: Seq<T>, b: Seq<T>, less: spec_fn(T, T) -> bool) -> bool {
    exists|k: int| #[trigger] decides_at(a, b, less, k)
}

/// The first position at which `a` and `b` stop agreeing: one of them ends
/// there, or they hold different items.
pub proof fn first_difference<T>(a: Seq<T>, b: Seq<T>) -> (k: int)
    ensures
        agree_before(a, b, k),
        k == a.len() || k == b.len() || a[k] != b[k],
{
    first_difference_from(a, b, 0)
}

proof fn first_difference_from<T>(a: Seq<T>, b: Seq<T>, from: int) -> (k: int)
    requires
        agree_before(a, b, from),
    ensures
        agree_before(a, b, k),
        k == a.len() || k == b.len() || a[k] != b[k],
    decreases a.len() - from,
{
    if from == a.len() || from == b.len() || a[from] != b[from] {
        from
    } else {
        first_difference_from(a, b, from + 1)
    }
}

/// No sequence comes before itself.
pub proof fn lemma_lex_irreflexive<T>(a: Seq<T>, less: spec_fn(T, T) -> bool)
    requires
        irreflexive(less),
    ensures
        !lex_less(a, a, less),
{
    assert forall|k: int| !#[trigger] decides_at(a, a, less, k) by {
        if 0 <= k < a.len() {
            assert(!less(a[k], a[k]));
        }
    }
}

/// If `a` comes before `b` and `b` before `c`, then `a` comes before `c`.
pub proof fn lemma_lex_transitive<T>(a: Seq<T>, b: Seq<T>, c: Seq<T>, less: spec_fn(T, T) -> bool)
    requires
        transitive(less),
        lex_less(a, b, less),
        lex_less(b, c, less),
    ensures
        lex_less(a, c, less),
{
    let k1 = choose|k: int| #[trigger] decides_at(a, b, less, k);
    let k2 = choose|k: int| #[trigger] decides_at(b, c, less, k);
    if k1 < k2 {
        assert(decides_at(a, c, less, k1));
    } else if k2 < k1 {
        assert(decides_at(a, c, less, k2));
    } else {
        assert(less(b[k1], c[k1]));
        if k1 < a.len() {
            assert(less(a[k1], b[k1]) && less(b[k1], c[k1]));
        }
        assert(decides_at(a, c, less, k1));
    }
}

/// Of two different sequences one comes before the other.
pub proof fn lemma_lex_connected<T>(a: Seq<T>, b: Seq<T>, less: spec_fn(T, T) -> bool)
    requires
        connected(less),
    ensures
        a == b || lex_less(a, b, less) || lex_less(b, a, less),
{
    let k = first_difference(a, b);
    if k == a.len() && k == b.len() {
        assert(a =~= b);
    } else if k == a.len() {
        assert(decides_at(a, b, less, k));
    } else if k == b.len() {
        assert(agree_before(b, a, k));
        assert(decides_at(b, a, less, k));
    } else {
        assert(agree_before(b, a, k));
        if less(a[k], b[k]) {
            assert(decides_at(a, b, less, k));
        } else {
            assert(less(b[k], a[k]));
            assert(decides_at(b, a, less, k));
        }
    }
}

/// Two sequences never come before each other.
pub proof fn lemma_lex_asymmetric<T>(a: Seq<T>, b: Seq<T>, less: spec_fn(T, T) -> bool)
    requires
        irreflexive(less),
        transitive(less),
    ensures
        !(lex_less(a, b, less) && lex_less(b, a, less)),
{
    if lex_less(a, b, less) && lex_less(b, a, less) {
        lemma_lex_transitive(a, b, a, less);
        lemma_lex_irreflexive(a, less);
    }
}

/// Where `a` and `b` agree before `k` and differ at `k`, position `k` alone
/// settles their order.
pub proof fn lemma_lex_decided_at<T>(a: Seq<T>, b: Seq<T>, less: spec_fn(T, T) -> bool, k: int)
    requires
        irreflexive(less),
        agree_before(a, b, k),
        k == a.len() || k == b.len() || a[k] != b[k],
    ensures
        lex_less(a, b, less) <==> k < b.len() && (k == a.len() || less(a[k], b[k])),
{
    if k < b.len() && (k == a.len() || less(a[k], b[k])) {
        assert(decides_at(a, b, less, k));
    } else {
        assert forall|j: int| !#[trigger] decides_at(a, b, less, j) by {
            if decides_at(a, b, less, j) {
                if j < k {
                    assert(a[j] == b[j]);
                    assert(!less(a[j], a[j]));
                } else if j > k {
                    assert(a[k] == b[k]);
                }
            }
        }
    }
}

} // verus!
