//! The order in which the files of a folder go into its archive: ascending by
//! sort key, files with the same key in the order in which they were found.

use vstd::prelude::*;
use crate::key_order::path_le;
use crate::names::names;
use crate::sort_key::{sort_key, split_and_pad, SortKey};
use crate::stable_order::{
    goes_before, is_stable_order, key_views, lemma_stable_order_exists,
    lemma_stable_order_is_permutation, lemma_stable_order_unique, positions, stable_order,
    stable_order_of,
};

verus! {

/// The sort key of each name.
pub open spec fn keys_of(files: Seq<Seq<char>>) -> Seq<Seq<Seq<char>>> {
    files.map_values(|name: Seq<char>| sort_key(name))
}

/// `files` taken in the order that `order` gives.
pub open spec fn arranged(files: Seq<Seq<char>>, order: Seq<int>) -> Seq<Seq<char>> {
    Seq::new(order.len(), |i: int| files[order[i]])
}

/// The names `files` in natural order: ascending by sort key, names with the
/// same key in the order in which `files` holds them.
pub open spec fn natural_sort(files: Seq<Seq<char>>) -> Seq<Seq<char>> {
    arranged(files, stable_order_of(keys_of(files)))
}

/// Any stable order of the keys of `files` arranges them into their natural
/// order.
pub proof fn lemma_natural_sort_by(files: Seq<Seq<char>>, order: Seq<int>)
    requires
        is_stable_order(order, keys_of(files)),
    ensures
        natural_sort(files) == arranged(files, order),
{
    lemma_stable_order_unique(keys_of(files), order, stable_order_of(keys_of(files)));
}

/// The natural order holds as many names as were given, the keys never
/// descend along it, and it is the given names rearranged: each place of
/// `files` is taken up exactly once.
pub proof fn lemma_natural_sort_ascends(files: Seq<Seq<char>>)
    ensures
        natural_sort(files).len() == files.len(),
        forall|i: int, j: int|
            0 <= i < j < files.len() ==> path_le(
                #[trigger] natural_sort(files)[i],
                #[trigger] natural_sort(files)[j],
            ),
        is_stable_order(stable_order_of(keys_of(files)), keys_of(files)),
        stable_order_of(keys_of(files)).no_duplicates(),
        forall|p: int| 0 <= p < files.len() ==> stable_order_of(keys_of(files)).contains(p),
{
    let keys = keys_of(files);
    let some_order = lemma_stable_order_exists(keys);
    let order = stable_order_of(keys);
    lemma_stable_order_is_permutation(keys, order);
    assert forall|i: int, j: int| 0 <= i < j < files.len() implies path_le(
        #[trigger] natural_sort(files)[i],
        #[trigger] natural_sort(files)[j],
    ) by {
        assert(goes_before(keys, order[i], order[j]));
        assert(0 <= order[i] < files.len() && 0 <= order[j] < files.len());
    }
}

/// The sort key of each name.
pub fn sort_keys(files: &Vec<String>) -> (keys: Vec<SortKey>)
    ensures
        key_views(keys@) == keys_of(names(files@)),
{
    let mut keys: Vec<SortKey> = Vec::new();
    let mut i: usize = 0;
    while i < files.len()
        invariant
            i <= files.len(),
            key_views(keys@) == keys_of(names(files@)).take(i as int),
        decreases files.len() - i,
    {
        let ghost before = keys@;
        let key = split_and_pad(files[i].as_str());
        keys.push(key);
        assert(key_views(keys@) =~= key_views(before).push(sort_key(files@[i as int]@)));
        i = i + 1;
        assert(key_views(keys@) =~= keys_of(names(files@)).take(i as int));
    }
    assert(keys_of(names(files@)).take(files.len() as int) =~= keys_of(names(files@)));
    keys
}

/// Puts the files of a folder into the order in which they are archived:
/// ascending by sort key, files with the same key in the order given.
pub fn get_sorted_child_files(files: Vec<String>) -> (sorted: Vec<String>)
    ensures
        names(sorted@) == natural_sort(names(files@)),
{
    let keys = sort_keys(&files);
    let order = stable_order(&keys);
    let ghost wanted = natural_sort(names(files@));
    proof {
        lemma_natural_sort_ascends(names(files@));
    }
    let mut sorted: Vec<String> = Vec::new();
    let mut i: usize = 0;
    while i < order.len()
        invariant
            i <= order.len(),
            order.len() == files.len(),
            positions(order@) == stable_order_of(keys_of(names(files@))),
            is_stable_order(positions(order@), keys_of(names(files@))),
            wanted == natural_sort(names(files@)),
            names(sorted@) == wanted.take(i as int),
        decreases order.len() - i,
    {
        let ghost before = sorted@;
        let from = order[i];
        assert(0 <= positions(order@)[i as int] < files.len());
        let name = files[from].clone();
        sorted.push(name);
        assert(names(sorted@) =~= names(before).push(files@[from as int]@));
        i = i + 1;
        assert(names(sorted@) =~= wanted.take(i as int));
    }
    assert(wanted.take(order.len() as int) =~= wanted);
    sorted
}

} // verus!
