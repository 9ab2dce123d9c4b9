//! What a resolution comes to on a tree of folders: the folders of the tree
//! that hold no folder, from left to right.

use vstd::prelude::*;
use crate::resolve::{advance, initial, ResolverView};

verus! {

/// A folder as a listing shows it: its path, and the folders inside it. A
/// path that is missing, or names a file, or a directory that cannot be read,
/// is a folder with nothing inside.
pub struct FolderTree {
    pub path: Seq<char>,
    pub inside: Seq<FolderTree>,
}

/// The folders without subfolders in and below `tree`, from left to right.
pub open spec fn leaf_folders(tree: FolderTree) -> Seq<Seq<char>>
    decreases tree,
{
    if tree.inside.len() == 0 {
        seq![tree.path]
    } else {
        leaf_folders_of(tree.inside)
    }
}

/// The folders without subfolders in and below the trees of `forest`, from
/// left to right.
pub open spec fn leaf_folders_of(forest: Seq<FolderTree>) -> Seq<Seq<char>>
    decreases forest,
{
    if forest.len() == 0 {
        Seq::empty()
    } else {
        leaf_folders(forest[0]) + leaf_folders_of(forest.drop_first())
    }
}

/// The number of folders in and below `tree`.
pub open spec fn tree_size(tree: FolderTree) -> nat
    decreases tree,
{
    1 + forest_size(tree.inside)
}

/// The number of folders in and below the trees of `forest`.
pub open spec fn forest_size(forest: Seq<FolderTree>) -> nat
    decreases forest,
{
    if forest.len() == 0 {
        0
    } else {
        tree_size(forest[0]) + forest_size(forest.drop_first())
    }
}

/// The paths of the roots of `forest`.
pub open spec fn root_paths(forest: Seq<FolderTree>) -> Seq<Seq<char>> {
    forest.map_values(|tree: FolderTree| tree.path)
}

/// The folders that are left to look at once the first folder of `forest`
/// was listed: the folders inside it, then the others.
pub open spec fn after_first(forest: Seq<FolderTree>) -> Seq<FolderTree>
    recommends
        forest.len() > 0,
{
    forest[0].inside + forest.drop_first()
}

/// The size of two forests, one after the other, is the sum of their sizes.
pub proof fn lemma_forest_size_sum(a: Seq<FolderTree>, b: Seq<FolderTree>)
    ensures
        forest_size(a + b) == forest_size(a) + forest_size(b),
    decreases a.len(),
{
    if a.len() == 0 {
        assert(a + b =~= b);
    } else {
        assert((a + b)[0] == a[0]);
        assert((a + b).drop_first() =~= a.drop_first() + b);
        lemma_forest_size_sum(a.drop_first(), b);
    }
}

/// The leaf folders of two forests, one after the other, are those of the
/// first and then those of the second.
pub proof fn lemma_leaf_folders_sum(a: Seq<FolderTree>, b: Seq<FolderTree>)
    ensures
        leaf_folders_of(a + b) == leaf_folders_of(a) + leaf_folders_of(b),
    decreases a.len(),
{
    if a.len() == 0 {
        assert(a + b =~= b);
        assert(leaf_folders_of(a) + leaf_folders_of(b) =~= leaf_folders_of(b));
    } else {
        assert((a + b)[0] == a[0]);
        assert((a + b).drop_first() =~= a.drop_first() + b);
        lemma_leaf_folders_sum(a.drop_first(), b);
        assert(leaf_folders_of(a + b) =~= leaf_folders_of(a) + leaf_folders_of(b));
    }
}

/// The state in which a resolution ends that starts in `state` with the
/// roots of `forest` pending and is given, for each folder that it asks
/// about, the folders that `forest` holds inside it.
pub open spec fn resolve_over(state: ResolverView, forest: Seq<FolderTree>) -> ResolverView
    decreases forest_size(forest),
    via resolve_over_ends
{
    if forest.len() == 0 {
        state
    } else {
        resolve_over(advance(state, root_paths(forest[0].inside)), after_first(forest))
    }
}

#[via_fn]
proof fn resolve_over_ends(state: ResolverView, forest: Seq<FolderTree>) {
    if forest.len() > 0 {
        lemma_after_first_is_smaller(forest);
    }
}

/// Listing the first folder of a forest leaves fewer folders to look at.
proof fn lemma_after_first_is_smaller(forest: Seq<FolderTree>)
    requires
        forest.len() > 0,
    ensures
        forest_size(after_first(forest)) + 1 == forest_size(forest),
{
    lemma_forest_size_sum(forest[0].inside, forest.drop_first());
    assert(tree_size(forest[0]) == 1 + forest_size(forest[0].inside));
    assert(forest_size(forest) == tree_size(forest[0]) + forest_size(forest.drop_first()));
}

/// A resolution over a forest of folders ends with nothing pending, and
/// what it finds is what it had found before and then the folders without
/// subfolders of the forest, from left to right: a folder that holds
/// folders is never among them, only the leaves below it are.
pub proof fn lemma_resolution_finds_the_leaves(state: ResolverView, forest: Seq<FolderTree>)
    requires
        state.pending == root_paths(forest),
    ensures
        resolve_over(state, forest).pending.len() == 0,
        resolve_over(state, forest).found == state.found + leaf_folders_of(forest),
    decreases forest_size(forest),
{
    if forest.len() == 0 {
        assert(state.found + leaf_folders_of(forest) =~= state.found);
    } else {
        let first = forest[0];
        let rest = forest.drop_first();
        let next = advance(state, root_paths(first.inside));
        lemma_after_first_is_smaller(forest);
        lemma_leaf_folders_sum(first.inside, rest);
        assert(state.pending.drop_first() =~= root_paths(rest));
        assert(next.pending =~= root_paths(after_first(forest)));
        lemma_resolution_finds_the_leaves(next, after_first(forest));
        assert(state.pending[0] == first.path);
        assert(leaf_folders_of(forest) == leaf_folders(first) + leaf_folders_of(rest));
        if first.inside.len() == 0 {
            assert(after_first(forest) =~= rest);
            assert(root_paths(first.inside).len() == 0);
            assert(next.found + leaf_folders_of(after_first(forest)) =~= state.found
                + leaf_folders_of(forest));
        } else {
            assert(next.found + leaf_folders_of(after_first(forest)) =~= state.found
                + leaf_folders_of(forest));
        }
    }
}

/// With recursion, resolving the roots of a forest gives the forest's leaf
/// folders; without it, the roots as they are, with nothing to list.
pub proof fn lemma_resolution_of(forest: Seq<FolderTree>, recursive: bool)
    ensures
        recursive ==> resolve_over(initial(root_paths(forest), recursive), forest).found
            == leaf_folders_of(forest),
        !recursive ==> initial(root_paths(forest), recursive).found == root_paths(forest),
        !recursive ==> initial(root_paths(forest), recursive).pending.len() == 0,
{
    if recursive {
        let start = initial(root_paths(forest), recursive);
        lemma_resolution_finds_the_leaves(start, forest);
        assert(start.found + leaf_folders_of(forest) =~= leaf_folders_of(forest));
    }
}

} // verus!
