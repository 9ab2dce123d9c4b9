//! What is found in and below a folder: paths, each known to be a directory
//! or not.

use vstd::prelude::*;
use crate::names::names;

verus! {

/// One path found in or below a folder.
#[derive(Clone, Debug, PartialEq, Eq)]
pub struct Entry {
    pub path: String,
    pub is_dir: bool,
}

/// The paths of the entries that are directories (`dirs`) or that are not
/// (`!dirs`), in order.
pub open spec fn paths_of_kind(entries: Seq<Entry>, dirs: bool) -> Seq<Seq<char>> {
    entries.filter(|entry: Entry| entry.is_dir == dirs).map_values(|entry: Entry| entry.path@)
}

/// The paths of the entries that are directories, in order.
pub open spec fn subfolder_names(entries: Seq<Entry>) -> Seq<Seq<char>> {
    paths_of_kind(entries, true)
}

/// The paths of the entries that are no directories, in order.
pub open spec fn file_names(entries: Seq<Entry>) -> Seq<Seq<char>> {
    paths_of_kind(entries, false)
}

/// The paths of the entries of one kind.
fn select(entries: &Vec<Entry>, dirs: bool) -> (paths: Vec<String>)
    ensures
        names(paths@) == paths_of_kind(entries@, dirs),
{
    let mut paths: Vec<String> = Vec::new();
    let mut i: usize = 0;
    while i < entries.len()
        invariant
            i <= entries.len(),
            names(paths@) == paths_of_kind(entries@.take(i as int), dirs),
        decreases entries.len() - i,
    {
        let ghost before = paths@;
        let ghost seen = entries@.take(i as int);
        let ghost next = entries@.take(i + 1);
        proof {
            assert(next.drop_last() =~= seen);
            assert(next.last() == entries@[i as int]);
            reveal(Seq::filter);
        }
        if entries[i].is_dir == dirs {
            let path = entries[i].path.clone();
            paths.push(path);
            assert(names(paths@) =~= names(before).push(entries@[i as int].path@));
            assert(names(paths@) =~= paths_of_kind(next, dirs));
        } else {
            assert(names(paths@) =~= paths_of_kind(next, dirs));
        }
        i = i + 1;
    }
    assert(entries@.take(entries.len() as int) =~= entries@);
    paths
}

/// The paths of the entries that are directories.
pub fn subfolders(entries: &Vec<Entry>) -> (folders: Vec<String>)
    ensures
        names(folders@) == subfolder_names(entries@),
{
    select(entries, true)
}

/// The paths of the entries that are no directories.
pub fn plain_files(entries: &Vec<Entry>) -> (files: Vec<String>)
    ensures
        names(files@) == file_names(entries@),
{
    select(entries, false)
}

} // verus!
