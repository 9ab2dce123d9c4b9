//! From the folders that were asked for to the tasks of a run: each folder
//! once, however often and however it was written, numbered from one.

use itertools::Itertools;
use std::path::PathBuf;
use vstd::prelude::*;
use crate::names::names;

verus! {

/// One folder to archive, with its number in the run and the number of
/// folders in the run.
#[derive(Clone, Debug, PartialEq, Eq)]
pub struct FolderTask {
    pub folder: String,
    pub index: usize,
    pub total: usize,
}

/// What a task stands for.
pub struct FolderTaskView {
    pub folder: Seq<char>,
    pub index: nat,
    pub total: nat,
}

impl View for FolderTask {
    type V = FolderTaskView;

    open spec fn view(&self) -> FolderTaskView {
        FolderTaskView { folder: self.folder@, index: self.index as nat, total: self.total as nat }
    }
}

/// Whether `==` of `std::path::PathBuf` holds of the paths that the texts
/// `a` and `b` spell, in the path syntax that the library is built for.
pub uninterp spec fn same_path(a: Seq<char>, b: Seq<char>) -> bool;

/// One of `kept` is the same path as `path`.
pub open spec fn holds_path(kept: Seq<Seq<char>>, path: Seq<char>) -> bool {
    exists|i: int| 0 <= i < kept.len() && same_path(#[trigger] kept[i], path)
}

/// The folders of `s` without repetitions: a folder is kept as it is
/// written unless one that is kept already is the same path.
pub open spec fn first_paths(s: Seq<Seq<char>>) -> Seq<Seq<char>>
    decreases s.len(),
{
    if s.len() == 0 {
        s
    } else if holds_path(first_paths(s.drop_last()), s.last()) {
        first_paths(s.drop_last())
    } else {
        first_paths(s.drop_last()).push(s.last())
    }
}

/// What `Eq` promises of path equality: every path is the same as itself,
/// two paths are the same whichever is named first, and two paths that are
/// the same as a third are the same.
pub open spec fn path_equality_is_equivalence() -> bool {
    &&& forall|a: Seq<char>| #[trigger] same_path(a, a)
    &&& forall|a: Seq<char>, b: Seq<char>| #[trigger] same_path(a, b) ==> same_path(b, a)
    &&& forall|a: Seq<char>, b: Seq<char>, c: Seq<char>|
        #[trigger] same_path(a, b) && #[trigger] same_path(b, c) ==> same_path(a, c)
}

/// The tasks of a run over `folders`: one for each, in order, numbered from
/// one, each knowing how many there are.
pub open spec fn tasks_for(folders: Seq<Seq<char>>) -> Seq<FolderTaskView> {
    Seq::new(
        folders.len(),
        |i: int| FolderTaskView { folder: folders[i], index: (i + 1) as nat, total: folders.len() },
    )
}

/// What each task of a vector stands for.
pub open spec fn task_views(tasks: Seq<FolderTask>) -> Seq<FolderTaskView> {
    tasks.map_values(|task: FolderTask| task@)
}

/// `itertools::Itertools::unique`, run over the folders as paths and
/// collected as text again. The adaptor keeps the paths that it has handed
/// on in a hash map, hands an item on when the map holds no path equal to
/// it, and drops it otherwise; equality is `==` of `std::path::PathBuf`,
/// which compares paths by their components and holds whichever of two
/// paths is asked first. A path made from text gives the same text back.
/// So what comes out is each folder as it is written unless one that came
/// out before is the same path, and no two that come out are the same path.
#[verifier::external_body]
fn unique_paths(folders: Vec<String>) -> (kept: Vec<String>)
    ensures
        names(kept@) == first_paths(names(folders@)),
        forall|i: int, j: int|
            0 <= i < j < kept.len() ==> !same_path(#[trigger] kept[i]@, #[trigger] kept[j]@),
{
    folders
        .into_iter()
        .map(PathBuf::from)
        .unique()
        .map(|path| path.to_string_lossy().into_owned())
        .collect()
}

/// Numbers the folders of a run.
pub fn number_tasks(folders: Vec<String>) -> (tasks: Vec<FolderTask>)
    ensures
        task_views(tasks@) == tasks_for(names(folders@)),
{
    let total = folders.len();
    let mut tasks: Vec<FolderTask> = Vec::new();
    let mut i: usize = 0;
    while i < total
        invariant
            i <= total,
            total == folders.len(),
            task_views(tasks@) == tasks_for(names(folders@)).take(i as int),
        decreases total - i,
    {
        let ghost before = tasks@;
        let task = FolderTask { folder: folders[i].clone(), index: i + 1, total };
        tasks.push(task);
        assert(task_views(tasks@) =~= task_views(before).push(task@));
        i = i + 1;
        assert(task_views(tasks@) =~= tasks_for(names(folders@)).take(i as int));
    }
    assert(tasks_for(names(folders@)).take(total as int) =~= tasks_for(names(folders@)));
    tasks
}

/// The tasks of a run: of folders that are the same path the one that was
/// named first is kept, and what is left is numbered.
pub fn plan_tasks(folders: Vec<String>) -> (tasks: Vec<FolderTask>)
    ensures
        task_views(tasks@) == tasks_for(first_paths(names(folders@))),
{
    let kept = unique_paths(folders);
    number_tasks(kept)
}

/// Every folder that is kept was named, as it is written.
pub proof fn lemma_first_paths_were_named(s: Seq<Seq<char>>, i: int)
    requires
        0 <= i < first_paths(s).len(),
    ensures
        s.contains(first_paths(s)[i]),
    decreases s.len(),
{
    if s.len() > 0 {
        let init = s.drop_last();
        if i < first_paths(init).len() {
            lemma_first_paths_were_named(init, i);
            let j = choose|j: int| 0 <= j < init.len() && init[j] == first_paths(init)[i];
            assert(s[j] == first_paths(s)[i]);
        } else {
            assert(s[s.len() - 1] == first_paths(s)[i]);
        }
    }
}

/// No two folders that are kept are the same path.
pub proof fn lemma_first_paths_differ(s: Seq<Seq<char>>, i: int, j: int)
    requires
        0 <= i < j < first_paths(s).len(),
    ensures
        !same_path(first_paths(s)[i], first_paths(s)[j]),
    decreases s.len(),
{
    let init = s.drop_last();
    if j < first_paths(init).len() {
        lemma_first_paths_differ(init, i, j);
    } else {
        assert(first_paths(init)[i] == first_paths(s)[i]);
    }
}

/// Every folder that was named is kept, or a folder that is kept is the
/// same path.
pub proof fn lemma_every_path_is_kept(s: Seq<Seq<char>>, folder: Seq<char>)
    requires
        s.contains(folder),
    ensures
        first_paths(s).contains(folder) || holds_path(first_paths(s), folder),
    decreases s.len(),
{
    let init = s.drop_last();
    let before = first_paths(init);
    let kept = first_paths(s);
    let i = choose|i: int| 0 <= i < s.len() && s[i] == folder;
    if i < init.len() {
        assert(init[i] == folder);
        lemma_every_path_is_kept(init, folder);
        if before.contains(folder) {
            let k = choose|k: int| 0 <= k < before.len() && before[k] == folder;
            assert(kept[k] == folder);
        } else {
            let k = choose|k: int| 0 <= k < before.len() && same_path(#[trigger] before[k], folder);
            assert(kept[k] == before[k]);
        }
    } else if !holds_path(before, folder) {
        assert(kept.last() == folder);
    }
}

/// Each folder that was asked for, however often and however written, has
/// exactly one task, given what `Eq` promises of path equality: one task
/// names the same path, and no other task does.
pub proof fn lemma_one_task_per_folder(folders: Seq<Seq<char>>, folder: Seq<char>) -> (at: int)
    requires
        folders.contains(folder),
    ensures
        path_equality_is_equivalence() ==> {
            &&& 0 <= at < tasks_for(first_paths(folders)).len()
            &&& same_path(tasks_for(first_paths(folders))[at].folder, folder)
            &&& forall|i: int|
                0 <= i < tasks_for(first_paths(folders)).len() && same_path(
                    #[trigger] tasks_for(first_paths(folders))[i].folder,
                    folder,
                ) ==> i == at
        },
{
    let kept = first_paths(folders);
    lemma_every_path_is_kept(folders, folder);
    if path_equality_is_equivalence() {
        let at = if kept.contains(folder) {
            choose|at: int| 0 <= at < kept.len() && kept[at] == folder
        } else {
            choose|at: int| 0 <= at < kept.len() && same_path(#[trigger] kept[at], folder)
        };
        assert(same_path(kept[at], folder));
        assert forall|i: int|
            0 <= i < kept.len() && same_path(
                #[trigger] tasks_for(kept)[i].folder,
                folder,
            ) implies i == at by {
            assert(same_path(folder, kept[at]));
            assert(same_path(kept[i], kept[at]));
            assert(same_path(kept[at], kept[i]));
            if i < at {
                lemma_first_paths_differ(folders, i, at);
            } else if at < i {
                lemma_first_paths_differ(folders, at, i);
            }
        }
        at
    } else {
        0
    }
}

} // verus!
