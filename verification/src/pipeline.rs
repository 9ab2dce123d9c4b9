//! The archiving of one folder, as a job that tells its driver what to do
//! next and takes what came of it: check the folder, collect its files, have
//! the archive made, check that it was made, and only then remove the
//! folder if that was asked for. A job whose archive has no place to go,
//! because the extension of the run holds a path separator, still checks
//! its folder and reports a folder that is not there; it goes no further
//! than that.
//!
//! A job touches nothing itself. Whoever drives it does what a request
//! says and hands back the answer.

use vstd::prelude::*;
use crate::dispatch::{FolderTask, FolderTaskView};
use crate::entries::{file_names, plain_files, Entry};
use crate::file_order::{get_sorted_child_files, natural_sort};
use crate::names::names;
use crate::options::Options;
use crate::report::{
    failure_line, failure_text, progress_line, progress_text, ArchiveError, ArchiveErrorView,
};
use crate::target::{archive_target, is_plain_extension, with_extension};

verus! {

/// How far a job has come.
#[derive(Clone, Copy, Debug, PartialEq, Eq, Structural)]
pub enum Stage {
    /// The folder is being checked.
    Validating,
    /// The files of the folder are being collected.
    Collecting,
    /// The archiver is at work.
    Archiving,
    /// The folder is being removed.
    Deleting,
    /// Nothing is left to do.
    Finished,
}

/// What a job asks its driver to do.
#[derive(Clone, Debug, PartialEq, Eq)]
pub enum Request {
    /// Find out whether the folder exists and is a directory.
    CheckFolder { folder: String },
    /// Report `notice`, then list what is below the folder, at any depth.
    CollectFiles { folder: String, notice: String },
    /// Have the archiver put `files`, in this order, into one archive at
    /// `target`, then look whether a file is there.
    CreateArchive { target: String, files: Vec<String> },
    /// Remove the folder with all that is in it.
    DeleteFolder { folder: String },
    /// The folder is archived: report `notice`.
    Done { notice: String },
    /// The task failed with `error`: report `notice`.
    Failed { error: ArchiveError, notice: String },
}

/// What a request stands for.
pub enum RequestView {
    CheckFolder { folder: Seq<char> },
    CollectFiles { folder: Seq<char>, notice: Seq<char> },
    CreateArchive { target: Seq<char>, files: Seq<Seq<char>> },
    DeleteFolder { folder: Seq<char> },
    Done { notice: Seq<char> },
    Failed { error: ArchiveErrorView, notice: Seq<char> },
}

impl View for Request {
    type V = RequestView;

    open spec fn view(&self) -> RequestView {
        match self {
            Request::CheckFolder { folder } => RequestView::CheckFolder { folder: folder@ },
            Request::CollectFiles { folder, notice } => RequestView::CollectFiles {
                folder: folder@,
                notice: notice@,
            },
            Request::CreateArchive { target, files } => RequestView::CreateArchive {
                target: target@,
                files: names(files@),
            },
            Request::DeleteFolder { folder } => RequestView::DeleteFolder { folder: folder@ },
            Request::Done { notice } => RequestView::Done { notice: notice@ },
            Request::Failed { error, notice } => RequestView::Failed {
                error: error@,
                notice: notice@,
            },
        }
    }
}

/// What came of a request.
#[derive(Clone, Debug, PartialEq, Eq)]
pub enum Answer {
    /// To `CheckFolder`.
    FolderChecked { exists: bool, is_dir: bool },
    /// To `CollectFiles`: what was found below the folder, in the order in
    /// which it was found.
    FilesCollected { entries: Vec<Entry> },
    /// To `CreateArchive`: whether the archiver reported success, whether a
    /// file is at the target now, and the archiver's status in words.
    ArchiverReturned { success: bool, target_exists: bool, status: String },
    /// To `DeleteFolder`: why the folder could not be removed, if it could
    /// not.
    FolderDeleted { error: Option<String> },
}

/// What an answer stands for. Of what was found below the folder it keeps
/// the files.
pub enum AnswerView {
    FolderChecked { exists: bool, is_dir: bool },
    FilesCollected { files: Seq<Seq<char>> },
    ArchiverReturned { success: bool, target_exists: bool, status: Seq<char> },
    FolderDeleted { error: Option<Seq<char>> },
}

impl View for Answer {
    type V = AnswerView;

    open spec fn view(&self) -> AnswerView {
        match self {
            Answer::FolderChecked { exists, is_dir } => AnswerView::FolderChecked {
                exists: *exists,
                is_dir: *is_dir,
            },
            Answer::FilesCollected { entries } => AnswerView::FilesCollected {
                files: file_names(entries@),
            },
            Answer::ArchiverReturned {
                success,
                target_exists,
                status,
            } => AnswerView::ArchiverReturned {
                success: *success,
                target_exists: *target_exists,
                status: status@,
            },
            Answer::FolderDeleted { error } => AnswerView::FolderDeleted {
                error: match error {
                    Some(reason) => Some(reason@),
                    None => None,
                },
            },
        }
    }
}

/// The archiving of one folder.
pub struct ArchiveJob {
    task: FolderTask,
    delete: bool,
    /// Where the archive goes, if it has a place to go.
    target: Option<String>,
    stage: Stage,
}

/// What a job stands for.
pub struct JobView {
    pub task: FolderTaskView,
    pub delete: bool,
    pub target: Option<Seq<char>>,
    pub stage: Stage,
}

/// The characters of a path that may be missing.
pub open spec fn text_of(path: Option<String>) -> Option<Seq<char>> {
    match path {
        Some(text) => Some(text@),
        None => None,
    }
}

impl View for ArchiveJob {
    type V = JobView;

    closed spec fn view(&self) -> JobView {
        JobView {
            task: self.task@,
            delete: self.delete,
            target: text_of(self.target),
            stage: self.stage,
        }
    }
}

/// The job `job`, moved on to `stage`.
pub open spec fn at_stage(job: JobView, stage: Stage) -> JobView {
    JobView { stage, ..job }
}

/// How a job ends that failed with `error`.
pub open spec fn failed(job: JobView, error: ArchiveErrorView) -> (JobView, RequestView) {
    (
        at_stage(job, Stage::Finished),
        RequestView::Failed { error, notice: failure_text(job.task, error) },
    )
}

/// How a job ends whose folder is archived.
pub open spec fn done(job: JobView) -> (JobView, RequestView) {
    (
        at_stage(job, Stage::Finished),
        RequestView::Done { notice: progress_text(job.task, "Finished"@) },
    )
}

/// Whether `job` can take `answer`: it answers what the job has asked at
/// its stage, and where the job is to go on to the archive, the archive has
/// a place to go.
pub open spec fn expects(job: JobView, answer: AnswerView) -> bool {
    match answer {
        AnswerView::FolderChecked { .. } => job.stage == Stage::Validating,
        AnswerView::FilesCollected { .. } => job.stage == Stage::Collecting && job.target is Some,
        AnswerView::ArchiverReturned { .. } => job.stage == Stage::Archiving && job.target is Some,
        AnswerView::FolderDeleted { .. } => job.stage == Stage::Deleting,
    }
}

/// What a job does with an answer: the job afterwards, and what it asks
/// next.
pub open spec fn respond(job: JobView, answer: AnswerView) -> (JobView, RequestView) {
    let folder = job.task.folder;
    match answer {
        AnswerView::FolderChecked { exists, is_dir } => if !exists {
            failed(job, ArchiveErrorView::PathNotFound { folder })
        } else if !is_dir {
            failed(job, ArchiveErrorView::NotADirectory { folder })
        } else {
            (
                at_stage(job, Stage::Collecting),
                RequestView::CollectFiles { folder, notice: progress_text(job.task, "Starting"@) },
            )
        },
        AnswerView::FilesCollected { files } => (
            at_stage(job, Stage::Archiving),
            RequestView::CreateArchive { target: job.target->0, files: natural_sort(files) },
        ),
        AnswerView::ArchiverReturned { success, target_exists, status } => if !success
            || !target_exists {
            failed(job, ArchiveErrorView::ArchiveCreationFailed { target: job.target->0, status })
        } else if job.delete {
            (at_stage(job, Stage::Deleting), RequestView::DeleteFolder { folder })
        } else {
            done(job)
        },
        AnswerView::FolderDeleted { error } => match error {
            Some(reason) => failed(job, ArchiveErrorView::DeletionFailed { folder, reason }),
            None => done(job),
        },
    }
}

/// How many steps of a job lie before `stage`.
pub open spec fn stage_rank(stage: Stage) -> nat {
    match stage {
        Stage::Validating => 0,
        Stage::Collecting => 1,
        Stage::Archiving => 2,
        Stage::Deleting => 3,
        Stage::Finished => 4,
    }
}

/// Whether `answer` tells of an archive that was made: the archiver
/// reported success, and a file is at the target.
pub open spec fn archive_made(answer: AnswerView) -> bool {
    answer matches AnswerView::ArchiverReturned { success, target_exists, .. } && success
        && target_exists
}

/// Whether `answer` tells of an archive that was not made: the archiver
/// reported no success, or no file is at the target.
pub open spec fn archive_failed(answer: AnswerView) -> bool {
    answer matches AnswerView::ArchiverReturned { success, target_exists, .. } && (!success
        || !target_exists)
}

/// What a job asks in the course of a run in which it is given `answers`
/// one after the other: one request for each answer, up to the first answer
/// that it cannot take.
pub open spec fn requests_for(job: JobView, answers: Seq<AnswerView>) -> Seq<RequestView>
    decreases answers.len(),
{
    if answers.len() == 0 || !expects(job, answers[0]) {
        Seq::empty()
    } else {
        seq![respond(job, answers[0]).1] + requests_for(
            respond(job, answers[0]).0,
            answers.drop_first(),
        )
    }
}

/// A job asks for the folder's removal in answer to one thing only: the
/// report of an archiver that succeeded and left a file at the target, when
/// removal is switched on. With every answer it moves on to a later stage,
/// and the task, the target and the switch stay as they are.
pub proof fn lemma_removal_follows_success(job: JobView, answer: AnswerView)
    requires
        expects(job, answer),
    ensures
        respond(job, answer).1 is DeleteFolder <==> job.delete && archive_made(answer),
        respond(job, answer).1 is DeleteFolder <==> respond(job, answer).0.stage == Stage::Deleting,
        stage_rank(respond(job, answer).0.stage) > stage_rank(job.stage),
        respond(job, answer).0 == at_stage(job, respond(job, answer).0.stage),
{
}

/// A finished job takes no answer, a job whose archive has no place to go
/// takes no files, and a job is finished as soon as it has reported how the
/// task ended.
pub proof fn lemma_finished_is_final(job: JobView, answer: AnswerView)
    ensures
        job.stage == Stage::Finished ==> !expects(job, answer),
        job.target is None ==> !(expects(job, answer) && answer is FilesCollected),
        expects(job, answer) ==> (respond(job, answer).0.stage == Stage::Finished <==> (
        respond(job, answer).1 is Done || respond(job, answer).1 is Failed)),
{
}

/// Where the archive of a folder was not made, the job never asks for the
/// folder's removal, whether removal is switched on or not: in a run in
/// which answer `i` tells of the failure, the request made then reports it
/// and is the last one, and no request of the run is for a removal.
pub proof fn lemma_no_removal_after_failure(job: JobView, answers: Seq<AnswerView>, i: int)
    requires
        0 <= i < requests_for(job, answers).len(),
        i < answers.len(),
        archive_failed(answers[i]),
    ensures
        requests_for(job, answers).len() == i + 1,
        requests_for(job, answers)[i] matches RequestView::Failed {
            error: ArchiveErrorView::ArchiveCreationFailed { .. },
            ..
        },
        forall|k: int|
            0 <= k < requests_for(job, answers).len() ==> !(#[trigger] requests_for(
                job,
                answers,
            )[k] is DeleteFolder),
        stage_rank(job.stage) <= stage_rank(Stage::Archiving),
    decreases answers.len(),
{
    let first = respond(job, answers[0]);
    let rest = answers.drop_first();
    let later = requests_for(first.0, rest);
    let all = requests_for(job, answers);
    assert(all =~= seq![first.1] + later);
    lemma_removal_follows_success(job, answers[0]);
    if i == 0 {
        assert(first.0.stage == Stage::Finished);
        if rest.len() > 0 {
            lemma_finished_is_final(first.0, rest[0]);
        }
        assert(later.len() == 0);
    } else {
        assert(rest[i - 1] == answers[i]);
        lemma_no_removal_after_failure(first.0, rest, i - 1);
        assert forall|k: int| 0 <= k < all.len() implies !(#[trigger] all[k] is DeleteFolder) by {
            if k > 0 {
                assert(all[k] == later[k - 1]);
            }
        }
    }
}

/// A job is over after four answers at most: from any stage on, it makes no
/// more requests than there are stages left.
pub proof fn lemma_run_is_short(job: JobView, answers: Seq<AnswerView>)
    ensures
        requests_for(job, answers).len() + stage_rank(job.stage) <= stage_rank(Stage::Finished),
    decreases answers.len(),
{
    if answers.len() > 0 && expects(job, answers[0]) {
        lemma_removal_follows_success(job, answers[0]);
        lemma_run_is_short(respond(job, answers[0]).0, answers.drop_first());
    }
}

/// The run of a new job whose folder is missing or is no directory: the job
/// reports that and asks for nothing else, whatever it is told afterwards.
pub proof fn lemma_run_without_folder(job: JobView, answers: Seq<AnswerView>)
    requires
        job.stage == Stage::Validating,
        answers.len() > 0,
        answers[0] matches AnswerView::FolderChecked { exists, is_dir } && !(exists && is_dir),
    ensures
        requests_for(job, answers) == seq![respond(job, answers[0]).1],
        requests_for(job, answers)[0] matches RequestView::Failed { error, .. } && (error
            == ArchiveErrorView::PathNotFound { folder: job.task.folder } || error
            == ArchiveErrorView::NotADirectory { folder: job.task.folder }),
{
    let next = respond(job, answers[0]).0;
    let rest = answers.drop_first();
    assert(next.stage == Stage::Finished);
    if rest.len() > 0 {
        lemma_finished_is_final(next, rest[0]);
    }
    assert(requests_for(next, rest).len() == 0);
    assert(requests_for(job, answers) =~= seq![respond(job, answers[0]).1]);
}

/// The run of a new job whose folder is there but whose archive has no
/// place to go: the job announces the start and asks for what is below the
/// folder, and takes nothing after that.
pub proof fn lemma_run_without_target(job: JobView, answers: Seq<AnswerView>)
    requires
        job.stage == Stage::Validating,
        job.target is None,
        answers.len() > 0,
        answers[0] == (AnswerView::FolderChecked { exists: true, is_dir: true }),
    ensures
        requests_for(job, answers) == seq![
            RequestView::CollectFiles {
                folder: job.task.folder,
                notice: progress_text(job.task, "Starting"@),
            },
        ],
{
    let next = respond(job, answers[0]).0;
    let rest = answers.drop_first();
    assert(next.stage == Stage::Collecting && next.target is None);
    assert(requests_for(next, rest).len() == 0);
    assert(requests_for(job, answers) =~= seq![respond(job, answers[0]).1]);
}

/// The run of a new job whose folder is there, whose archive gets made and,
/// where removal is on, whose folder gets removed: the job announces the
/// start and has the files collected, has them archived in natural order at
/// its target, has the folder removed if and only if removal is on, and
/// announces the end.
pub proof fn lemma_successful_run(job: JobView, files: Seq<Seq<char>>, status: Seq<char>)
    requires
        job.stage == Stage::Validating,
        job.target is Some,
    ensures
        ({
            let folder = job.task.folder;
            let collect = RequestView::CollectFiles {
                folder,
                notice: progress_text(job.task, "Starting"@),
            };
            let create = RequestView::CreateArchive {
                target: job.target->0,
                files: natural_sort(files),
            };
            let remove = RequestView::DeleteFolder { folder };
            let done = RequestView::Done { notice: progress_text(job.task, "Finished"@) };
            let answers = seq![
                AnswerView::FolderChecked { exists: true, is_dir: true },
                AnswerView::FilesCollected { files },
                AnswerView::ArchiverReturned { success: true, target_exists: true, status },
                AnswerView::FolderDeleted { error: None },
            ];
            requests_for(job, answers) == if job.delete {
                seq![collect, create, remove, done]
            } else {
                seq![collect, create, done]
            }
        }),
{
    let answers = seq![
        AnswerView::FolderChecked { exists: true, is_dir: true },
        AnswerView::FilesCollected { files },
        AnswerView::ArchiverReturned { success: true, target_exists: true, status },
        AnswerView::FolderDeleted { error: None },
    ];
    let second = respond(job, answers[0]).0;
    let third = respond(second, answers[1]).0;
    let fourth = respond(third, answers[2]).0;
    let fifth = respond(fourth, answers[3]).0;
    let from_1 = answers.drop_first();
    let from_2 = from_1.drop_first();
    let from_3 = from_2.drop_first();
    let from_4 = from_3.drop_first();
    assert(from_1[0] == answers[1]);
    assert(from_2[0] == answers[2]);
    assert(from_3[0] == answers[3]);
    assert(from_4.len() == 0);
    assert(requests_for(fifth, from_4).len() == 0);
    if job.delete {
        assert(requests_for(fourth, from_3) =~= seq![respond(fourth, answers[3]).1]);
        assert(requests_for(third, from_2) =~= seq![
            respond(third, answers[2]).1,
            respond(fourth, answers[3]).1,
        ]);
    } else {
        assert(fourth.stage == Stage::Finished);
        assert(requests_for(fourth, from_3).len() == 0);
        assert(requests_for(third, from_2) =~= seq![respond(third, answers[2]).1]);
    }
    assert(requests_for(second, from_1) =~= seq![respond(second, answers[1]).1] + requests_for(
        third,
        from_2,
    ));
    assert(requests_for(job, answers) =~= seq![respond(job, answers[0]).1] + requests_for(
        second,
        from_1,
    ));
}

/// The arguments that the archiver is run with: the target, then the files.
pub fn archiver_arguments(target: &String, files: &Vec<String>) -> (arguments: Vec<String>)
    ensures
        names(arguments@) == seq![target@] + names(files@),
{
    let mut arguments: Vec<String> = Vec::new();
    arguments.push(target.clone());
    assert(names(arguments@) =~= seq![target@]);
    let mut i: usize = 0;
    while i < files.len()
        invariant
            i <= files.len(),
            names(arguments@) == seq![target@] + names(files@).take(i as int),
        decreases files.len() - i,
    {
        let ghost before = arguments@;
        let file = files[i].clone();
        arguments.push(file);
        assert(names(arguments@) =~= names(before).push(files@[i as int]@));
        i = i + 1;
        assert(names(arguments@) =~= seq![target@] + names(files@).take(i as int));
    }
    assert(names(files@).take(files.len() as int) =~= names(files@));
    arguments
}

impl ArchiveJob {
    /// A job for `task` that puts the archive at `target`.
    pub fn with_target(task: FolderTask, delete: bool, target: String) -> (job: ArchiveJob)
        ensures
            job@ == (JobView {
                task: task@,
                delete,
                target: Some(target@),
                stage: Stage::Validating,
            }),
    {
        ArchiveJob { task, delete, target: Some(target), stage: Stage::Validating }
    }

    /// A job for `task` under the settings of the run. Its archive has a
    /// place to go unless the extension holds a path separator.
    pub fn new(task: FolderTask, options: &Options) -> (job: ArchiveJob)
        ensures
            job@ == (JobView {
                task: task@,
                delete: options.delete,
                target: if is_plain_extension(options.extension@) {
                    Some(with_extension(task.folder@, options.extension@))
                } else {
                    None
                },
                stage: Stage::Validating,
            }),
    {
        let target = archive_target(task.folder.as_str(), options.extension.as_str());
        ArchiveJob { task, delete: options.delete, target, stage: Stage::Validating }
    }

    /// Whether the archive has a place to go.
    pub fn has_target(&self) -> (has: bool)
        ensures
            has == (self@.target is Some),
    {
        self.target.is_some()
    }

    /// How far the job has come.
    pub fn stage(&self) -> (stage: Stage)
        ensures
            stage == self@.stage,
    {
        self.stage
    }

    /// What a new job asks first: that its folder be checked.
    pub fn first_request(&self) -> (request: Request)
        ensures
            request@ == (RequestView::CheckFolder { folder: self@.task.folder }),
    {
        Request::CheckFolder { folder: self.task.folder.clone() }
    }

    /// Whether `answer` answers what the job has asked.
    pub fn accepts(&self, answer: &Answer) -> (accepted: bool)
        ensures
            accepted == expects(self@, answer@),
    {
        match answer {
            Answer::FolderChecked { .. } => self.stage == Stage::Validating,
            Answer::FilesCollected { .. } => self.stage == Stage::Collecting
                && self.target.is_some(),
            Answer::ArchiverReturned { .. } => self.stage == Stage::Archiving
                && self.target.is_some(),
            Answer::FolderDeleted { .. } => self.stage == Stage::Deleting,
        }
    }

    /// Where the archive goes.
    fn target_path(&self) -> (target: String)
        requires
            self@.target is Some,
        ensures
            target@ == self@.target->0,
    {
        self.target.as_ref().unwrap().clone()
    }

    /// Ends the job with `error`.
    fn fail(&mut self, error: ArchiveError) -> (request: Request)
        ensures
            (final(self)@, request@) == failed(old(self)@, error@),
    {
        self.stage = Stage::Finished;
        let notice = failure_line(&self.task, &error);
        Request::Failed { error, notice }
    }

    /// Ends the job whose folder is archived.
    fn finish(&mut self) -> (request: Request)
        ensures
            (final(self)@, request@) == done(old(self)@),
    {
        self.stage = Stage::Finished;
        Request::Done { notice: progress_line(&self.task, "Finished") }
    }

    /// Takes the answer to what the job has asked and says what is to be
    /// done next.
    pub fn answer(&mut self, answer: Answer) -> (request: Request)
        requires
            expects(old(self)@, answer@),
        ensures
            (final(self)@, request@) == respond(old(self)@, answer@),
            request@ is DeleteFolder ==> old(self)@.delete && archive_made(answer@),
    {
        match answer {
            Answer::FolderChecked { exists, is_dir } => {
                if !exists {
                    self.fail(ArchiveError::PathNotFound { folder: self.task.folder.clone() })
                } else if !is_dir {
                    self.fail(ArchiveError::NotADirectory { folder: self.task.folder.clone() })
                } else {
                    self.stage = Stage::Collecting;
                    Request::CollectFiles {
                        folder: self.task.folder.clone(),
                        notice: progress_line(&self.task, "Starting"),
                    }
                }
            },
            Answer::FilesCollected { entries } => {
                self.stage = Stage::Archiving;
                Request::CreateArchive {
                    target: self.target_path(),
                    files: get_sorted_child_files(plain_files(&entries)),
                }
            },
            Answer::ArchiverReturned { success, target_exists, status } => {
                if !success || !target_exists {
                    let target = self.target_path();
                    self.fail(ArchiveError::ArchiveCreationFailed { target, status })
                } else if self.delete {
                    self.stage = Stage::Deleting;
                    Request::DeleteFolder { folder: self.task.folder.clone() }
                } else {
                    self.finish()
                }
            },
            Answer::FolderDeleted { error } => match error {
                Some(reason) => self.fail(
                    ArchiveError::DeletionFailed { folder: self.task.folder.clone(), reason },
                ),
                None => self.finish(),
            },
        }
    }
}

} // verus!
