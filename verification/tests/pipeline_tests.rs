use folder_archive::dispatch::{plan_tasks, FolderTask};
use folder_archive::entries::Entry;
use folder_archive::options::Options;
use folder_archive::pipeline::{archiver_arguments, Answer, ArchiveJob, Request, Stage};
use folder_archive::report::ArchiveError;
use folder_archive::target::{archive_target, check_extension};

fn owned(names: &[&str]) -> Vec<String> {
    names.iter().map(|name| name.to_string()).collect()
}

fn task(folder: &str, index: usize, total: usize) -> FolderTask {
    FolderTask { folder: folder.to_string(), index, total }
}

fn options(delete: bool, extension: &str) -> Options {
    Options {
        verbose: false,
        recursive: false,
        delete,
        extension: extension.to_string(),
        folders: Vec::new(),
    }
}

fn job(folder: &str, delete: bool) -> ArchiveJob {
    ArchiveJob::with_target(task(folder, 1, 1), delete, format!("{}.cbz", folder))
}

fn checked() -> Answer {
    Answer::FolderChecked { exists: true, is_dir: true }
}

fn found(path: &str, is_dir: bool) -> Entry {
    Entry { path: path.to_string(), is_dir }
}

fn collected(files: &[&str]) -> Answer {
    Answer::FilesCollected { entries: files.iter().map(|file| found(file, false)).collect() }
}

fn archived(success: bool, target_exists: bool) -> Answer {
    let status = if success { "exit status: 0" } else { "exit status: 12" };
    Answer::ArchiverReturned { success, target_exists, status: status.to_string() }
}

/// A disk that holds the folders named in `folders`, on which the archiver
/// works for the folders named in `archivable`. Returns the requests made.
fn drive(mut job: ArchiveJob, folders: &[&str], archivable: &[&str]) -> Vec<Request> {
    let mut requests = vec![job.first_request()];
    loop {
        let answer = match requests.last().unwrap() {
            Request::CheckFolder { folder } => {
                let there = folders.contains(&folder.as_str());
                Answer::FolderChecked { exists: there, is_dir: there }
            }
            Request::CollectFiles { folder, .. } => Answer::FilesCollected {
                entries: vec![
                    found(folder, true),
                    found(&format!("{}/img1.jpg", folder), false),
                    found(&format!("{}/img10.jpg", folder), false),
                    found(&format!("{}/img2.jpg", folder), false),
                ],
            },
            Request::CreateArchive { target, .. } => {
                let works = archivable.iter().any(|folder| format!("{}.cbz", folder) == *target);
                archived(works, works)
            }
            Request::DeleteFolder { .. } => Answer::FolderDeleted { error: None },
            Request::Done { .. } | Request::Failed { .. } => {
                assert_eq!(job.stage(), Stage::Finished);
                return requests;
            }
        };
        assert!(job.accepts(&answer));
        requests.push(job.answer(answer));
        assert!(requests.len() < 10);
    }
}

#[test]
fn new_job_asks_for_its_folder_to_be_checked() {
    let job = job("/books/vol1", false);
    assert_eq!(job.stage(), Stage::Validating);
    assert_eq!(job.first_request(), Request::CheckFolder { folder: "/books/vol1".to_string() });
}

#[test]
fn missing_folder_fails_the_task() {
    let mut job = job("/nowhere", true);
    let request = job.answer(Answer::FolderChecked { exists: false, is_dir: false });
    assert_eq!(
        request,
        Request::Failed {
            error: ArchiveError::PathNotFound { folder: "/nowhere".to_string() },
            notice: "[1 / 1] /nowhere doesn't exist".to_string(),
        }
    );
    assert_eq!(job.stage(), Stage::Finished);
}

#[test]
fn file_in_place_of_a_folder_fails_the_task() {
    let mut job = job("/etc/hosts", false);
    let request = job.answer(Answer::FolderChecked { exists: true, is_dir: false });
    assert_eq!(
        request,
        Request::Failed {
            error: ArchiveError::NotADirectory { folder: "/etc/hosts".to_string() },
            notice: "[1 / 1] /etc/hosts is not a directory".to_string(),
        }
    );
    assert_eq!(job.stage(), Stage::Finished);
}

#[test]
fn checked_folder_is_announced_and_collected() {
    let mut job = ArchiveJob::with_target(task("/books/vol1", 3, 12), false, "t".to_string());
    let request = job.answer(checked());
    assert_eq!(
        request,
        Request::CollectFiles {
            folder: "/books/vol1".to_string(),
            notice: "[3 / 12] Starting \"/books/vol1\"...".to_string(),
        }
    );
    assert_eq!(job.stage(), Stage::Collecting);
}

#[test]
fn archive_holds_the_files_in_natural_order_and_the_folder_stays() {
    let mut job = job("/scans", false);
    job.answer(checked());
    let request =
        job.answer(collected(&["/scans/img1.jpg", "/scans/img10.jpg", "/scans/img2.jpg"]));
    assert_eq!(
        request,
        Request::CreateArchive {
            target: "/scans.cbz".to_string(),
            files: owned(&["/scans/img1.jpg", "/scans/img2.jpg", "/scans/img10.jpg"]),
        }
    );
    assert_eq!(job.stage(), Stage::Archiving);
    let request = job.answer(archived(true, true));
    assert_eq!(request, Request::Done { notice: "[1 / 1] Finished \"/scans\"...".to_string() });
    assert_eq!(job.stage(), Stage::Finished);
}

#[test]
fn directories_found_below_the_folder_do_not_go_into_the_archive() {
    let mut job = job("/scans", false);
    job.answer(checked());
    let request = job.answer(Answer::FilesCollected {
        entries: vec![
            found("/scans", true),
            found("/scans/b", true),
            found("/scans/b/2.png", false),
            found("/scans/a", true),
            found("/scans/a/10.png", false),
            found("/scans/a/9.png", false),
        ],
    });
    assert_eq!(
        request,
        Request::CreateArchive {
            target: "/scans.cbz".to_string(),
            files: owned(&["/scans/a/9.png", "/scans/a/10.png", "/scans/b/2.png"]),
        }
    );
}

#[test]
fn folder_is_removed_once_the_archive_is_there() {
    let requests = drive(job("/scans", true), &["/scans"], &["/scans"]);
    assert_eq!(requests.len(), 5);
    assert_eq!(
        requests[2],
        Request::CreateArchive {
            target: "/scans.cbz".to_string(),
            files: owned(&["/scans/img1.jpg", "/scans/img2.jpg", "/scans/img10.jpg"]),
        }
    );
    assert_eq!(requests[3], Request::DeleteFolder { folder: "/scans".to_string() });
    assert_eq!(requests[4], Request::Done { notice: "[1 / 1] Finished \"/scans\"...".to_string() });
}

#[test]
fn folder_is_kept_when_removal_is_off() {
    let requests = drive(job("/scans", false), &["/scans"], &["/scans"]);
    assert_eq!(requests.len(), 4);
    assert!(requests.iter().all(|request| !matches!(request, Request::DeleteFolder { .. })));
    assert!(matches!(requests[3], Request::Done { .. }));
}

#[test]
fn failed_archiver_never_leads_to_removal() {
    for delete in [false, true] {
        for (success, target_exists) in [(false, false), (false, true), (true, false)] {
            let mut job = job("/scans", delete);
            job.answer(checked());
            job.answer(collected(&["/scans/a.png"]));
            let request = job.answer(archived(success, target_exists));
            let status = if success { "exit status: 0" } else { "exit status: 12" };
            assert_eq!(
                request,
                Request::Failed {
                    error: ArchiveError::ArchiveCreationFailed {
                        target: "/scans.cbz".to_string(),
                        status: status.to_string(),
                    },
                    notice: format!("[1 / 1] Problem creating /scans.cbz: {}", status),
                }
            );
            assert_eq!(job.stage(), Stage::Finished);
            assert!(!job.accepts(&Answer::FolderDeleted { error: None }));
        }
    }
}

#[test]
fn failed_removal_fails_the_task() {
    let mut job = job("/scans", true);
    job.answer(checked());
    job.answer(collected(&[]));
    assert_eq!(
        job.answer(archived(true, true)),
        Request::DeleteFolder { folder: "/scans".to_string() }
    );
    assert_eq!(job.stage(), Stage::Deleting);
    let request =
        job.answer(Answer::FolderDeleted { error: Some("Permission denied".to_string()) });
    assert_eq!(
        request,
        Request::Failed {
            error: ArchiveError::DeletionFailed {
                folder: "/scans".to_string(),
                reason: "Permission denied".to_string(),
            },
            notice: "[1 / 1] Problem deleting /scans: Permission denied".to_string(),
        }
    );
    assert_eq!(job.stage(), Stage::Finished);
}

#[test]
fn job_accepts_only_the_answer_to_its_request() {
    let answers = [
        Answer::FolderChecked { exists: true, is_dir: true },
        Answer::FilesCollected { entries: Vec::new() },
        Answer::ArchiverReturned { success: true, target_exists: true, status: String::new() },
        Answer::FolderDeleted { error: None },
    ];
    let mut job = job("/scans", true);
    for step in 0..4 {
        for (i, answer) in answers.iter().enumerate() {
            assert_eq!(job.accepts(answer), i == step);
        }
        job.answer(answers[step].clone());
    }
    assert_eq!(job.stage(), Stage::Finished);
    for answer in &answers {
        assert!(!job.accepts(answer));
    }
}

#[test]
fn one_bad_folder_does_not_stop_the_others() {
    let tasks = plan_tasks(owned(&["/good", "/nowhere", "/good"]));
    assert_eq!(tasks.len(), 2);
    let mut ends = Vec::new();
    for task in tasks {
        let job = ArchiveJob::new(task, &options(true, "cbz"));
        let requests = drive(job, &["/good"], &["/good"]);
        ends.push(requests.last().unwrap().clone());
    }
    assert_eq!(ends[0], Request::Done { notice: "[1 / 2] Finished \"/good\"...".to_string() });
    assert_eq!(
        ends[1],
        Request::Failed {
            error: ArchiveError::PathNotFound { folder: "/nowhere".to_string() },
            notice: "[2 / 2] /nowhere doesn't exist".to_string(),
        }
    );
}

#[test]
fn archive_goes_beside_the_folder_under_its_name() {
    assert_eq!(archive_target("/books/vol1", "cbz"), Some("/books/vol1.cbz".to_string()));
    assert_eq!(archive_target("vol1", "zip"), Some("vol1.zip".to_string()));
    assert_eq!(archive_target("/books/vol1/", "cbz"), Some("/books/vol1.cbz".to_string()));
}

#[test]
fn extension_of_the_folder_name_is_replaced() {
    assert_eq!(archive_target("/books/vol.1", "cbz"), Some("/books/vol.cbz".to_string()));
}

#[test]
fn extension_with_a_separator_gives_no_target() {
    assert_eq!(archive_target("/books/vol1", "a/b"), None);
    assert!(!check_extension("a/b"));
    assert!(!check_extension("/"));
    assert!(check_extension("cbz"));
    assert!(check_extension(""));
    assert!(check_extension("tar.gz"));
}

#[test]
fn job_of_a_run_takes_target_and_removal_from_the_options() {
    let mut job = ArchiveJob::new(task("/books/vol1", 1, 1), &options(true, "cbz"));
    assert!(job.has_target());
    job.answer(checked());
    let request = job.answer(collected(&["/books/vol1/2.png", "/books/vol1/1.png"]));
    assert_eq!(
        request,
        Request::CreateArchive {
            target: "/books/vol1.cbz".to_string(),
            files: owned(&["/books/vol1/1.png", "/books/vol1/2.png"]),
        }
    );
    assert_eq!(
        job.answer(archived(true, true)),
        Request::DeleteFolder { folder: "/books/vol1".to_string() }
    );
}

#[test]
fn job_without_a_place_for_the_archive_still_reports_a_missing_folder() {
    let mut job = ArchiveJob::new(task("/nowhere", 1, 1), &options(true, "c/bz"));
    assert!(!job.has_target());
    assert_eq!(job.first_request(), Request::CheckFolder { folder: "/nowhere".to_string() });
    let answer = Answer::FolderChecked { exists: false, is_dir: false };
    assert!(job.accepts(&answer));
    assert_eq!(
        job.answer(answer),
        Request::Failed {
            error: ArchiveError::PathNotFound { folder: "/nowhere".to_string() },
            notice: "[1 / 1] /nowhere doesn't exist".to_string(),
        }
    );
}

#[test]
fn job_without_a_place_for_the_archive_takes_no_files() {
    let mut job = ArchiveJob::new(task("/books/vol1", 1, 1), &options(false, "c/bz"));
    assert!(!job.has_target());
    let request = job.answer(checked());
    assert!(matches!(request, Request::CollectFiles { .. }));
    assert_eq!(job.stage(), Stage::Collecting);
    assert!(!job.accepts(&collected(&["/books/vol1/1.png"])));
    assert!(!job.accepts(&archived(true, true)));
}

#[test]
fn archiver_that_could_not_be_started_fails_the_task_only() {
    let mut job = job("/scans", true);
    job.answer(checked());
    job.answer(collected(&["/scans/a.png"]));
    let request = job.answer(Answer::ArchiverReturned {
        success: false,
        target_exists: false,
        status: "Failed to run 'zip': No such file or directory (os error 2)".to_string(),
    });
    assert!(matches!(
        request,
        Request::Failed { error: ArchiveError::ArchiveCreationFailed { .. }, .. }
    ));
    assert_eq!(job.stage(), Stage::Finished);
}

#[test]
fn archiver_gets_the_target_and_then_the_files() {
    let arguments = archiver_arguments(&"out.cbz".to_string(), &owned(&["a/1.png", "a/2.png"]));
    assert_eq!(arguments, owned(&["out.cbz", "a/1.png", "a/2.png"]));
    assert_eq!(archiver_arguments(&"out.cbz".to_string(), &Vec::new()), owned(&["out.cbz"]));
}
