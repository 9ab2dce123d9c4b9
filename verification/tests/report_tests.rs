use folder_archive::dispatch::FolderTask;
use folder_archive::report::{decimal_string, failure_line, progress_line, ArchiveError};

fn task(folder: &str, index: usize, total: usize) -> FolderTask {
    FolderTask { folder: folder.to_string(), index, total }
}

#[test]
fn numbers_are_written_in_decimal() {
    assert_eq!(decimal_string(0), "0");
    assert_eq!(decimal_string(7), "7");
    assert_eq!(decimal_string(10), "10");
    assert_eq!(decimal_string(12345), "12345");
    assert_eq!(decimal_string(1000000), "1000000");
    assert_eq!(decimal_string(usize::MAX), usize::MAX.to_string());
}

#[test]
fn decimal_agrees_with_the_standard_rendering() {
    for n in 0..2000usize {
        assert_eq!(decimal_string(n), n.to_string());
    }
}

#[test]
fn progress_line_names_the_task_and_the_folder() {
    assert_eq!(
        progress_line(&task("/books/vol 1", 2, 10), "Starting"),
        "[2 / 10] Starting \"/books/vol 1\"..."
    );
    assert_eq!(progress_line(&task("a", 1, 1), "Finished"), "[1 / 1] Finished \"a\"...");
}

#[test]
fn progress_line_is_what_formatting_gives() {
    let t = task("x/y", 123, 4567);
    assert_eq!(
        progress_line(&t, "Starting"),
        format!("[{} / {}] Starting \"{}\"...", t.index, t.total, t.folder)
    );
}

#[test]
fn missing_folder_is_reported_by_name() {
    let error = ArchiveError::PathNotFound { folder: "/nowhere".to_string() };
    assert_eq!(error.message(), "/nowhere doesn't exist");
}

#[test]
fn file_in_place_of_a_folder_is_reported_by_name() {
    let error = ArchiveError::NotADirectory { folder: "/etc/hosts".to_string() };
    assert_eq!(error.message(), "/etc/hosts is not a directory");
}

#[test]
fn failed_archive_is_reported_with_target_and_status() {
    let error = ArchiveError::ArchiveCreationFailed {
        target: "/books/vol1.cbz".to_string(),
        status: "exit status: 12".to_string(),
    };
    assert_eq!(error.message(), "Problem creating /books/vol1.cbz: exit status: 12");
}

#[test]
fn failed_removal_is_reported_with_folder_and_reason() {
    let error = ArchiveError::DeletionFailed {
        folder: "/books/vol1".to_string(),
        reason: "Permission denied (os error 13)".to_string(),
    };
    assert_eq!(error.message(), "Problem deleting /books/vol1: Permission denied (os error 13)");
}

#[test]
fn failure_line_names_the_task_and_what_went_wrong() {
    let error = ArchiveError::PathNotFound { folder: "/nowhere".to_string() };
    assert_eq!(failure_line(&task("/nowhere", 3, 40), &error), "[3 / 40] /nowhere doesn't exist");
    let error = ArchiveError::ArchiveCreationFailed {
        target: "/a.cbz".to_string(),
        status: "exit status: 2".to_string(),
    };
    assert_eq!(
        failure_line(&task("/a", 1, 1), &error),
        "[1 / 1] Problem creating /a.cbz: exit status: 2"
    );
}
