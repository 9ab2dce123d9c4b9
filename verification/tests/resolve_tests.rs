use folder_archive::entries::{plain_files, subfolders, Entry};
use folder_archive::resolve::{Listing, Resolver};

fn owned(names: &[&str]) -> Vec<String> {
    names.iter().map(|name| name.to_string()).collect()
}

fn dir(path: &str) -> Entry {
    Entry { path: path.to_string(), is_dir: true }
}

fn file(path: &str) -> Entry {
    Entry { path: path.to_string(), is_dir: false }
}

/// A small tree of folders:
/// A holds B and C, which hold files; D holds E, which holds F, which holds
/// a file; G holds files only; H cannot be read; f is a file.
fn list(folder: &str) -> Listing {
    let children = |entries: Vec<Entry>| Listing {
        exists: true,
        is_dir: true,
        children: Some(entries),
    };
    match folder {
        "A" => children(vec![file("A/readme"), dir("A/B"), file("A/x.png"), dir("A/C")]),
        "A/B" => children(vec![file("A/B/1.png"), file("A/B/2.png")]),
        "A/C" => children(vec![file("A/C/1.png")]),
        "D" => children(vec![dir("D/E")]),
        "D/E" => children(vec![dir("D/E/F"), file("D/E/notes")]),
        "D/E/F" => children(vec![file("D/E/F/1.png")]),
        "G" => children(vec![file("G/1.png"), file("G/2.png")]),
        "empty" => children(Vec::new()),
        "H" => Listing { exists: true, is_dir: true, children: None },
        "f" => Listing { exists: true, is_dir: false, children: None },
        _ => Listing { exists: false, is_dir: false, children: None },
    }
}

fn resolve(folders: &[&str], recursive: bool) -> Vec<String> {
    let mut resolver = Resolver::new(owned(folders), recursive);
    let mut steps = 0;
    while let Some(folder) = resolver.next_folder() {
        assert!(!resolver.is_done());
        resolver.record(list(&folder));
        steps += 1;
        assert!(steps < 1000);
    }
    assert!(resolver.is_done());
    resolver.into_folders()
}

#[test]
fn folder_with_files_only_is_returned_as_it_is() {
    assert_eq!(resolve(&["G"], true), owned(&["G"]));
    assert_eq!(resolve(&["G"], false), owned(&["G"]));
}

#[test]
fn folder_with_subfolders_gives_way_to_them() {
    assert_eq!(resolve(&["A"], true), owned(&["A/B", "A/C"]));
}

#[test]
fn only_the_deepest_folder_of_a_chain_is_returned() {
    assert_eq!(resolve(&["D"], true), owned(&["D/E/F"]));
}

#[test]
fn without_recursion_the_folders_are_returned_unchanged() {
    let folders = ["A", "nowhere", "f", "D", "A"];
    assert_eq!(resolve(&folders, false), owned(&folders));
}

#[test]
fn without_recursion_nothing_is_listed() {
    let resolver = Resolver::new(owned(&["A", "D"]), false);
    assert!(resolver.is_done());
    assert_eq!(resolver.next_folder(), None);
}

#[test]
fn missing_folder_is_passed_through() {
    assert_eq!(resolve(&["nowhere"], true), owned(&["nowhere"]));
}

#[test]
fn file_is_passed_through() {
    assert_eq!(resolve(&["f"], true), owned(&["f"]));
}

#[test]
fn unreadable_folder_counts_as_a_leaf() {
    assert_eq!(resolve(&["H"], true), owned(&["H"]));
}

#[test]
fn empty_folder_is_a_leaf() {
    assert_eq!(resolve(&["empty"], true), owned(&["empty"]));
}

#[test]
fn leaves_come_in_the_order_of_the_folders_and_their_listings() {
    assert_eq!(
        resolve(&["G", "A", "nowhere", "D", "H"], true),
        owned(&["G", "A/B", "A/C", "nowhere", "D/E/F", "H"])
    );
}

#[test]
fn resolution_keeps_repetitions() {
    assert_eq!(resolve(&["A", "A/B"], true), owned(&["A/B", "A/C", "A/B"]));
}

#[test]
fn no_folders_resolve_to_none() {
    assert_eq!(resolve(&[], true), Vec::<String>::new());
    assert_eq!(resolve(&[], false), Vec::<String>::new());
}

#[test]
fn resolver_asks_for_the_folders_in_order() {
    let mut resolver = Resolver::new(owned(&["A", "G"]), true);
    assert_eq!(resolver.next_folder(), Some("A".to_string()));
    assert_eq!(resolver.next_folder(), Some("A".to_string()));
    resolver.record(list("A"));
    assert_eq!(resolver.next_folder(), Some("A/B".to_string()));
    resolver.record(list("A/B"));
    assert_eq!(resolver.next_folder(), Some("A/C".to_string()));
    resolver.record(list("A/C"));
    assert_eq!(resolver.next_folder(), Some("G".to_string()));
    resolver.record(list("G"));
    assert_eq!(resolver.next_folder(), None);
    assert_eq!(resolver.into_folders(), owned(&["A/B", "A/C", "G"]));
}

#[test]
fn subfolders_are_the_entries_that_are_directories() {
    let entries = vec![file("a"), dir("b"), dir("c"), file("d"), dir("e")];
    assert_eq!(subfolders(&entries), owned(&["b", "c", "e"]));
    assert_eq!(subfolders(&vec![file("a")]), Vec::<String>::new());
    assert_eq!(subfolders(&Vec::new()), Vec::<String>::new());
}

#[test]
fn plain_files_are_the_entries_that_are_no_directories() {
    let entries = vec![dir("a"), file("a/2"), dir("a/b"), file("a/b/1"), file("a/1")];
    assert_eq!(plain_files(&entries), owned(&["a/2", "a/b/1", "a/1"]));
    assert_eq!(plain_files(&vec![dir("a")]), Vec::<String>::new());
}

#[test]
fn entries_of_what_is_no_folder_are_not_looked_at() {
    for (exists, is_dir) in [(false, false), (true, false), (false, true)] {
        let mut resolver = Resolver::new(owned(&["x"]), true);
        resolver.record(Listing { exists, is_dir, children: Some(vec![dir("x/y")]) });
        assert!(resolver.is_done());
        assert_eq!(resolver.into_folders(), owned(&["x"]));
    }
}
