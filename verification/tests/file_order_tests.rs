use folder_archive::file_order::{get_sorted_child_files, sort_keys};
use folder_archive::stable_order::stable_order;
use folder_archive::sort_key::split_and_pad;

fn owned(names: &[&str]) -> Vec<String> {
    names.iter().map(|name| name.to_string()).collect()
}

#[test]
fn pages_come_out_in_numeric_order() {
    let sorted = get_sorted_child_files(owned(&["img1.jpg", "img10.jpg", "img2.jpg"]));
    assert_eq!(sorted, owned(&["img1.jpg", "img2.jpg", "img10.jpg"]));
}

#[test]
fn no_files_give_no_files() {
    assert_eq!(get_sorted_child_files(Vec::new()), Vec::<String>::new());
}

#[test]
fn one_file_stays() {
    assert_eq!(get_sorted_child_files(owned(&["cover.jpg"])), owned(&["cover.jpg"]));
}

#[test]
fn files_with_the_same_key_keep_their_order() {
    let sorted = get_sorted_child_files(owned(&["a01b", "z", "a1b", "a001b", "a0b"]));
    assert_eq!(sorted, owned(&["a0b", "a01b", "a1b", "a001b", "z"]));
    let sorted = get_sorted_child_files(owned(&["a001b", "a1b", "z", "a01b"]));
    assert_eq!(sorted, owned(&["a001b", "a1b", "a01b", "z"]));
}

#[test]
fn repeated_files_are_all_kept() {
    let sorted = get_sorted_child_files(owned(&["b", "a", "b", "a"]));
    assert_eq!(sorted, owned(&["a", "a", "b", "b"]));
}

#[test]
fn files_in_nested_folders_sort_by_every_number() {
    let sorted = get_sorted_child_files(owned(&[
        "book/ch10/page1.png",
        "book/ch2/page10.png",
        "book/ch2/page9.png",
        "book/ch1/page1.png",
    ]));
    assert_eq!(
        sorted,
        owned(&[
            "book/ch1/page1.png",
            "book/ch2/page9.png",
            "book/ch2/page10.png",
            "book/ch10/page1.png",
        ])
    );
}

#[test]
fn stable_order_lists_the_positions_by_key() {
    let files = owned(&["img1.jpg", "img10.jpg", "img2.jpg"]);
    let keys = sort_keys(&files);
    assert_eq!(keys.len(), 3);
    assert_eq!(keys[1], split_and_pad("img10.jpg"));
    assert_eq!(stable_order(&keys), vec![0, 2, 1]);
}

#[test]
fn stable_order_is_a_rearrangement() {
    let mut files: Vec<String> = Vec::new();
    let mut state: u32 = 12345;
    for _ in 0..200 {
        state = state.wrapping_mul(1103515245).wrapping_add(12345);
        files.push(format!("p{}q{}.x", (state >> 16) % 7, (state >> 8) % 13));
    }
    let keys = sort_keys(&files);
    let mut order = stable_order(&keys);
    order.sort();
    assert_eq!(order, (0..200).collect::<Vec<usize>>());
}

#[test]
fn natural_order_is_the_stable_sort_by_key() {
    let mut files: Vec<String> = Vec::new();
    let mut state: u32 = 2024;
    for _ in 0..300 {
        state = state.wrapping_mul(1664525).wrapping_add(1013904223);
        let zeros = "0".repeat(((state >> 4) % 3) as usize);
        let folder = (state >> 20) % 4;
        let number = (state >> 12) % 30;
        files.push(format!("d{}/f{}{}-{}.png", folder, zeros, number, state % 3));
    }
    let mut expected = files.clone();
    expected.sort_by(|a, b| {
        let left: Vec<String> =
            split_and_pad(a).segments.iter().map(|s| s.iter().collect()).collect();
        let right: Vec<String> =
            split_and_pad(b).segments.iter().map(|s| s.iter().collect()).collect();
        left.cmp(&right)
    });
    assert_eq!(get_sorted_child_files(files), expected);
}
