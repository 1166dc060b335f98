use diskonaut::state::files::file_or_folder::{EntryMetadata, FileOrFolder, Folder};

fn names(path: &str) -> Vec<String> {
    path.split('/').filter(|s| !s.is_empty()).map(|s| s.to_string()).collect()
}

fn size_at(folder: &Folder, path: &str) -> Option<u128> {
    folder.path(names(path)).map(|item| item.size())
}

#[test]
fn new_folder_is_empty() {
    let folder = Folder::new();
    assert_eq!(folder.size, 0);
    assert_eq!(folder.num_descendants, 0);
    assert!(folder.contents.is_empty());
    assert!(folder.path(names("anything")).is_none());
}

#[test]
fn add_file_at_top_level() {
    let mut folder = Folder::new();
    folder.add_file(names("a.txt"), 42);
    assert_eq!(folder.size, 42);
    assert_eq!(folder.num_descendants, 1);
    match folder.path(names("a.txt")) {
        Some(FileOrFolder::File(file)) => assert_eq!(file.size, 42),
        other => panic!("unexpected {:?}", other),
    }
}

#[test]
fn add_file_creates_missing_folders() {
    let mut folder = Folder::new();
    folder.add_file(names("a/b/c.txt"), 10);
    assert_eq!(folder.size, 10);
    assert_eq!(folder.num_descendants, 1);
    match folder.path(names("a")) {
        Some(FileOrFolder::Folder(a)) => {
            assert_eq!(a.size, 10);
            assert_eq!(a.num_descendants, 1);
        }
        other => panic!("unexpected {:?}", other),
    }
    assert_eq!(size_at(&folder, "a/b"), Some(10));
    assert_eq!(size_at(&folder, "a/b/c.txt"), Some(10));
}

#[test]
fn walk_order_counts_every_entry_once() {
    let mut folder = Folder::new();
    folder.add_folder(names("a"));
    folder.add_file(names("a/x"), 3);
    folder.add_folder(names("a/b"));
    folder.add_file(names("a/b/y"), 4);
    folder.add_file(names("z"), 5);
    assert_eq!(folder.size, 12);
    assert_eq!(folder.num_descendants, 5);
    match folder.path(names("a")) {
        Some(FileOrFolder::Folder(a)) => {
            assert_eq!(a.size, 7);
            assert_eq!(a.num_descendants, 3);
        }
        other => panic!("unexpected {:?}", other),
    }
    match folder.path(names("a/b")) {
        Some(FileOrFolder::Folder(b)) => {
            assert_eq!(b.size, 4);
            assert_eq!(b.num_descendants, 1);
        }
        other => panic!("unexpected {:?}", other),
    }
}

#[test]
fn add_folder_adds_an_empty_folder() {
    let mut folder = Folder::new();
    folder.add_folder(names("a/b"));
    assert_eq!(folder.size, 0);
    assert_eq!(folder.num_descendants, 1);
    match folder.path(names("a/b")) {
        Some(FileOrFolder::Folder(b)) => {
            assert_eq!(b.size, 0);
            assert_eq!(b.num_descendants, 0);
            assert!(b.contents.is_empty());
        }
        other => panic!("unexpected {:?}", other),
    }
}

#[test]
fn empty_path_changes_nothing() {
    let mut folder = Folder::new();
    folder.add_file(Vec::new(), 7);
    folder.add_folder(Vec::new());
    assert_eq!(folder.size, 0);
    assert_eq!(folder.num_descendants, 0);
    assert!(folder.contents.is_empty());
}

#[test]
fn adding_a_file_again_replaces_it_but_counts_twice() {
    let mut folder = Folder::new();
    folder.add_file(names("f"), 5);
    folder.add_file(names("f"), 8);
    assert_eq!(folder.size, 13);
    assert_eq!(folder.num_descendants, 2);
    assert_eq!(size_at(&folder, "f"), Some(8));
    assert_eq!(folder.contents.len(), 1);
}

#[test]
fn adding_a_folder_again_empties_it() {
    let mut folder = Folder::new();
    folder.add_file(names("d/f"), 5);
    folder.add_folder(names("d"));
    assert_eq!(folder.size, 5);
    assert_eq!(folder.num_descendants, 2);
    assert_eq!(size_at(&folder, "d"), Some(0));
    assert!(folder.path(names("d/f")).is_none());
}

#[test]
fn siblings_are_left_alone() {
    let mut folder = Folder::new();
    folder.add_file(names("a/one"), 1);
    folder.add_file(names("b/two"), 2);
    folder.add_file(names("a/three"), 3);
    assert_eq!(size_at(&folder, "b"), Some(2));
    assert_eq!(size_at(&folder, "b/two"), Some(2));
    assert_eq!(size_at(&folder, "a"), Some(4));
    assert_eq!(size_at(&folder, "a/one"), Some(1));
}

#[test]
fn path_returns_a_file_met_before_the_last_name() {
    let mut folder = Folder::new();
    folder.add_file(names("a/f"), 9);
    match folder.path(names("a/f/deeper/still")) {
        Some(FileOrFolder::File(file)) => assert_eq!(file.size, 9),
        other => panic!("unexpected {:?}", other),
    }
}

#[test]
fn path_to_a_missing_name_is_none() {
    let mut folder = Folder::new();
    folder.add_file(names("a/f"), 9);
    assert!(folder.path(names("b")).is_none());
    assert!(folder.path(names("a/g")).is_none());
}

#[test]
fn add_entry_directory() {
    let mut folder = Folder::new();
    let metadata = EntryMetadata { is_dir: true, len: 4096, size_on_disk: Some(4096) };
    folder.add_entry(&metadata, names("d"), false);
    assert_eq!(folder.size, 0);
    assert_eq!(folder.num_descendants, 1);
    assert!(matches!(folder.path(names("d")), Some(FileOrFolder::Folder(_))));
}

#[test]
fn add_entry_counts_size_on_disk() {
    let mut folder = Folder::new();
    let metadata = EntryMetadata { is_dir: false, len: 10, size_on_disk: Some(4096) };
    folder.add_entry(&metadata, names("f"), false);
    assert_eq!(folder.size, 4096);
}

#[test]
fn add_entry_counts_apparent_size() {
    let mut folder = Folder::new();
    let metadata = EntryMetadata { is_dir: false, len: 10, size_on_disk: Some(4096) };
    folder.add_entry(&metadata, names("f"), true);
    assert_eq!(folder.size, 10);
}

#[test]
fn add_entry_falls_back_to_length() {
    let mut folder = Folder::new();
    let metadata = EntryMetadata { is_dir: false, len: 10, size_on_disk: None };
    folder.add_entry(&metadata, names("f"), false);
    assert_eq!(folder.size, 10);
}

#[test]
fn file_or_folder_size() {
    let mut folder = Folder::new();
    folder.add_file(names("d/f"), 6);
    assert_eq!(folder.path(names("d")).unwrap().size(), 6);
    assert_eq!(folder.path(names("d/f")).unwrap().size(), 6);
}

#[test]
fn large_sizes_are_counted_exactly() {
    let mut folder = Folder::new();
    folder.add_file(names("a"), u64::MAX as u128);
    folder.add_file(names("b"), u64::MAX as u128);
    assert_eq!(folder.size, 2 * (u64::MAX as u128));
}

fn sum_of_items(folder: &Folder) -> u128 {
    folder.contents.iter().map(|(_, item)| item.size()).sum()
}

#[test]
fn clone_copies_the_tree() {
    let mut folder = Folder::new();
    folder.add_folder(names("a"));
    folder.add_file(names("a/x"), 3);
    folder.add_file(names("b"), 4);
    let copy = folder.clone();
    assert_eq!(copy.size, folder.size);
    assert_eq!(copy.num_descendants, folder.num_descendants);
    assert_eq!(copy.contents.len(), folder.contents.len());
    assert_eq!(size_at(&copy, "a/x"), Some(3));
    assert_eq!(size_at(&copy, "b"), Some(4));
}

#[test]
fn additions_at_unrelated_paths_commute() {
    let mut first = Folder::new();
    first.add_file(names("a/x"), 1);
    first.add_file(names("b/y"), 2);
    let mut second = Folder::new();
    second.add_file(names("b/y"), 2);
    second.add_file(names("a/x"), 1);
    assert_eq!(first.size, second.size);
    assert_eq!(first.num_descendants, second.num_descendants);
    for path in ["a", "a/x", "b", "b/y"] {
        assert_eq!(size_at(&first, path), size_at(&second, path));
    }
}

#[test]
fn sizes_add_up_when_folders_are_created_on_the_way() {
    let mut folder = Folder::new();
    folder.add_file(names("a/b/c"), 5);
    folder.add_file(names("a/d"), 7);
    assert_eq!(folder.size, sum_of_items(&folder));
    match folder.path(names("a")) {
        Some(FileOrFolder::Folder(a)) => {
            assert_eq!(a.size, 12);
            assert_eq!(a.size, sum_of_items(a));
        }
        other => panic!("unexpected {:?}", other),
    }
}

#[test]
fn add_entry_agrees_with_add_file_and_add_folder() {
    let mut base = Folder::new();
    base.add_folder(names("d"));
    let file = EntryMetadata { is_dir: false, len: 10, size_on_disk: Some(4096) };
    let dir = EntryMetadata { is_dir: true, len: 4096, size_on_disk: Some(4096) };

    let mut by_entry = base.clone();
    by_entry.add_entry(&file, names("d/f"), true);
    let mut by_file = base.clone();
    by_file.add_file(names("d/f"), 10);
    assert_eq!(by_entry.size, by_file.size);
    assert_eq!(size_at(&by_entry, "d/f"), size_at(&by_file, "d/f"));

    let mut by_entry = base.clone();
    by_entry.add_entry(&file, names("d/f"), false);
    let mut by_file = base.clone();
    by_file.add_file(names("d/f"), 4096);
    assert_eq!(by_entry.size, by_file.size);

    let mut by_entry = base.clone();
    by_entry.add_entry(&dir, names("d/e"), false);
    let mut by_folder = base.clone();
    by_folder.add_folder(names("d/e"));
    assert_eq!(by_entry.size, by_folder.size);
    assert_eq!(by_entry.num_descendants, by_folder.num_descendants);
    assert_eq!(size_at(&by_entry, "d/e"), size_at(&by_folder, "d/e"));
}

#[test]
fn folders_filled_by_hand_take_additions() {
    let inner = Folder { contents: Vec::new(), size: 100, num_descendants: 5 };
    let mut folder = Folder {
        contents: vec![("a".to_string(), FileOrFolder::Folder(inner))],
        size: 0,
        num_descendants: 0,
    };
    folder.add_file(names("b"), 1);
    folder.add_file(names("a/c"), 2);
    assert_eq!(folder.size, 3);
    assert_eq!(folder.num_descendants, 2);
    assert_eq!(size_at(&folder, "a"), Some(102));
}
