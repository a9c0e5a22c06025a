use file_tree::cache::{get_node_by_id, read_recursive, read_recursive_checked, AppState};
use file_tree::listing::{Entry, EntryKind};
use file_tree::node::{FSNode, FSNodeType};

fn file(name: &str, size: u64) -> Entry {
    Entry::file(name.to_string(), size)
}

fn dir(name: &str, entries: Vec<Entry>) -> Entry {
    Entry::directory(name.to_string(), entries)
}

fn sample_root() -> Entry {
    dir("root", vec![file("f1", 100), dir("d1", vec![file("f2", 50), file("f3", 0)])])
}

fn names(nodes: &[FSNode]) -> Vec<String> {
    nodes.iter().map(|n| n.name.clone()).collect()
}

#[test]
fn scan_without_limits_keeps_everything_but_empty_files() {
    let mut state = AppState::default();
    let root = read_recursive(&sample_root(), None, None, &mut state);
    assert_eq!(root.name, "root");
    assert_eq!(root.size, 150);
    assert_eq!(root.num_files, 2);
    assert_eq!(root.num_dirs, 2);
    assert_eq!(root.depth, 0);
    assert_eq!(root.node_type, FSNodeType::Directory);
    let children = root.children.as_ref().unwrap();
    assert_eq!(names(children), vec!["f1".to_string(), "d1".to_string()]);
    assert_eq!(children[0].size, 100);
    assert_eq!(children[0].node_type, FSNodeType::File);
    assert_eq!(children[1].size, 50);
    assert_eq!(children[1].node_type, FSNodeType::Directory);
    assert!(children[1].children.is_none());

    let d1 = get_node_by_id(children[1].id, &state).unwrap();
    let below = d1.children.as_ref().unwrap();
    assert_eq!(names(below), vec!["f2".to_string()]);
    assert_eq!(below[0].size, 50);
    assert_eq!(below[0].depth, 2);
    assert_eq!(d1.num_files, 1);
    assert_eq!(d1.num_dirs, 1);
}

#[test]
fn scan_with_min_size_drops_small_directory() {
    let mut state = AppState::default();
    let root = read_recursive(&sample_root(), None, Some(60), &mut state);
    assert_eq!(root.size, 100);
    assert_eq!(root.num_files, 1);
    assert_eq!(root.num_dirs, 1);
    let children = root.children.as_ref().unwrap();
    assert_eq!(names(children), vec!["f1".to_string()]);
    assert_eq!(children[0].size, 100);
}

#[test]
fn scan_with_zero_depth_never_enters_directories() {
    let mut state = AppState::default();
    let root = read_recursive(&sample_root(), Some(0), None, &mut state);
    assert_eq!(root.size, 100);
    assert_eq!(root.num_files, 1);
    assert_eq!(root.num_dirs, 1);
    let children = root.children.as_ref().unwrap();
    assert_eq!(names(children), vec!["f1".to_string()]);
    assert_eq!(children[0].depth, 1);
    let cached = state.node().unwrap();
    assert!(cached.get_node_by_id(2).is_none());
}

#[test]
fn scan_answers_one_level_and_caches_the_whole_tree() {
    let mut state = AppState::default();
    let listing = dir("top", vec![dir("a", vec![dir("b", vec![file("deep", 7)])])]);
    let root = read_recursive(&listing, None, None, &mut state);
    let a = &root.children.as_ref().unwrap()[0];
    assert_eq!(a.name, "a");
    assert_eq!(a.size, 7);
    assert!(a.children.is_none());

    let cached = state.node().unwrap();
    let cached_a = &cached.children.as_ref().unwrap()[0];
    let cached_b = &cached_a.children.as_ref().unwrap()[0];
    let deep = &cached_b.children.as_ref().unwrap()[0];
    assert_eq!(deep.name, "deep");
    assert_eq!(deep.depth, 3);
    assert_eq!(cached.num_dirs, 3);
    assert_eq!(cached.num_files, 1);
}

#[test]
fn scan_with_dropped_root_answers_placeholder_and_keeps_cache() {
    let mut state = AppState::default();
    let first = read_recursive(&sample_root(), None, None, &mut state);
    assert_eq!(first.size, 150);

    let answer = read_recursive(&sample_root(), None, Some(1000), &mut state);
    assert_eq!(answer.id, 0);
    assert_eq!(answer.name, "");
    assert_eq!(answer.size, 0);
    assert_eq!(answer.num_files, 0);
    assert_eq!(answer.num_dirs, 1);
    assert_eq!(answer.depth, 0);
    assert_eq!(answer.node_type, FSNodeType::Directory);
    assert!(answer.children.is_none());
    assert_eq!(state.node().unwrap().size, 150);
}

#[test]
fn scan_replaces_the_cached_tree() {
    let mut state = AppState::default();
    read_recursive(&sample_root(), None, None, &mut state);
    read_recursive(&dir("other", vec![file("x", 9)]), None, None, &mut state);
    let cached = state.node().unwrap();
    assert_eq!(cached.name, "other");
    assert_eq!(cached.size, 9);
}

#[test]
fn lookup_in_empty_cache_finds_nothing() {
    let state = AppState::default();
    assert!(state.node().is_none());
    assert!(get_node_by_id(0, &state).is_none());
}

#[test]
fn lookup_of_unknown_identifier_finds_nothing() {
    let mut state = AppState::default();
    read_recursive(&sample_root(), None, None, &mut state);
    assert!(get_node_by_id(99, &state).is_none());
}

#[test]
fn lookup_answers_at_most_two_levels() {
    let mut state = AppState::default();
    let listing = dir("top", vec![dir("a", vec![dir("b", vec![file("deep", 7)])])]);
    read_recursive(&listing, None, None, &mut state);
    let top = get_node_by_id(0, &state).unwrap();
    for child in top.children.as_ref().unwrap() {
        assert!(child.children.is_none());
    }
    let a = get_node_by_id(1, &state).unwrap();
    assert_eq!(a.name, "a");
    let shown = a.children.as_ref().unwrap();
    assert_eq!(names(shown), vec!["b".to_string()]);
    assert!(shown[0].children.is_none());
    let deep = get_node_by_id(3, &state).unwrap();
    assert_eq!(deep.name, "deep");
    assert!(deep.children.is_none());
}

#[test]
fn checked_scan_refuses_a_listing_beyond_64_bits() {
    let mut state = AppState::default();
    read_recursive(&sample_root(), None, None, &mut state);
    let heavy = dir("heavy", vec![file("a", u64::MAX - 1), file("b", 5)]);
    assert!(read_recursive_checked(&heavy, None, None, &mut state).is_none());
    assert_eq!(state.node().unwrap().name, "root");
}

#[test]
fn checked_scan_answers_as_the_scan_does() {
    let mut checked_state = AppState::default();
    let mut state = AppState::default();
    let checked = read_recursive_checked(&sample_root(), None, Some(10), &mut checked_state);
    let plain = read_recursive(&sample_root(), None, Some(10), &mut state);
    assert_eq!(checked, Some(plain));
    assert_eq!(checked_state.node(), state.node());
}

#[test]
fn root_is_walked_as_a_directory_whatever_its_kind() {
    let mut state = AppState::default();
    let root = Entry { name: "plain".to_string(), kind: EntryKind::File, size: 12, entries: vec![] };
    let answer = read_recursive(&root, None, None, &mut state);
    assert_eq!(answer.name, "plain");
    assert_eq!(answer.node_type, FSNodeType::Directory);
    assert_eq!(answer.size, 0);
    assert_eq!(answer.num_dirs, 1);
    assert!(answer.children.is_none());
}

#[test]
fn snapshot_is_the_whole_cached_tree() {
    let mut state = AppState::default();
    assert!(state.snapshot().is_none());
    let listing = dir("top", vec![dir("a", vec![dir("b", vec![file("deep", 7)])])]);
    read_recursive(&listing, None, None, &mut state);
    let copy = state.snapshot().unwrap();
    assert_eq!(Some(&copy), state.node());
    assert_eq!(copy.get_node_by_id(3).unwrap().name, "deep");
}

#[test]
fn lookup_answers_the_node_that_carries_the_identifier() {
    let mut state = AppState::default();
    read_recursive(&sample_root(), None, None, &mut state);
    for id in 0..4 {
        assert_eq!(get_node_by_id(id, &state).unwrap().id, id);
    }
    assert!(get_node_by_id(4, &state).is_none());
}
