use file_tree::listing::{Entry, EntryKind};
use file_tree::node::{FSNode, FSNodeType};
use file_tree::options::TraverseOptions;
use file_tree::traverse::{read_recursive_inner, IdAllocator};

fn file(name: &str, size: u64) -> Entry {
    Entry::file(name.to_string(), size)
}

fn dir(name: &str, entries: Vec<Entry>) -> Entry {
    Entry::directory(name.to_string(), entries)
}

fn walk(root: &Entry, options: &TraverseOptions) -> Option<FSNode> {
    assert!(root.weight().is_some());
    let mut ids = IdAllocator::new();
    read_recursive_inner(root, &mut ids, options, 0)
}

fn plain() -> TraverseOptions {
    TraverseOptions::builder().follow_system_links(false).build()
}

fn big_listing() -> Entry {
    dir(
        "root",
        vec![
            file("small", 3),
            dir("docs", vec![file("a.txt", 40), file("b.txt", 40), dir("old", vec![file("z", 1)])]),
            file("", 500),
            file("empty", 0),
            Entry::other("socket".to_string()),
            dir("media", vec![file("film", 900), dir("thumbs", vec![file("t1", 2), file("t2", 2)])]),
            file("big", 700),
            dir("void", vec![]),
        ],
    )
}

fn each_node(node: &FSNode, visit: &mut dyn FnMut(&FSNode)) {
    visit(node);
    if let Some(children) = &node.children {
        for child in children {
            each_node(child, visit);
        }
    }
}

#[test]
fn walk_numbers_the_directory_then_its_files_then_its_directories() {
    let tree = walk(&big_listing(), &plain()).unwrap();
    assert_eq!(tree.id, 0);
    let by_name = |name: &str| -> FSNode {
        let mut hit = None;
        each_node(&tree, &mut |n| {
            if n.name == name {
                hit = Some(n.clone());
            }
        });
        hit.unwrap()
    };
    assert_eq!(by_name("small").id, 1);
    assert_eq!(by_name("big").id, 2);
    assert_eq!(by_name("docs").id, 3);
    assert_eq!(by_name("a.txt").id, 4);
    assert_eq!(by_name("b.txt").id, 5);
    assert_eq!(by_name("old").id, 6);
    assert_eq!(by_name("z").id, 7);
    assert_eq!(by_name("media").id, 8);
    assert_eq!(by_name("film").id, 9);
    assert_eq!(by_name("thumbs").id, 10);
    assert_eq!(by_name("t1").id, 11);
    assert_eq!(by_name("t2").id, 12);
    assert_eq!(by_name("void").id, 13);
}

#[test]
fn walk_leaves_the_counter_behind_the_last_identifier() {
    let mut ids = IdAllocator::starting_at(100);
    let tree = read_recursive_inner(&big_listing(), &mut ids, &plain(), 0).unwrap();
    assert_eq!(tree.id, 100);
    assert_eq!(ids.peek(), 114);
}

#[test]
fn dropped_directory_has_taken_its_identifiers() {
    let listing = dir("r", vec![dir("tiny", vec![file("a", 1), file("b", 59)]), dir("kept", vec![file("c", 70)])]);
    let options = TraverseOptions::builder().min_size(61).build();
    let mut ids = IdAllocator::new();
    let tree = read_recursive_inner(&listing, &mut ids, &options, 0).unwrap();
    let children = tree.children.as_ref().unwrap();
    assert_eq!(children.len(), 1);
    assert_eq!(children[0].name, "kept");
    assert_eq!(children[0].id, 2);
    assert_eq!(children[0].children.as_ref().unwrap()[0].id, 3);
    assert_eq!(ids.peek(), 4);
    assert_eq!(tree.size, 70);
    assert_eq!(tree.num_files, 1);
    assert_eq!(tree.num_dirs, 2);
}

#[test]
fn walk_sums_bytes_files_and_directories() {
    let tree = walk(&big_listing(), &plain()).unwrap();
    assert_eq!(tree.size, 3 + 81 + 904 + 700);
    assert_eq!(tree.num_files, 8);
    assert_eq!(tree.num_dirs, 6);
    each_node(&tree, &mut |node| {
        if let Some(children) = &node.children {
            assert_eq!(node.size, children.iter().map(|c| c.size).sum::<u64>());
            assert_eq!(node.num_files, children.iter().map(|c| c.num_files).sum::<u64>());
            assert_eq!(node.num_dirs, 1 + children.iter().map(|c| c.num_dirs).sum::<u64>());
        }
    });
}

#[test]
fn walk_keeps_no_empty_or_unnamed_file_and_nothing_else() {
    let tree = walk(&big_listing(), &plain()).unwrap();
    each_node(&tree, &mut |node| {
        assert!(!node.name.is_empty());
        assert_ne!(node.name, "empty");
        assert_ne!(node.name, "socket");
        match node.node_type {
            FSNodeType::File => {
                assert!(node.size > 0);
                assert!(node.children.is_none());
                assert_eq!(node.num_files, 1);
                assert_eq!(node.num_dirs, 0);
            },
            FSNodeType::Directory => assert!(node.num_dirs >= 1),
        }
    });
}

#[test]
fn walk_shows_children_biggest_first_or_not_at_all() {
    let tree = walk(&big_listing(), &plain()).unwrap();
    let top: Vec<&str> = tree.children.as_ref().unwrap().iter().map(|c| c.name.as_str()).collect();
    assert_eq!(top, vec!["media", "big", "docs", "small", "void"]);
    each_node(&tree, &mut |node| {
        if let Some(children) = &node.children {
            assert!(!children.is_empty());
            for pair in children.windows(2) {
                assert!(pair[0].size >= pair[1].size);
            }
            for child in children {
                assert_eq!(child.depth, node.depth + 1);
            }
        }
    });
    let void = tree.children.as_ref().unwrap().last().unwrap();
    assert_eq!(void.size, 0);
    assert_eq!(void.num_dirs, 1);
    assert!(void.children.is_none());
}

#[test]
fn equal_sizes_keep_files_before_directories_in_listing_order() {
    let listing = dir(
        "r",
        vec![
            dir("d1", vec![file("x", 5)]),
            file("f1", 5),
            dir("d2", vec![file("y", 5)]),
            file("f2", 5),
            file("f0", 6),
        ],
    );
    let tree = walk(&listing, &plain()).unwrap();
    let order: Vec<&str> = tree.children.as_ref().unwrap().iter().map(|c| c.name.as_str()).collect();
    assert_eq!(order, vec!["f0", "f1", "f2", "d1", "d2"]);
}

#[test]
fn min_size_leaves_no_node_below_it() {
    let options = TraverseOptions::builder().min_size(40).build();
    let tree = walk(&big_listing(), &options).unwrap();
    each_node(&tree, &mut |node| assert!(node.size >= 40));
    let top: Vec<&str> = tree.children.as_ref().unwrap().iter().map(|c| c.name.as_str()).collect();
    assert_eq!(top, vec!["media", "big", "docs"]);
    assert_eq!(tree.size, 900 + 700 + 80);
    assert_eq!(tree.num_files, 4);
    assert_eq!(tree.num_dirs, 3);
}

#[test]
fn min_size_that_nothing_reaches_drops_the_root() {
    let options = TraverseOptions::builder().min_size(1_000_000).build();
    assert!(walk(&big_listing(), &options).is_none());
}

#[test]
fn file_exactly_at_min_size_is_kept() {
    let options = TraverseOptions::builder().min_size(40).build();
    let tree = walk(&dir("r", vec![file("at", 40), file("under", 39)]), &options).unwrap();
    let children = tree.children.as_ref().unwrap();
    assert_eq!(children.len(), 1);
    assert_eq!(children[0].name, "at");
    assert_eq!(tree.size, 40);
}

#[test]
fn max_depth_bounds_directories_and_lets_files_one_level_below() {
    let options = TraverseOptions::builder().max_depth(1).build();
    let tree = walk(&big_listing(), &options).unwrap();
    each_node(&tree, &mut |node| {
        assert!(node.depth <= 2);
        if node.node_type == FSNodeType::Directory {
            assert!(node.depth <= 1);
            if node.depth == 1 {
                if let Some(children) = &node.children {
                    for child in children {
                        assert_eq!(child.node_type, FSNodeType::File);
                    }
                }
            }
        }
    });
    assert_eq!(tree.size, 3 + 80 + 900 + 700);
    assert_eq!(tree.num_dirs, 4);
    assert_eq!(tree.num_files, 5);
}

#[test]
fn identifiers_are_unique_in_a_tree() {
    let tree = walk(&big_listing(), &plain()).unwrap();
    let mut seen: Vec<u64> = Vec::new();
    each_node(&tree, &mut |node| {
        assert!(!seen.contains(&node.id));
        seen.push(node.id);
    });
    assert_eq!(seen.len(), 14);
}

#[test]
fn directory_that_could_not_be_listed_is_an_empty_directory() {
    let tree = walk(&dir("locked", vec![]), &plain()).unwrap();
    assert_eq!(tree.name, "locked");
    assert_eq!(tree.size, 0);
    assert_eq!(tree.num_files, 0);
    assert_eq!(tree.num_dirs, 1);
    assert!(tree.children.is_none());
}

#[test]
fn walk_starts_at_the_depth_it_is_given() {
    let mut ids = IdAllocator::new();
    let tree = read_recursive_inner(&dir("r", vec![file("f", 1)]), &mut ids, &plain(), 5).unwrap();
    assert_eq!(tree.depth, 5);
    assert_eq!(tree.children.as_ref().unwrap()[0].depth, 6);
}

#[test]
fn weight_counts_entries_and_bytes() {
    assert_eq!(dir("r", vec![]).weight(), Some(1));
    assert_eq!(dir("r", vec![file("f", 10)]).weight(), Some(12));
    assert_eq!(
        dir("r", vec![file("f", 10), Entry::other("o".to_string()), dir("d", vec![file("g", 0)])]).weight(),
        Some(1 + 11 + 2)
    );
    assert_eq!(dir("r", vec![file("a", u64::MAX)]).weight(), None);
    assert_eq!(dir("r", vec![file("a", u64::MAX - 2)]).weight(), Some(u64::MAX));
    assert_eq!(dir("r", vec![file("a", u64::MAX - 2), Entry::other("o".to_string())]).weight(), Some(u64::MAX));
    assert_eq!(dir("r", vec![file("a", u64::MAX - 2), dir("d", vec![])]).weight(), None);
}

#[test]
fn entries_are_made_with_their_kind() {
    let f = file("f", 3);
    assert_eq!(f.kind, EntryKind::File);
    assert_eq!(f.size, 3);
    assert!(f.entries.is_empty());
    let d = dir("d", vec![file("f", 3)]);
    assert_eq!(d.kind, EntryKind::Directory);
    assert_eq!(d.size, 0);
    assert_eq!(d.entries.len(), 1);
    let o = Entry::other("o".to_string());
    assert_eq!(o.kind, EntryKind::Other);
    assert_eq!(o.name, "o");
}

#[test]
fn allocator_counts_up_from_where_it_starts() {
    let mut ids = IdAllocator::new();
    assert_eq!(ids.peek(), 0);
    assert_eq!(ids.fetch_and_increment(), 0);
    assert_eq!(ids.fetch_and_increment(), 1);
    assert_eq!(ids.peek(), 2);
    let mut later = IdAllocator::starting_at(41);
    assert_eq!(later.fetch_and_increment(), 41);
    assert_eq!(later.peek(), 42);
}
