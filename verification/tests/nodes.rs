use file_tree::aggregate::totals;
use file_tree::cache::Response;
use file_tree::node::{FSNode, FSNodeType};
use file_tree::options::TraverseOptions;
use file_tree::order::sort_biggest_first;

fn leaf(id: u64, name: &str, size: u64) -> FSNode {
    FSNode {
        id,
        name: name.to_string(),
        size,
        node_type: FSNodeType::File,
        children: None,
        num_files: 1,
        num_dirs: 0,
        depth: 2,
    }
}

fn branch(id: u64, name: &str, depth: u64, children: Vec<FSNode>) -> FSNode {
    FSNode {
        id,
        name: name.to_string(),
        size: children.iter().map(|c| c.size).sum(),
        node_type: FSNodeType::Directory,
        num_files: children.iter().map(|c| c.num_files).sum(),
        num_dirs: 1 + children.iter().map(|c| c.num_dirs).sum::<u64>(),
        children: Some(children),
        depth,
    }
}

fn sample() -> FSNode {
    branch(
        0,
        "root",
        0,
        vec![
            branch(1, "a", 1, vec![leaf(2, "a1", 30), leaf(3, "a2", 20)]),
            branch(4, "b", 1, vec![leaf(5, "b1", 10)]),
        ],
    )
}

#[test]
fn directory_node_is_empty_at_depth_zero() {
    let node = FSNode::directory_node("d".to_string(), 7);
    assert_eq!(node.id, 7);
    assert_eq!(node.name, "d");
    assert_eq!(node.size, 0);
    assert_eq!(node.size(), 0);
    assert_eq!(node.node_type, FSNodeType::Directory);
    assert!(node.children.is_none());
    assert_eq!(node.num_files, 0);
    assert_eq!(node.num_dirs, 1);
    assert_eq!(node.depth, 0);
}

#[test]
fn search_finds_the_node_that_carries_the_identifier() {
    let tree = sample();
    assert_eq!(tree.get_node_by_id(0).unwrap().name, "root");
    assert_eq!(tree.get_node_by_id(3).unwrap().name, "a2");
    assert_eq!(tree.get_node_by_id(4).unwrap().name, "b");
    assert_eq!(tree.get_node_by_id(5).unwrap().size, 10);
    assert!(tree.get_node_by_id(6).is_none());
}

#[test]
fn search_takes_the_first_in_pre_order_among_repeats() {
    let tree = branch(
        0,
        "root",
        0,
        vec![branch(1, "a", 1, vec![leaf(9, "deep", 1)]), leaf(9, "shallow", 2), leaf(0, "shadowed", 3)],
    );
    assert_eq!(tree.get_node_by_id(9).unwrap().name, "deep");
    assert_eq!(tree.get_node_by_id(0).unwrap().name, "root");
}

#[test]
fn search_for_change_reaches_the_same_node() {
    let mut tree = sample();
    {
        let node = tree.get_node_by_id_mut(5).unwrap();
        assert_eq!(node.name, "b1");
        node.name = "renamed".to_string();
        node.size = 11;
    }
    assert_eq!(tree.get_node_by_id(5).unwrap().name, "renamed");
    assert_eq!(tree.get_node_by_id(5).unwrap().size, 11);
    assert_eq!(tree.get_node_by_id(2).unwrap().name, "a1");
    let mut expected = sample();
    expected.children.as_mut().unwrap()[1].children.as_mut().unwrap()[0] =
        FSNode { name: "renamed".to_string(), size: 11, ..leaf(5, "b1", 10) };
    assert_eq!(tree, expected);

    assert!(tree.get_node_by_id_mut(77).is_none());
    assert_eq!(tree, expected);
    tree.get_node_by_id_mut(0).unwrap().depth = 4;
    assert_eq!(tree.depth, 4);
}

#[test]
fn copy_without_children_keeps_the_fields() {
    let tree = sample();
    let copy = tree.clone_without_children();
    assert!(copy.children.is_none());
    assert_eq!(copy.id, 0);
    assert_eq!(copy.name, "root");
    assert_eq!(copy.size, 60);
    assert_eq!(copy.node_type, FSNodeType::Directory);
    assert_eq!(copy.num_files, 3);
    assert_eq!(copy.num_dirs, 3);
    assert_eq!(copy.depth, 0);
    assert!(tree.children.is_some());
}

#[test]
fn copy_with_direct_children_is_two_levels_deep() {
    let tree = sample();
    let copy = tree.clone_only_direct_children();
    let children = copy.children.as_ref().unwrap();
    assert_eq!(children.len(), 2);
    assert_eq!(children[0], tree.children.as_ref().unwrap()[0].clone_without_children());
    assert_eq!(children[1], tree.children.as_ref().unwrap()[1].clone_without_children());
    assert_eq!(copy.clone_without_children(), tree.clone_without_children());
    assert!(leaf(1, "f", 1).clone_only_direct_children().children.is_none());
}

#[test]
fn view_does_not_reach_back_into_the_tree() {
    let tree = sample();
    let mut copy = tree.clone_only_direct_children();
    copy.children.as_mut().unwrap()[0].size = 0;
    copy.name = "changed".to_string();
    assert_eq!(tree, sample());
}

#[test]
fn clone_is_a_full_copy() {
    let tree = sample();
    assert_eq!(tree.clone(), tree);
}

#[test]
fn sort_puts_the_biggest_first_and_keeps_ties_in_order() {
    let sorted = sort_biggest_first(vec![
        leaf(1, "a", 5),
        leaf(2, "b", 9),
        leaf(3, "c", 5),
        leaf(4, "d", 1),
        leaf(5, "e", 9),
        leaf(6, "f", 5),
    ]);
    let ids: Vec<u64> = sorted.iter().map(|n| n.id).collect();
    assert_eq!(ids, vec![2, 5, 1, 3, 6, 4]);
    assert!(sort_biggest_first(vec![]).is_empty());
    assert_eq!(sort_biggest_first(vec![leaf(1, "a", 5)]), vec![leaf(1, "a", 5)]);
}

#[test]
fn totals_add_up_the_three_measures() {
    let nodes = vec![leaf(1, "a", 5), branch(2, "d", 1, vec![leaf(3, "b", 7), leaf(4, "c", 8)])];
    let sums = totals(&nodes);
    assert_eq!(sums.size, 20);
    assert_eq!(sums.num_files, 3);
    assert_eq!(sums.num_dirs, 1);
    let none = totals(&vec![]);
    assert_eq!((none.size, none.num_files, none.num_dirs), (0, 0, 0));
}

#[test]
fn builder_starts_from_the_defaults() {
    let options = TraverseOptions::builder().build();
    assert!(!options.follow_system_links());
    assert_eq!(options.max_depth(), None);
    assert_eq!(options.min_size(), None);
    assert!(!options.reached_max_depth(u64::MAX));
    assert!(!options.below_min_size(0));
}

#[test]
fn builder_sets_and_clears_each_policy() {
    let options = TraverseOptions::builder().follow_system_links(true).max_depth(3).min_size(10).build();
    assert!(options.follow_system_links());
    assert_eq!(options.max_depth(), Some(3));
    assert_eq!(options.min_size(), Some(10));
    assert!(!options.reached_max_depth(2));
    assert!(options.reached_max_depth(3));
    assert!(options.reached_max_depth(4));
    assert!(options.below_min_size(9));
    assert!(!options.below_min_size(10));

    let cleared =
        TraverseOptions::builder().max_depth(3).maybe_max_depth(None).maybe_min_size(Some(5)).build();
    assert_eq!(cleared.max_depth(), None);
    assert_eq!(cleared.min_size(), Some(5));
    let kept = TraverseOptions::builder().maybe_max_depth(Some(0)).maybe_min_size(None).build();
    assert_eq!(kept.max_depth(), Some(0));
    assert!(kept.reached_max_depth(0));
    assert_eq!(kept.min_size(), None);
}

#[test]
fn response_holds_node_and_time() {
    let response = Response::new(leaf(1, "a", 5), 1234);
    assert_eq!(response.node().name, "a");
    assert_eq!(response.time_took_millis(), 1234);
    assert_eq!(response.into_node(), leaf(1, "a", 5));
}

#[test]
fn sort_agrees_with_a_stable_sort_on_many_nodes() {
    let mut seed: u64 = 0x2545_F491_4F6C_DD1D;
    let mut nodes = Vec::new();
    for id in 0..1500u64 {
        seed ^= seed << 13;
        seed ^= seed >> 7;
        seed ^= seed << 17;
        nodes.push(leaf(id, "n", seed % 40));
    }
    let mut expected = nodes.clone();
    expected.sort_by(|lhs, rhs| rhs.size.cmp(&lhs.size));
    assert_eq!(sort_biggest_first(nodes), expected);
}

#[test]
fn sort_keeps_an_ordered_and_a_reversed_run_right() {
    let falling: Vec<FSNode> = (0..64u64).map(|k| leaf(k, "n", 100 - k)).collect();
    assert_eq!(sort_biggest_first(falling.clone()), falling);
    let rising: Vec<FSNode> = (0..64u64).map(|k| leaf(k, "n", k)).collect();
    let mut reversed = rising.clone();
    reversed.reverse();
    assert_eq!(sort_biggest_first(rising), reversed);
    let level: Vec<FSNode> = (0..64u64).map(|k| leaf(k, "n", 7)).collect();
    assert_eq!(sort_biggest_first(level.clone()), level);
}
