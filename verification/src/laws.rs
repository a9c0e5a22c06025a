//! What holds of every tree that a traversal makes.

use vstd::prelude::*;
use crate::aggregate::{lemma_total_biggest_first, total, Measure};
use crate::listing::{EntryKind, Listing};
use crate::node::{FSNodeType, Tree};
use crate::options::Policy;
use crate::order::{
    biggest_first, is_biggest_first, lemma_biggest_first_in_order, lemma_biggest_first_rearranges,
    origin,
};
use crate::traverse::{
    children_of, dir_nodes, file_nodes, file_tree, files_kept, ids_among, ids_used, is_kept_file,
    lemma_file_nodes_len, walk,
};

verus! {

/// Whether `holds` is true of `tree` and of every node below it.
pub open spec fn every_node(tree: Tree, holds: spec_fn(Tree) -> bool) -> bool
    decreases tree,
{
    &&& holds(tree)
    &&& tree.children matches Some(children) ==> forall|i: int|
        0 <= i < children.len() ==> every_node(#[trigger] children[i], holds)
}

/// Whether `holds` is true of every node that a walk under `options` makes
/// by itself, at the depths that `at` admits: of each file node one level
/// below such a depth and of each directory node at such a depth. The
/// depths that `at` admits go on downwards as far as directories are
/// entered.
pub open spec fn holds_of_each_made(
    holds: spec_fn(Tree) -> bool,
    at: spec_fn(nat) -> bool,
    options: Policy,
) -> bool {
    &&& forall|depth: nat, below: nat|
        #[trigger] at(depth) && !options.reached_max_depth(depth) && below == depth + 1 ==> #[trigger] at(
            below,
        )
    &&& forall|entry: Listing, id: nat, depth: nat, below: nat|
        #[trigger] at(depth) && is_kept_file(entry, options) && below == depth + 1 ==> holds(
            #[trigger] file_tree(entry, id, below),
        )
    &&& forall|dir: Listing, depth: nat, first_id: nat|
        at(depth) ==> (#[trigger] walk(dir, options, depth, first_id) matches Some(tree) ==> holds(tree))
}

/// What holds of every file node that is made holds of every node among
/// the file nodes of a directory.
proof fn lemma_file_nodes_every(
    entries: Seq<Listing>,
    n: nat,
    options: Policy,
    depth: nat,
    first_id: nat,
    holds: spec_fn(Tree) -> bool,
    at: spec_fn(nat) -> bool,
)
    requires
        holds_of_each_made(holds, at, options),
        depth > 0,
        at((depth - 1) as nat),
    ensures
        forall|k: int|
            0 <= k < file_nodes(entries, n, options, depth, first_id).len() ==> every_node(
                #[trigger] file_nodes(entries, n, options, depth, first_id)[k],
                holds,
            ),
    decreases n,
{
    if n > 0 && n <= entries.len() {
        lemma_file_nodes_every(entries, (n - 1) as nat, options, depth, first_id, holds, at);
        let front = file_nodes(entries, (n - 1) as nat, options, depth, first_id);
        let entry = entries[n - 1];
        if is_kept_file(entry, options) {
            let made = file_tree(entry, first_id + front.len(), depth);
            assert(at((depth - 1) as nat));
            assert(holds(made));
            assert(every_node(made, holds));
        }
    }
}

/// What holds of every node that is made holds of every node of the trees
/// of the directories in a directory.
proof fn lemma_dir_nodes_every(
    dir: Listing,
    n: nat,
    options: Policy,
    depth: nat,
    first_id: nat,
    holds: spec_fn(Tree) -> bool,
    at: spec_fn(nat) -> bool,
)
    requires
        holds_of_each_made(holds, at, options),
        at(depth),
    ensures
        forall|k: int|
            0 <= k < dir_nodes(dir, n, options, depth, first_id).len() ==> every_node(
                #[trigger] dir_nodes(dir, n, options, depth, first_id)[k],
                holds,
            ),
    decreases dir, n,
{
    let all = dir_nodes(dir, n, options, depth, first_id);
    if n > 0 && n <= dir.entries.len() {
        lemma_dir_nodes_every(dir, (n - 1) as nat, options, depth, first_id, holds, at);
        let entry = dir.entries[n - 1];
        let start = first_id + ids_among(dir, (n - 1) as nat, options, depth);
        let front = dir_nodes(dir, (n - 1) as nat, options, depth, first_id);
        if entry.kind == EntryKind::Directory {
            lemma_walk_every(entry, options, depth, start, holds, at);
        }
        assert forall|k: int| 0 <= k < all.len() implies every_node(#[trigger] all[k], holds) by {
            if k < front.len() {
                assert(all[k] == front[k]);
            } else {
                assert(all[k] == walk(entry, options, depth, start)->0);
            }
        }
    } else {
        assert(all.len() == 0);
    }
}

/// What holds of every node that a walk makes by itself holds of every node
/// of the tree that it returns.
pub proof fn lemma_walk_every(
    dir: Listing,
    options: Policy,
    depth: nat,
    first_id: nat,
    holds: spec_fn(Tree) -> bool,
    at: spec_fn(nat) -> bool,
)
    requires
        holds_of_each_made(holds, at, options),
        at(depth),
    ensures
        walk(dir, options, depth, first_id) matches Some(tree) ==> every_node(tree, holds),
    decreases dir, dir.entries.len() + 1,
{
    if let Some(tree) = walk(dir, options, depth, first_id) {
        let files = file_nodes(dir.entries, dir.entries.len(), options, depth + 1, first_id + 1);
        let made = children_of(dir, options, depth, first_id);
        lemma_file_nodes_every(
            dir.entries,
            dir.entries.len(),
            options,
            depth + 1,
            first_id + 1,
            holds,
            at,
        );
        if !options.reached_max_depth(depth) {
            assert(at(depth + 1));
            lemma_dir_nodes_every(
                dir,
                dir.entries.len(),
                options,
                depth + 1,
                first_id + 1 + files.len(),
                holds,
                at,
            );
        }
        assert forall|k: int| 0 <= k < made.len() implies every_node(#[trigger] made[k], holds) by {
            if k < files.len() {
                assert(made[k] == files[k]);
            } else {
                let dirs = dir_nodes(
                    dir,
                    dir.entries.len(),
                    options,
                    depth + 1,
                    first_id + 1 + files.len(),
                );
                assert(made[k] == dirs[k - files.len()]);
            }
        }
        lemma_biggest_first_rearranges(made);
        if made.len() > 0 {
            let children = tree.children->0;
            assert(children == biggest_first(made));
            assert forall|i: int| 0 <= i < children.len() implies every_node(
                #[trigger] children[i],
                holds,
            ) by {
                assert(children[i] == made[origin(made)[i]]);
            }
        }
    }
}

/// Whether the sums of a node that shows children are the sums over them:
/// its bytes and its files are theirs, and its directories are theirs and
/// itself.
pub open spec fn sums_match(node: Tree) -> bool {
    node.children matches Some(children) ==> {
        &&& node.size == total(children, Measure::Size)
        &&& node.num_files == total(children, Measure::Files)
        &&& node.num_dirs == 1 + total(children, Measure::Dirs)
    }
}

/// Whether a node is no file without bytes.
pub open spec fn is_no_empty_file(node: Tree) -> bool {
    node.node_type == FSNodeType::File ==> node.size > 0
}

/// Whether the children that a node shows are at least one, the biggest
/// first.
pub open spec fn children_in_order(node: Tree) -> bool {
    node.children matches Some(children) ==> children.len() > 0 && is_biggest_first(children)
}

/// Whether a node is made as its kind demands: a file counts as one file
/// and no directory and shows no children; a directory counts itself; and
/// every child is one level below its parent.
pub open spec fn is_well_formed(node: Tree) -> bool {
    &&& node.node_type == FSNodeType::File ==> node.children is None && node.num_files == 1
        && node.num_dirs == 0
    &&& node.node_type == FSNodeType::Directory ==> node.num_dirs >= 1
    &&& node.node_type == FSNodeType::Directory && node.children is None ==> node.size == 0
        && node.num_files == 0 && node.num_dirs == 1
    &&& node.children matches Some(children) ==> forall|i: int|
        0 <= i < children.len() ==> (#[trigger] children[i]).depth == node.depth + 1
}

/// Whether a node is not below the size threshold of `options`.
pub open spec fn is_big_enough(node: Tree, options: Policy) -> bool {
    !options.below_min_size(node.size)
}

/// Whether a node lies within the depth limit: a directory at most at the
/// limit, where it shows no directory among its children, and a file at
/// most one level below it.
pub open spec fn is_within_depth(node: Tree, limit: nat) -> bool {
    &&& node.depth <= limit + 1
    &&& node.node_type == FSNodeType::Directory ==> node.depth <= limit
    &&& node.node_type == FSNodeType::Directory && node.depth == limit ==> shows_files_only(node)
}

/// Whether every child that a node shows is a file.
pub open spec fn shows_files_only(node: Tree) -> bool {
    node.children matches Some(children) ==> forall|i: int|
        0 <= i < children.len() ==> (#[trigger] children[i]).node_type == FSNodeType::File
}

/// What a walk puts below a directory are file nodes and directory nodes
/// one level down.
proof fn lemma_children_made(dir: Listing, options: Policy, depth: nat, first_id: nat)
    ensures
        forall|k: int|
            0 <= k < children_of(dir, options, depth, first_id).len() ==> {
                let child = #[trigger] children_of(dir, options, depth, first_id)[k];
                &&& child.depth == depth + 1
                &&& options.reached_max_depth(depth) ==> child.node_type == FSNodeType::File
            },
{
    let files = file_nodes(dir.entries, dir.entries.len(), options, depth + 1, first_id + 1);
    lemma_file_nodes_shape(dir.entries, dir.entries.len(), options, depth + 1, first_id + 1);
    let made = children_of(dir, options, depth, first_id);
    if !options.reached_max_depth(depth) {
        lemma_dir_nodes_shape(dir, dir.entries.len(), options, depth + 1, first_id + 1 + files.len());
    }
    assert forall|k: int| 0 <= k < made.len() implies {
        let child = #[trigger] made[k];
        &&& child.depth == depth + 1
        &&& options.reached_max_depth(depth) ==> child.node_type == FSNodeType::File
    } by {
        if k < files.len() {
            assert(made[k] == files[k]);
        } else {
            let dirs = dir_nodes(dir, dir.entries.len(), options, depth + 1, first_id + 1 + files.len());
            assert(made[k] == dirs[k - files.len()]);
        }
    }
}

/// File nodes are files at the depth they are made for.
proof fn lemma_file_nodes_shape(
    entries: Seq<Listing>,
    n: nat,
    options: Policy,
    depth: nat,
    first_id: nat,
)
    ensures
        forall|k: int|
            0 <= k < file_nodes(entries, n, options, depth, first_id).len() ==> {
                let node = #[trigger] file_nodes(entries, n, options, depth, first_id)[k];
                &&& node.depth == depth
                &&& node.node_type == FSNodeType::File
            },
    decreases n,
{
    if n > 0 && n <= entries.len() {
        lemma_file_nodes_shape(entries, (n - 1) as nat, options, depth, first_id);
    }
}

/// The nodes of the directories in a directory lie at the depth they are
/// walked at.
proof fn lemma_dir_nodes_shape(dir: Listing, n: nat, options: Policy, depth: nat, first_id: nat)
    ensures
        forall|k: int|
            0 <= k < dir_nodes(dir, n, options, depth, first_id).len() ==> (#[trigger] dir_nodes(
                dir,
                n,
                options,
                depth,
                first_id,
            )[k]).depth == depth,
    decreases n,
{
    if n > 0 && n <= dir.entries.len() {
        lemma_dir_nodes_shape(dir, (n - 1) as nat, options, depth, first_id);
        let start = first_id + ids_among(dir, (n - 1) as nat, options, depth);
        assert(walk(dir.entries[n - 1], options, depth, start) matches Some(tree) ==> tree.depth
            == depth);
    }
}

/// What holds of the children that a walk makes holds of them once they are
/// put in order.
proof fn lemma_children_shown(
    dir: Listing,
    options: Policy,
    depth: nat,
    first_id: nat,
)
    ensures
        walk(dir, options, depth, first_id) matches Some(tree) ==> (tree.children matches Some(
            children,
        ) ==> {
            &&& children == biggest_first(children_of(dir, options, depth, first_id))
            &&& children.len() == children_of(dir, options, depth, first_id).len()
            &&& forall|i: int|
                0 <= i < children.len() ==> {
                    &&& (#[trigger] children[i]).depth == depth + 1
                    &&& options.reached_max_depth(depth) ==> children[i].node_type
                        == FSNodeType::File
                }
        }),
{
    let made = children_of(dir, options, depth, first_id);
    lemma_children_made(dir, options, depth, first_id);
    lemma_biggest_first_rearranges(made);
    if let Some(tree) = walk(dir, options, depth, first_id) {
        if let Some(children) = tree.children {
            assert forall|i: int| 0 <= i < children.len() implies {
                &&& (#[trigger] children[i]).depth == depth + 1
                &&& options.reached_max_depth(depth) ==> children[i].node_type == FSNodeType::File
            } by {
                assert(children[i] == made[origin(made)[i]]);
            }
        }
    }
}

/// In a tree that a walk returns, the size of every directory that shows
/// children is the sum of their sizes, its files are the sum of theirs, and
/// its directories are one more than the sum of theirs.
pub proof fn law_sums(dir: Listing, options: Policy, depth: nat, first_id: nat)
    ensures
        walk(dir, options, depth, first_id) matches Some(tree) ==> every_node(
            tree,
            |node: Tree| sums_match(node),
        ),
{
    let holds = |node: Tree| sums_match(node);
    let at = |d: nat| true;
    assert forall|other: Listing, d: nat, id: nat| at(d) implies (#[trigger] walk(
        other,
        options,
        d,
        id,
    ) matches Some(tree) ==> holds(tree)) by {
        let made = children_of(other, options, d, id);
        lemma_total_biggest_first(made, Measure::Size);
        lemma_total_biggest_first(made, Measure::Files);
        lemma_total_biggest_first(made, Measure::Dirs);
    }
    lemma_walk_every(dir, options, depth, first_id, holds, at);
}

/// No tree that a walk returns holds a file without bytes.
pub proof fn law_no_empty_file(dir: Listing, options: Policy, depth: nat, first_id: nat)
    ensures
        walk(dir, options, depth, first_id) matches Some(tree) ==> every_node(
            tree,
            |node: Tree| is_no_empty_file(node),
        ),
{
    let holds = |node: Tree| is_no_empty_file(node);
    let at = |d: nat| true;
    lemma_walk_every(dir, options, depth, first_id, holds, at);
}

/// In a tree that a walk returns, the children that a node shows are never
/// an empty run, and no child is followed by a bigger one.
pub proof fn law_children_in_order(dir: Listing, options: Policy, depth: nat, first_id: nat)
    ensures
        walk(dir, options, depth, first_id) matches Some(tree) ==> every_node(
            tree,
            |node: Tree| children_in_order(node),
        ),
{
    let holds = |node: Tree| children_in_order(node);
    let at = |d: nat| true;
    assert forall|other: Listing, d: nat, id: nat| at(d) implies (#[trigger] walk(
        other,
        options,
        d,
        id,
    ) matches Some(tree) ==> holds(tree)) by {
        lemma_biggest_first_in_order(children_of(other, options, d, id));
    }
    lemma_walk_every(dir, options, depth, first_id, holds, at);
}

/// In a tree that a walk returns, every node is made as its kind demands
/// and stands one level below its parent.
pub proof fn law_well_formed(dir: Listing, options: Policy, depth: nat, first_id: nat)
    ensures
        walk(dir, options, depth, first_id) matches Some(tree) ==> every_node(
            tree,
            |node: Tree| is_well_formed(node),
        ),
{
    let holds = |node: Tree| is_well_formed(node);
    let at = |d: nat| true;
    assert forall|other: Listing, d: nat, id: nat| at(d) implies (#[trigger] walk(
        other,
        options,
        d,
        id,
    ) matches Some(tree) ==> holds(tree)) by {
        lemma_children_shown(other, options, d, id);
    }
    lemma_walk_every(dir, options, depth, first_id, holds, at);
}

/// With a size threshold, no node of a tree that a walk returns is below
/// it.
pub proof fn law_min_size(dir: Listing, options: Policy, depth: nat, first_id: nat)
    ensures
        walk(dir, options, depth, first_id) matches Some(tree) ==> every_node(
            tree,
            |node: Tree| is_big_enough(node, options),
        ),
{
    let holds = |node: Tree| is_big_enough(node, options);
    let at = |d: nat| true;
    lemma_walk_every(dir, options, depth, first_id, holds, at);
}

/// With a depth limit, in a tree whose walk began no deeper than the limit
/// no directory lies deeper than the limit and no file more than one level
/// below it, and a directory at the limit shows no directory among its
/// children.
pub proof fn law_max_depth(dir: Listing, options: Policy, depth: nat, first_id: nat, limit: nat)
    requires
        options.max_depth == Some(limit),
        depth <= limit,
    ensures
        walk(dir, options, depth, first_id) matches Some(tree) ==> every_node(
            tree,
            |node: Tree| is_within_depth(node, limit),
        ),
{
    let holds = |node: Tree| is_within_depth(node, limit);
    let at = |d: nat| d <= limit;
    assert forall|other: Listing, d: nat, id: nat| at(d) implies (#[trigger] walk(
        other,
        options,
        d,
        id,
    ) matches Some(tree) ==> holds(tree)) by {
        lemma_children_shown(other, options, d, id);
    }
    lemma_walk_every(dir, options, depth, first_id, holds, at);
}

/// A directory whose walk returns nothing, its size being below the
/// threshold, adds no node to what its parent holds: the sums of the parent
/// and of every directory above are taken without it.
pub proof fn law_dropped_directory(dir: Listing, n: nat, options: Policy, depth: nat, first_id: nat)
    requires
        0 < n <= dir.entries.len(),
        walk(
            dir.entries[n - 1],
            options,
            depth,
            first_id + ids_among(dir, (n - 1) as nat, options, depth),
        ) is None,
    ensures
        dir_nodes(dir, n, options, depth, first_id) == dir_nodes(
            dir,
            (n - 1) as nat,
            options,
            depth,
            first_id,
        ),
{
}

/// A file that is not kept, be it empty, unnamed or below the threshold,
/// adds no node to what its parent holds.
pub proof fn law_dropped_file(
    entries: Seq<Listing>,
    n: nat,
    options: Policy,
    depth: nat,
    first_id: nat,
)
    requires
        0 < n <= entries.len(),
        !is_kept_file(entries[n - 1], options),
    ensures
        file_nodes(entries, n, options, depth, first_id) == file_nodes(
            entries,
            (n - 1) as nat,
            options,
            depth,
            first_id,
        ),
{
}

/// The entries that become file nodes, in their order.
pub open spec fn kept_files(entries: Seq<Listing>, options: Policy) -> Seq<Listing> {
    entries.filter(|entry: Listing| is_kept_file(entry, options))
}

/// The file nodes of a directory are the nodes of the entries that are kept
/// as files, one for one in their order and numbered one after the other.
pub proof fn law_file_nodes(entries: Seq<Listing>, options: Policy, depth: nat, first_id: nat)
    ensures
        file_nodes(entries, entries.len(), options, depth, first_id) == Seq::new(
            kept_files(entries, options).len(),
            |k: int| file_tree(kept_files(entries, options)[k], (first_id + k) as nat, depth),
        ),
    decreases entries.len(),
{
    reveal(Seq::filter);
    let made = file_nodes(entries, entries.len(), options, depth, first_id);
    let kept = kept_files(entries, options);
    let listed = Seq::new(
        kept.len(),
        |k: int| file_tree(kept[k], (first_id + k) as nat, depth),
    );
    if entries.len() > 0 {
        let shorter = entries.drop_last();
        law_file_nodes(shorter, options, depth, first_id);
        lemma_file_nodes_same(entries, shorter, shorter.len(), options, depth, first_id);
        let front = file_nodes(shorter, shorter.len(), options, depth, first_id);
        assert(front == file_nodes(entries, shorter.len(), options, depth, first_id));
        if is_kept_file(entries.last(), options) {
            assert(kept == kept_files(shorter, options).push(entries.last()));
        } else {
            assert(kept == kept_files(shorter, options));
        }
    }
    assert(made =~= listed);
}

/// The file nodes made of the first entries do not depend on what comes
/// behind them.
proof fn lemma_file_nodes_same(
    entries: Seq<Listing>,
    others: Seq<Listing>,
    n: nat,
    options: Policy,
    depth: nat,
    first_id: nat,
)
    requires
        n <= entries.len(),
        n <= others.len(),
        forall|i: int| 0 <= i < n ==> entries[i] == others[i],
    ensures
        file_nodes(entries, n, options, depth, first_id) == file_nodes(
            others,
            n,
            options,
            depth,
            first_id,
        ),
    decreases n,
{
    if n > 0 {
        lemma_file_nodes_same(entries, others, (n - 1) as nat, options, depth, first_id);
    }
}

/// A search finds a node exactly where the tree carries the identifier,
/// and the node it finds carries it.
pub proof fn law_find(tree: Tree, id: nat)
    ensures
        tree.find(id) is Some <==> tree.has_id(id),
        tree.find(id) matches Some(found) ==> found.id == id,
    decreases tree, tree.arity() + 1,
{
    if tree.id != id {
        lemma_find_among(tree, tree.arity(), id);
        if tree.has_id(id) {
            let children = tree.children->0;
            let i = choose|i: int| 0 <= i < children.len() && (#[trigger] children[i]).has_id(id);
            assert(tree.children->0[i].has_id(id));
        }
    }
}

/// A search among the first children finds a node exactly where one of
/// them carries the identifier.
proof fn lemma_find_among(tree: Tree, n: nat, id: nat)
    requires
        n <= tree.arity(),
    ensures
        tree.find_among(n, id) matches Some(found) ==> found.id == id,
        tree.find_among(n, id) is Some ==> exists|i: int|
            0 <= i < n && (#[trigger] tree.children->0[i]).has_id(id),
        tree.find_among(n, id) is None ==> forall|i: int|
            0 <= i < n ==> !(#[trigger] tree.children->0[i]).has_id(id),
    decreases tree, n,
{
    if n > 0 {
        lemma_find_among(tree, (n - 1) as nat, id);
        law_find(tree.children->0[n - 1], id);
        if tree.find_among((n - 1) as nat, id) is None && tree.find_among(n, id) is Some {
            assert(tree.children->0[n - 1].has_id(id));
        }
    }
}

/// What holds of every node of a tree holds of the node that a search
/// finds in it.
pub proof fn law_found_node(tree: Tree, id: nat, holds: spec_fn(Tree) -> bool)
    requires
        every_node(tree, holds),
    ensures
        tree.find(id) matches Some(found) ==> every_node(found, holds),
    decreases tree, tree.arity() + 1,
{
    if tree.id != id {
        lemma_found_among(tree, tree.arity(), id, holds);
    }
}

/// What holds of every node of a tree holds of the node that a search
/// among its first children finds.
proof fn lemma_found_among(tree: Tree, n: nat, id: nat, holds: spec_fn(Tree) -> bool)
    requires
        every_node(tree, holds),
        n <= tree.arity(),
    ensures
        tree.find_among(n, id) matches Some(found) ==> every_node(found, holds),
    decreases tree, n,
{
    if n > 0 {
        lemma_found_among(tree, (n - 1) as nat, id, holds);
        law_found_node(tree.children->0[n - 1], id, holds);
    }
}

/// A node cut down to one level of children shows no child with children
/// of its own, and keeps its own fields and those of its children.
pub proof fn law_two_levels(tree: Tree)
    ensures
        tree.only_direct_children().without_children() == tree.without_children(),
        tree.only_direct_children().children is Some <==> tree.children is Some,
        tree.only_direct_children().children matches Some(shown) ==> shown.len() == tree.arity()
            && forall|i: int|
            0 <= i < shown.len() ==> (#[trigger] shown[i]).children is None && shown[i]
                == tree.children->0[i].without_children(),
{
}

/// Whether every identifier carried in `tree` lies from `low` up to, but
/// not at, `high`.
pub open spec fn ids_within(tree: Tree, low: nat, high: nat) -> bool {
    forall|id: nat| #[trigger] tree.has_id(id) ==> low <= id < high
}

/// Whether no identifier is carried both in `one` and in `other`.
pub open spec fn ids_apart(one: Tree, other: Tree) -> bool {
    forall|id: nat| #[trigger] one.has_id(id) ==> !other.has_id(id)
}

/// Whether no identifier is carried by two nodes of `tree`: the identifier
/// of a node is carried nowhere below it, none is carried below two of its
/// children, and the same holds within each child.
pub open spec fn ids_distinct(tree: Tree) -> bool
    decreases tree,
{
    tree.children matches Some(children) ==> {
        &&& forall|i: int| 0 <= i < children.len() ==> !(#[trigger] children[i]).has_id(tree.id)
        &&& forall|i: int, j: int|
            0 <= i < children.len() && 0 <= j < children.len() && i != j ==> ids_apart(
                #[trigger] children[i],
                #[trigger] children[j],
            )
        &&& forall|i: int| 0 <= i < children.len() ==> ids_distinct(#[trigger] children[i])
    }
}

/// Whether the nodes of a run carry their identifiers apart from each
/// other, each node without a repeat, all from `low` up to, but not at,
/// `high`.
pub open spec fn ids_spread(nodes: Seq<Tree>, low: nat, high: nat) -> bool {
    &&& forall|k: int| 0 <= k < nodes.len() ==> ids_within(#[trigger] nodes[k], low, high)
    &&& forall|k: int| 0 <= k < nodes.len() ==> ids_distinct(#[trigger] nodes[k])
    &&& forall|j: int, k: int|
        0 <= j < nodes.len() && 0 <= k < nodes.len() && j != k ==> ids_apart(
            #[trigger] nodes[j],
            #[trigger] nodes[k],
        )
}

/// One more node whose identifiers start where those of the run stop keeps
/// the run spread.
proof fn lemma_ids_spread_push(nodes: Seq<Tree>, node: Tree, low: nat, mid: nat, high: nat)
    requires
        ids_spread(nodes, low, mid),
        ids_within(node, mid, high),
        ids_distinct(node),
        low <= mid <= high,
    ensures
        ids_spread(nodes.push(node), low, high),
{
    let all = nodes.push(node);
    assert forall|k: int| 0 <= k < all.len() implies ids_within(#[trigger] all[k], low, high) by {
        if k < nodes.len() {
            assert(ids_within(nodes[k], low, mid));
        }
    }
    assert forall|j: int, k: int| 0 <= j < all.len() && 0 <= k < all.len() && j != k implies ids_apart(
        #[trigger] all[j],
        #[trigger] all[k],
    ) by {
        if j < nodes.len() && k < nodes.len() {
            assert(ids_apart(nodes[j], nodes[k]));
        } else if j < nodes.len() {
            assert(ids_within(nodes[j], low, mid));
        } else {
            assert(ids_within(nodes[k], low, mid));
        }
    }
    assert forall|k: int| 0 <= k < all.len() implies ids_distinct(#[trigger] all[k]) by {
        if k < nodes.len() {
            assert(ids_distinct(nodes[k]));
        }
    }
}

/// A run that is spread over a range is spread over any wider one.
proof fn lemma_ids_spread_wider(nodes: Seq<Tree>, low: nat, high: nat, lower: nat, higher: nat)
    requires
        ids_spread(nodes, low, high),
        lower <= low,
        high <= higher,
    ensures
        ids_spread(nodes, lower, higher),
{
    assert forall|k: int| 0 <= k < nodes.len() implies ids_within(#[trigger] nodes[k], lower, higher) by {
        assert(ids_within(nodes[k], low, high));
    }
}

/// The file nodes of a directory carry one identifier each, one after the
/// other from the first.
proof fn lemma_file_nodes_ids(
    entries: Seq<Listing>,
    n: nat,
    options: Policy,
    depth: nat,
    first_id: nat,
)
    ensures
        ids_spread(
            file_nodes(entries, n, options, depth, first_id),
            first_id,
            first_id + files_kept(entries, n, options),
        ),
    decreases n,
{
    let all = file_nodes(entries, n, options, depth, first_id);
    if n > 0 && n <= entries.len() {
        lemma_file_nodes_ids(entries, (n - 1) as nat, options, depth, first_id);
        lemma_file_nodes_len(entries, (n - 1) as nat, options, depth, first_id);
        let front = file_nodes(entries, (n - 1) as nat, options, depth, first_id);
        let entry = entries[n - 1];
        if is_kept_file(entry, options) {
            let made = file_tree(entry, first_id + front.len(), depth);
            assert(ids_within(made, first_id + front.len(), first_id + front.len() + 1));
            assert(ids_distinct(made));
            lemma_ids_spread_push(
                front,
                made,
                first_id,
                first_id + front.len(),
                first_id + front.len() + 1,
            );
        }
    } else {
        assert(all.len() == 0);
    }
}

/// The trees of the directories in a directory carry their identifiers
/// apart, within those that their walks take.
proof fn lemma_dir_nodes_ids(dir: Listing, n: nat, options: Policy, depth: nat, first_id: nat)
    ensures
        ids_spread(
            dir_nodes(dir, n, options, depth, first_id),
            first_id,
            first_id + ids_among(dir, n, options, depth),
        ),
    decreases dir, n,
{
    let all = dir_nodes(dir, n, options, depth, first_id);
    if n > 0 && n <= dir.entries.len() {
        lemma_dir_nodes_ids(dir, (n - 1) as nat, options, depth, first_id);
        let front = dir_nodes(dir, (n - 1) as nat, options, depth, first_id);
        let entry = dir.entries[n - 1];
        let start = first_id + ids_among(dir, (n - 1) as nat, options, depth);
        let stop = first_id + ids_among(dir, n, options, depth);
        if entry.kind == EntryKind::Directory {
            law_ids(entry, options, depth, start);
            match walk(entry, options, depth, start) {
                Some(tree) => {
                    lemma_ids_spread_push(front, tree, first_id, start, stop);
                },
                None => {
                    lemma_ids_spread_wider(front, first_id, start, first_id, stop);
                },
            }
        }
    } else {
        assert(all.len() == 0);
    }
}

/// The identifiers in a tree that a walk returns are unique: no two nodes
/// carry the same. The root carries the first identifier of the walk, and
/// all lie among those that the walk takes.
pub proof fn law_ids(dir: Listing, options: Policy, depth: nat, first_id: nat)
    ensures
        walk(dir, options, depth, first_id) matches Some(tree) ==> {
            &&& tree.id == first_id
            &&& ids_distinct(tree)
            &&& ids_within(tree, first_id, first_id + ids_used(dir, options, depth))
        },
    decreases dir, dir.entries.len() + 1,
{
    if let Some(tree) = walk(dir, options, depth, first_id) {
        let count = dir.entries.len();
        let files = file_nodes(dir.entries, count, options, depth + 1, first_id + 1);
        let base = first_id + 1 + files.len();
        let stop = first_id + ids_used(dir, options, depth);
        let made = children_of(dir, options, depth, first_id);
        lemma_file_nodes_ids(dir.entries, count, options, depth + 1, first_id + 1);
        lemma_file_nodes_len(dir.entries, count, options, depth + 1, first_id + 1);
        if options.reached_max_depth(depth) {
            assert(made =~= files);
        } else {
            let dirs = dir_nodes(dir, count, options, depth + 1, base);
            lemma_dir_nodes_ids(dir, count, options, depth + 1, base);
            lemma_ids_spread_concat(files, dirs, first_id + 1, base, stop);
        }
        assert(ids_spread(made, first_id + 1, stop));
        lemma_biggest_first_rearranges(made);
        if made.len() > 0 {
            let children = tree.children->0;
            let from = origin(made);
            assert forall|i: int| 0 <= i < children.len() implies !(#[trigger] children[i]).has_id(
                tree.id,
            ) && ids_distinct(children[i]) && ids_within(children[i], first_id + 1, stop) by {
                assert(children[i] == made[from[i]]);
                assert(ids_within(made[from[i]], first_id + 1, stop));
            }
            assert forall|i: int, j: int|
                0 <= i < children.len() && 0 <= j < children.len() && i != j implies ids_apart(
                #[trigger] children[i],
                #[trigger] children[j],
            ) by {
                assert(children[i] == made[from[i]]);
                assert(children[j] == made[from[j]]);
                if i < j {
                    assert(from[i] != from[j]);
                } else {
                    assert(from[j] != from[i]);
                }
                assert(ids_apart(made[from[i]], made[from[j]]));
            }
            assert(ids_distinct(tree));
            assert forall|id: nat| #[trigger] tree.has_id(id) implies first_id <= id < stop by {
                if id != tree.id {
                    let i = choose|i: int| 0 <= i < children.len() && (#[trigger] children[i]).has_id(id);
                    assert(ids_within(children[i], first_id + 1, stop));
                }
            }
        } else {
            assert(ids_distinct(tree));
            assert forall|id: nat| #[trigger] tree.has_id(id) implies first_id <= id < stop by {}
        }
    }
}

/// Two runs that are spread over ranges that follow each other are spread,
/// one behind the other, over both.
proof fn lemma_ids_spread_concat(a: Seq<Tree>, b: Seq<Tree>, low: nat, mid: nat, high: nat)
    requires
        ids_spread(a, low, mid),
        ids_spread(b, mid, high),
        low <= mid <= high,
    ensures
        ids_spread(a + b, low, high),
{
    let all = a + b;
    assert forall|k: int| 0 <= k < all.len() implies ids_within(#[trigger] all[k], low, high)
        && ids_distinct(all[k]) by {
        if k < a.len() {
            assert(ids_within(a[k], low, mid) && ids_distinct(a[k]));
        } else {
            assert(ids_within(b[k - a.len()], mid, high) && ids_distinct(b[k - a.len()]));
        }
    }
    assert forall|j: int, k: int| 0 <= j < all.len() && 0 <= k < all.len() && j != k implies ids_apart(
        #[trigger] all[j],
        #[trigger] all[k],
    ) by {
        if j < a.len() && k < a.len() {
            assert(ids_apart(a[j], a[k]));
        } else if j >= a.len() && k >= a.len() {
            assert(ids_apart(b[j - a.len()], b[k - a.len()]));
        } else if j < a.len() {
            assert(ids_within(a[j], low, mid) && ids_within(b[k - a.len()], mid, high));
        } else {
            assert(ids_within(a[k], low, mid) && ids_within(b[j - a.len()], mid, high));
        }
    }
}

} // verus!
