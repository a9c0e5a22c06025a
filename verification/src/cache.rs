//! The result cache and what is served from it: the scan that fills it and
//! the lookup by identifier that reads it.

use vstd::prelude::*;
use crate::laws::law_find;
use crate::limits::{lemma_weight_fits, weight};
use crate::listing::Entry;
use crate::node::{tree_of, tree_of_ref, FSNode, Tree};
use crate::options::{limit32, limit64, Policy, TraverseOptions};
use crate::traverse::{read_recursive_inner, walk, walk_fits, IdAllocator};

verus! {

/// The single slot that holds the tree of the last scan that kept its root.
/// It is empty until such a scan is done, and each one replaces the tree as
/// a whole.
#[derive(Debug)]
pub struct AppState {
    node: Option<FSNode>,
}

impl View for AppState {
    type V = Option<Tree>;

    /// The tree that is held, if any.
    closed spec fn view(&self) -> Option<Tree> {
        tree_of(self.node)
    }
}

impl Default for AppState {
    /// The empty cache.
    fn default() -> (state: AppState)
        ensures
            state@ is None,
    {
        AppState { node: None }
    }
}

impl AppState {
    /// Puts `node` in place of whatever was held.
    pub fn replace(&mut self, node: FSNode)
        ensures
            final(self)@ == Some(node@),
    {
        self.node = Some(node);
    }

    /// The whole tree that is held, if any.
    pub fn node(&self) -> (node: Option<&FSNode>)
        ensures
            tree_of_ref(node) == self@,
    {
        self.node.as_ref()
    }

    /// A copy of the whole tree that is held, at its full depth, as an
    /// export writes it.
    pub fn snapshot(&self) -> (node: Option<FSNode>)
        ensures
            tree_of(node) == self@,
    {
        match &self.node {
            Some(node) => Some(node.clone()),
            None => None,
        }
    }
}

/// What a scan answers: the root with one level of children, and the time
/// the scan took.
#[derive(Debug)]
pub struct Response {
    node: FSNode,
    time_took_millis: u128,
}

impl Response {
    /// The answer made of `node` and the time taken.
    pub fn new(node: FSNode, time_took_millis: u128) -> (response: Response)
        ensures
            response.tree() == node@,
            response.millis() == time_took_millis,
    {
        Response { node, time_took_millis }
    }

    /// The value of the node that is answered.
    pub closed spec fn tree(&self) -> Tree {
        self.node@
    }

    /// The time that is answered, in milliseconds.
    pub closed spec fn millis(&self) -> u128 {
        self.time_took_millis
    }

    /// The node that is answered.
    pub fn node(&self) -> (node: &FSNode)
        ensures
            node@ == self.tree(),
    {
        &self.node
    }

    /// The time the scan took, in milliseconds.
    pub fn time_took_millis(&self) -> (millis: u128)
        ensures
            millis == self.millis(),
    {
        self.time_took_millis
    }

    /// Gives up the node that is answered.
    pub fn into_node(self) -> (node: FSNode)
        ensures
            node@ == self.tree(),
    {
        self.node
    }
}

/// The policies of a scan with the given limits: links are not followed.
pub open spec fn scan_policy(max_depth: Option<u32>, min_size: Option<u64>) -> Policy {
    Policy { follow_system_links: false, max_depth: limit32(max_depth), min_size: limit64(min_size) }
}

/// What a scan answers for the tree it made: the root with one level of
/// children, or an empty unnamed directory where the root itself was
/// dropped.
pub open spec fn scan_answer(made: Option<Tree>) -> Tree {
    match made {
        Some(tree) => tree.only_direct_children(),
        None => Tree::empty_directory(Seq::empty(), 0),
    }
}

/// What the cache holds after a scan: the tree it made or, where the root
/// was dropped, what it held before.
pub open spec fn scan_cache(made: Option<Tree>, before: Option<Tree>) -> Option<Tree> {
    match made {
        Some(tree) => Some(tree),
        None => before,
    }
}

/// What a lookup answers: the first node in pre-order of the held tree that
/// carries `id`, with one level of children.
pub open spec fn lookup_answer(held: Option<Tree>, id: nat) -> Option<Tree> {
    match held {
        Some(tree) => match tree.find(id) {
            Some(found) => Some(found.only_direct_children()),
            None => None,
        },
        None => None,
    }
}

/// Scans `root` as it was read, at depth 0 with identifiers from 0 on and
/// without following links. The full tree goes into the cache; the answer
/// is its root with one level of children. Where the root itself is below
/// the size threshold the cache is left as it was and the answer is an
/// empty unnamed directory.
pub fn read_recursive(
    root: &Entry,
    max_depth: Option<u32>,
    min_size: Option<u64>,
    state: &mut AppState,
) -> (node: FSNode)
    requires
        walk_fits(root@, scan_policy(max_depth, min_size), 0, 0),
    ensures
        node@ == scan_answer(walk(root@, scan_policy(max_depth, min_size), 0, 0)),
        final(state)@ == scan_cache(walk(root@, scan_policy(max_depth, min_size), 0, 0), old(state)@),
{
    let options = TraverseOptions::builder().follow_system_links(false).maybe_max_depth(
        max_depth,
    ).maybe_min_size(min_size).build();
    let mut counter = IdAllocator::new();
    match read_recursive_inner(root, &mut counter, &options, 0) {
        Some(node) => {
            let direct_children_node = node.clone_only_direct_children();
            state.replace(node);
            direct_children_node
        },
        None => FSNode::directory_node(String::new(), 0),
    }
}

/// Scans `root` as `read_recursive` does, where its weight is within 64
/// bits, and answers `None` without touching the cache where it is not.
pub fn read_recursive_checked(
    root: &Entry,
    max_depth: Option<u32>,
    min_size: Option<u64>,
    state: &mut AppState,
) -> (node: Option<FSNode>)
    ensures
        weight(root@) <= u64::MAX ==> tree_of(node) == Some(
            scan_answer(walk(root@, scan_policy(max_depth, min_size), 0, 0)),
        ) && final(state)@ == scan_cache(
            walk(root@, scan_policy(max_depth, min_size), 0, 0),
            old(state)@,
        ),
        weight(root@) > u64::MAX ==> node is None && final(state)@ == old(state)@,
{
    match root.weight() {
        Some(_) => {
            proof {
                lemma_weight_fits(root@, scan_policy(max_depth, min_size), 0, 0);
            }
            Some(read_recursive(root, max_depth, min_size, state))
        },
        None => None,
    }
}

/// The node of the held tree that carries `id`, with one level of children:
/// the children of its children are left out. `None` where no held node
/// carries `id`, and where nothing is held.
pub fn get_node_by_id(id: u64, state: &AppState) -> (found: Option<FSNode>)
    ensures
        tree_of(found) == lookup_answer(state@, id as nat),
        found matches Some(node) ==> node@.id == id && (node@.children matches Some(shown)
            ==> forall|i: int| 0 <= i < shown.len() ==> (#[trigger] shown[i]).children is None),
{
    proof {
        if let Some(tree) = state@ {
            law_find(tree, id as nat);
        }
    }
    match state.node() {
        Some(node) => match node.get_node_by_id(id) {
            Some(found_node) => Some(found_node.clone_only_direct_children()),
            None => None,
        },
        None => None,
    }
}

} // verus!
