//! The traversal: from the listing of a directory to its node, with the
//! nodes of what it holds aggregated bottom-up, filtered by size and depth
//! and put in order.

use vstd::prelude::*;
use crate::aggregate::{total, totals, Measure};
use crate::listing::{lemma_view_entries, listings, Entry, EntryKind, Listing};
use crate::node::{lemma_trees_push, lemma_view_children, tree_of, trees, FSNode, FSNodeType, Tree};
use crate::options::{Policy, TraverseOptions};
use crate::order::{biggest_first, sort_biggest_first};

verus! {

/// Hands out the identifiers of one traversal, each once, counting up.
#[derive(Debug)]
pub struct IdAllocator {
    next: u64,
}

impl View for IdAllocator {
    type V = nat;

    /// The identifier that is handed out next.
    closed spec fn view(&self) -> nat {
        self.next as nat
    }
}

impl IdAllocator {
    /// An allocator that starts at zero.
    pub fn new() -> (ids: IdAllocator)
        ensures
            ids@ == 0,
    {
        IdAllocator { next: 0 }
    }

    /// An allocator that starts at `first`.
    pub fn starting_at(first: u64) -> (ids: IdAllocator)
        ensures
            ids@ == first,
    {
        IdAllocator { next: first }
    }

    /// The identifier that would be handed out next.
    pub fn peek(&self) -> (id: u64)
        ensures
            id == self@,
    {
        self.next
    }

    /// Hands out the next identifier.
    pub fn fetch_and_increment(&mut self) -> (id: u64)
        requires
            old(self)@ < u64::MAX,
        ensures
            id == old(self)@,
            final(self)@ == old(self)@ + 1,
    {
        let id = self.next;
        self.next = self.next + 1;
        id
    }
}

/// Whether an entry becomes a file node: it is a file with a name and at
/// least one byte, and it is not below the size threshold.
pub open spec fn is_kept_file(entry: Listing, options: Policy) -> bool {
    &&& entry.kind == EntryKind::File
    &&& entry.name.len() > 0
    &&& entry.size > 0
    &&& !options.below_min_size(entry.size)
}

/// The node of a file.
pub open spec fn file_tree(entry: Listing, id: nat, depth: nat) -> Tree {
    Tree {
        id,
        name: entry.name,
        size: entry.size,
        node_type: FSNodeType::File,
        children: None,
        num_files: 1,
        num_dirs: 0,
        depth,
    }
}

/// The nodes of the files kept among the first `n` entries, in the order of
/// the entries, at `depth`, numbered from `first_id` on.
pub open spec fn file_nodes(
    entries: Seq<Listing>,
    n: nat,
    options: Policy,
    depth: nat,
    first_id: nat,
) -> Seq<Tree>
    decreases n,
{
    if n == 0 || n > entries.len() {
        Seq::empty()
    } else {
        let front = file_nodes(entries, (n - 1) as nat, options, depth, first_id);
        let entry = entries[n - 1];
        if is_kept_file(entry, options) {
            front.push(file_tree(entry, first_id + front.len(), depth))
        } else {
            front
        }
    }
}

/// How many of the first `n` entries become file nodes.
pub open spec fn files_kept(entries: Seq<Listing>, n: nat, options: Policy) -> nat
    decreases n,
{
    if n == 0 || n > entries.len() {
        0
    } else {
        files_kept(entries, (n - 1) as nat, options) + if is_kept_file(entries[n - 1], options) {
            1nat
        } else {
            0nat
        }
    }
}

/// How many identifiers the walks of the directories among the first `n`
/// entries of `dir` take, each walked at `depth`.
pub open spec fn ids_among(dir: Listing, n: nat, options: Policy, depth: nat) -> nat
    decreases dir, n,
{
    if n == 0 || n > dir.entries.len() {
        0
    } else {
        let entry = dir.entries[n - 1];
        ids_among(dir, (n - 1) as nat, options, depth) + if entry.kind == EntryKind::Directory {
            ids_used(entry, options, depth)
        } else {
            0
        }
    }
}

/// How many identifiers the walk of `dir` at `depth` takes: one for the
/// directory, one for each file kept in it and, where the depth limit is not
/// reached, those of the directories in it. A directory that is dropped for
/// its size has taken its identifiers all the same.
pub open spec fn ids_used(dir: Listing, options: Policy, depth: nat) -> nat
    decreases dir, dir.entries.len() + 1,
{
    1 + files_kept(dir.entries, dir.entries.len(), options) + if options.reached_max_depth(depth) {
        0
    } else {
        ids_among(dir, dir.entries.len(), options, depth + 1)
    }
}

/// The nodes of the directories among the first `n` entries of `dir` that
/// are kept, in the order of the entries. Each is walked at `depth`, the
/// first from `first_id` on and every other from where the one before it
/// stopped.
pub open spec fn dir_nodes(
    dir: Listing,
    n: nat,
    options: Policy,
    depth: nat,
    first_id: nat,
) -> Seq<Tree>
    decreases dir, n,
{
    if n == 0 || n > dir.entries.len() {
        Seq::empty()
    } else {
        let front = dir_nodes(dir, (n - 1) as nat, options, depth, first_id);
        let entry = dir.entries[n - 1];
        if entry.kind == EntryKind::Directory {
            match walk(entry, options, depth, first_id + ids_among(dir, (n - 1) as nat, options, depth)) {
                Some(tree) => front.push(tree),
                None => front,
            }
        } else {
            front
        }
    }
}

/// What `dir` at `depth` holds once filtered, before it is put in order:
/// the nodes of its files, then those of its directories.
pub open spec fn children_of(dir: Listing, options: Policy, depth: nat, first_id: nat) -> Seq<Tree>
    decreases dir, dir.entries.len() + 1,
{
    let files = file_nodes(dir.entries, dir.entries.len(), options, depth + 1, first_id + 1);
    let dirs = if options.reached_max_depth(depth) {
        Seq::empty()
    } else {
        dir_nodes(dir, dir.entries.len(), options, depth + 1, first_id + 1 + files.len())
    };
    files + dirs
}

/// The node of `dir` walked at `depth` with identifiers from `first_id` on,
/// or `None` where its size is below the threshold.
pub open spec fn walk(dir: Listing, options: Policy, depth: nat, first_id: nat) -> Option<Tree>
    decreases dir, dir.entries.len() + 2,
{
    let children = children_of(dir, options, depth, first_id);
    let size = total(children, Measure::Size);
    if options.below_min_size(size) {
        None
    } else {
        Some(
            Tree {
                id: first_id,
                name: dir.name,
                size,
                node_type: FSNodeType::Directory,
                children: if children.len() == 0 {
                    None
                } else {
                    Some(biggest_first(children))
                },
                num_files: total(children, Measure::Files),
                num_dirs: 1 + total(children, Measure::Dirs),
                depth,
            },
        )
    }
}

/// Whether the walks of the directories among the first `n` entries of
/// `dir` stay within 64 bits.
pub open spec fn dirs_fit(dir: Listing, n: nat, options: Policy, depth: nat, first_id: nat) -> bool
    decreases dir, n,
{
    if n == 0 || n > dir.entries.len() {
        true
    } else {
        let entry = dir.entries[n - 1];
        &&& dirs_fit(dir, (n - 1) as nat, options, depth, first_id)
        &&& entry.kind == EntryKind::Directory ==> walk_fits(
            entry,
            options,
            depth,
            first_id + ids_among(dir, (n - 1) as nat, options, depth),
        )
    }
}

/// Whether the walk of `dir` stays within 64 bits: the depth of what it
/// holds, the identifiers it takes and the sums of every directory it
/// enters.
pub open spec fn walk_fits(dir: Listing, options: Policy, depth: nat, first_id: nat) -> bool
    decreases dir, dir.entries.len() + 1,
{
    let children = children_of(dir, options, depth, first_id);
    let files = file_nodes(dir.entries, dir.entries.len(), options, depth + 1, first_id + 1);
    &&& depth < u64::MAX
    &&& first_id + ids_used(dir, options, depth) <= u64::MAX
    &&& total(children, Measure::Size) <= u64::MAX
    &&& total(children, Measure::Files) <= u64::MAX
    &&& 1 + total(children, Measure::Dirs) <= u64::MAX
    &&& !options.reached_max_depth(depth) ==> dirs_fit(
        dir,
        dir.entries.len(),
        options,
        depth + 1,
        first_id + 1 + files.len(),
    )
}

/// There are as many file nodes as entries that are kept as files.
pub proof fn lemma_file_nodes_len(
    entries: Seq<Listing>,
    n: nat,
    options: Policy,
    depth: nat,
    first_id: nat,
)
    ensures
        file_nodes(entries, n, options, depth, first_id).len() == files_kept(entries, n, options),
    decreases n,
{
    if n > 0 && n <= entries.len() {
        lemma_file_nodes_len(entries, (n - 1) as nat, options, depth, first_id);
    }
}

/// Among more entries no fewer are kept as files.
pub proof fn lemma_files_kept_grows(entries: Seq<Listing>, n: nat, m: nat, options: Policy)
    requires
        n <= m <= entries.len(),
    ensures
        files_kept(entries, n, options) <= files_kept(entries, m, options),
    decreases m,
{
    if n < m {
        lemma_files_kept_grows(entries, n, (m - 1) as nat, options);
    }
}

/// Where the walks of the directories among the first entries fit, so do
/// those among fewer of them.
pub proof fn lemma_dirs_fit_before(
    dir: Listing,
    n: nat,
    m: nat,
    options: Policy,
    depth: nat,
    first_id: nat,
)
    requires
        n <= m <= dir.entries.len(),
        dirs_fit(dir, m, options, depth, first_id),
    ensures
        dirs_fit(dir, n, options, depth, first_id),
    decreases m,
{
    if n < m {
        lemma_dirs_fit_before(dir, n, (m - 1) as nat, options, depth, first_id);
    }
}

/// The nodes of the files kept in `entries`, in their order, at `depth`.
fn read_files(
    entries: &Vec<Entry>,
    counter: &mut IdAllocator,
    options: &TraverseOptions,
    depth: u64,
) -> (nodes: Vec<FSNode>)
    requires
        old(counter)@ + files_kept(listings(entries@), entries@.len(), options@) <= u64::MAX,
    ensures
        trees(nodes@) == file_nodes(
            listings(entries@),
            entries@.len(),
            options@,
            depth as nat,
            old(counter)@,
        ),
        final(counter)@ == old(counter)@ + nodes@.len(),
{
    let ghost first_id = counter@;
    let ghost listed = listings(entries@);
    let mut nodes: Vec<FSNode> = Vec::new();
    let mut i: usize = 0;
    assert(trees(nodes@) =~= Seq::<Tree>::empty());
    while i < entries.len()
        invariant
            i <= entries.len(),
            listed == listings(entries@),
            first_id + files_kept(listed, listed.len(), options@) <= u64::MAX,
            trees(nodes@) == file_nodes(listed, i as nat, options@, depth as nat, first_id),
            counter@ == first_id + nodes@.len(),
        decreases entries.len() - i,
    {
        let entry = &entries[i];
        proof {
            lemma_file_nodes_len(listed, i as nat, options@, depth as nat, first_id);
            lemma_file_nodes_len(listed, (i + 1) as nat, options@, depth as nat, first_id);
            lemma_files_kept_grows(listed, (i + 1) as nat, listed.len(), options@);
            assert(listed[i as int] == entry@);
        }
        let is_file = match entry.kind {
            EntryKind::File => true,
            _ => false,
        };
        if is_file && !entry.name.as_str().is_empty() && entry.size > 0 && !options.below_min_size(
            entry.size,
        ) {
            let id = counter.fetch_and_increment();
            let node = FSNode {
                id,
                name: entry.name.clone(),
                children: None,
                size: entry.size,
                node_type: FSNodeType::File,
                num_files: 1,
                num_dirs: 0,
                depth,
            };
            proof {
                lemma_trees_push(nodes@, node);
                assert(node@ == file_tree(entry@, id as nat, depth as nat));
            }
            nodes.push(node);
        }
        i += 1;
    }
    nodes
}

/// The node of the directory `dir` at `depth`, or `None` where its size is
/// below the threshold. The entries of `dir` are taken as they were read:
/// files with a name and at least one byte become nodes unless they are
/// below the threshold; directories are walked in turn unless the depth
/// limit is reached at `depth`; everything else is left out. `dir` itself
/// is walked as a directory whatever its kind says.
pub fn read_recursive_inner(
    dir: &Entry,
    counter: &mut IdAllocator,
    options: &TraverseOptions,
    depth: u64,
) -> (node: Option<FSNode>)
    requires
        walk_fits(dir@, options@, depth as nat, old(counter)@),
    ensures
        tree_of(node) == walk(dir@, options@, depth as nat, old(counter)@),
        final(counter)@ == old(counter)@ + ids_used(dir@, options@, depth as nat),
    decreases dir,
{
    let ghost first_id = counter@;
    let ghost listing = dir@;
    proof {
        lemma_view_entries(*dir);
        lemma_file_nodes_len(
            listing.entries,
            listing.entries.len(),
            options@,
            (depth + 1) as nat,
            first_id + 1,
        );
    }
    let id = counter.fetch_and_increment();
    let mut node = FSNode::directory_node(dir.name.clone(), id);
    node.depth = depth;

    let mut children = read_files(&dir.entries, counter, options, depth + 1);
    let ghost files = trees(children@);
    let ghost base = counter@;

    if !options.reached_max_depth(depth) {
        let mut i: usize = 0;
        while i < dir.entries.len()
            invariant
                i <= dir.entries.len(),
                listing == dir@,
                listing.entries == listings(dir.entries@),
                depth < u64::MAX,
                dirs_fit(listing, listing.entries.len(), options@, (depth + 1) as nat, base),
                trees(children@) == files + dir_nodes(
                    listing,
                    i as nat,
                    options@,
                    (depth + 1) as nat,
                    base,
                ),
                counter@ == base + ids_among(listing, i as nat, options@, (depth + 1) as nat),
            decreases dir.entries.len() - i,
        {
            let entry = &dir.entries[i];
            proof {
                lemma_dirs_fit_before(
                    listing,
                    (i + 1) as nat,
                    listing.entries.len(),
                    options@,
                    (depth + 1) as nat,
                    base,
                );
                assert(listing.entries[i as int] == entry@);
            }
            let is_dir = match entry.kind {
                EntryKind::Directory => true,
                _ => false,
            };
            if is_dir {
                assert(decreases_to!(dir => dir.entries@[i as int]));
                match read_recursive_inner(entry, counter, options, depth + 1) {
                    Some(node) => {
                        proof {
                            lemma_trees_push(children@, node);
                            assert(trees(children@).push(node@) =~= files + dir_nodes(
                                listing,
                                i as nat,
                                options@,
                                (depth + 1) as nat,
                                base,
                            ).push(node@));
                        }
                        children.push(node);
                    },
                    None => {},
                }
            }
            i += 1;
        }
    } else {
        assert(trees(children@) =~= files + Seq::<Tree>::empty());
    }
    assert(trees(children@) == children_of(listing, options@, depth as nat, first_id));

    let sums = totals(&children);
    node.size = sums.size;
    node.num_files = sums.num_files;
    node.num_dirs = node.num_dirs + sums.num_dirs;

    if options.below_min_size(node.size) {
        return None;
    }
    if children.len() > 0 {
        node.children = Some(sort_biggest_first(children));
    }
    proof {
        lemma_view_children(node);
    }
    Some(node)
}

} // verus!
