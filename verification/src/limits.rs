//! How much a listing can count at most, and that a walk of a listing
//! which stays within 64 bits by this measure stays within them at all.

use vstd::prelude::*;
use crate::aggregate::{lemma_total_concat, total, Measure};
use crate::listing::{lemma_view_entries, Entry, EntryKind, Listing};
use crate::options::Policy;
use crate::traverse::{
    children_of, dir_nodes, dirs_fit, file_nodes, files_kept, ids_among, ids_used, is_kept_file,
    lemma_file_nodes_len, walk, walk_fits,
};

verus! {

/// What the files among the first `n` entries weigh: each one and its
/// bytes.
pub open spec fn files_weight(entries: Seq<Listing>, n: nat) -> nat
    decreases n,
{
    if n == 0 || n > entries.len() {
        0
    } else {
        files_weight(entries, (n - 1) as nat) + if entries[n - 1].kind == EntryKind::File {
            1 + entries[n - 1].size
        } else {
            0
        }
    }
}

/// What the directories among the first `n` entries of `dir` weigh.
pub open spec fn dirs_weight(dir: Listing, n: nat) -> nat
    decreases dir, n,
{
    if n == 0 || n > dir.entries.len() {
        0
    } else {
        dirs_weight(dir, (n - 1) as nat) + if dir.entries[n - 1].kind == EntryKind::Directory {
            weight(dir.entries[n - 1])
        } else {
            0
        }
    }
}

/// What a directory weighs: one for itself, one and its bytes for each file
/// in it, and what the directories in it weigh. No walk of it takes more
/// identifiers, counts more bytes or goes more levels down.
pub open spec fn weight(dir: Listing) -> nat
    decreases dir, dir.entries.len() + 1,
{
    1 + files_weight(dir.entries, dir.entries.len()) + dirs_weight(dir, dir.entries.len())
}

/// Among more entries the files weigh no less.
pub proof fn lemma_files_weight_grows(entries: Seq<Listing>, n: nat, m: nat)
    requires
        n <= m <= entries.len(),
    ensures
        files_weight(entries, n) <= files_weight(entries, m),
    decreases m,
{
    if n < m {
        lemma_files_weight_grows(entries, n, (m - 1) as nat);
    }
}

/// Among more entries the directories weigh no less.
pub proof fn lemma_dirs_weight_grows(dir: Listing, n: nat, m: nat)
    requires
        n <= m <= dir.entries.len(),
    ensures
        dirs_weight(dir, n) <= dirs_weight(dir, m),
    decreases m,
{
    if n < m {
        lemma_dirs_weight_grows(dir, n, (m - 1) as nat);
    }
}

/// The file nodes count no more files and bytes than the files weigh.
proof fn lemma_files_within_weight(
    entries: Seq<Listing>,
    n: nat,
    options: Policy,
    depth: nat,
    first_id: nat,
)
    ensures
        ({
            let files = file_nodes(entries, n, options, depth, first_id);
            &&& files_kept(entries, n, options) + total(files, Measure::Size) <= files_weight(entries, n)
            &&& total(files, Measure::Files) == files_kept(entries, n, options)
            &&& total(files, Measure::Dirs) == 0
        }),
    decreases n,
{
    if n > 0 && n <= entries.len() {
        lemma_files_within_weight(entries, (n - 1) as nat, options, depth, first_id);
        let front = file_nodes(entries, (n - 1) as nat, options, depth, first_id);
        if is_kept_file(entries[n - 1], options) {
            let files = file_nodes(entries, n, options, depth, first_id);
            assert(files.drop_last() =~= front);
        }
    }
}

/// The directory nodes among the first entries count no more identifiers
/// and bytes than the directories weigh, and no more files and directories
/// than identifiers were taken.
proof fn lemma_dirs_within_weight(dir: Listing, n: nat, options: Policy, depth: nat, first_id: nat)
    ensures
        ({
            let dirs = dir_nodes(dir, n, options, depth, first_id);
            &&& ids_among(dir, n, options, depth) + total(dirs, Measure::Size) <= dirs_weight(dir, n)
            &&& total(dirs, Measure::Files) + total(dirs, Measure::Dirs) <= ids_among(
                dir,
                n,
                options,
                depth,
            )
        }),
    decreases dir, n,
{
    if n > 0 && n <= dir.entries.len() {
        lemma_dirs_within_weight(dir, (n - 1) as nat, options, depth, first_id);
        let front = dir_nodes(dir, (n - 1) as nat, options, depth, first_id);
        let entry = dir.entries[n - 1];
        let start = first_id + ids_among(dir, (n - 1) as nat, options, depth);
        if entry.kind == EntryKind::Directory {
            lemma_walk_within_weight(entry, options, depth, start);
            if let Some(tree) = walk(entry, options, depth, start) {
                let dirs = dir_nodes(dir, n, options, depth, first_id);
                assert(dirs == front.push(tree));
                assert(dirs.drop_last() =~= front);
            }
        }
    }
}

/// A walk takes no more identifiers and counts no more bytes than the
/// directory weighs, and counts no more files and directories than it takes
/// identifiers.
pub proof fn lemma_walk_within_weight(dir: Listing, options: Policy, depth: nat, first_id: nat)
    ensures
        ({
            let children = children_of(dir, options, depth, first_id);
            &&& ids_used(dir, options, depth) + total(children, Measure::Size) <= weight(dir)
            &&& 1 + total(children, Measure::Files) + total(children, Measure::Dirs) <= ids_used(
                dir,
                options,
                depth,
            )
        }),
    decreases dir, dir.entries.len() + 1,
{
    let count = dir.entries.len();
    let files = file_nodes(dir.entries, count, options, depth + 1, first_id + 1);
    lemma_files_within_weight(dir.entries, count, options, depth + 1, first_id + 1);
    if options.reached_max_depth(depth) {
        assert(children_of(dir, options, depth, first_id) =~= files);
    } else {
        let dirs = dir_nodes(dir, count, options, depth + 1, first_id + 1 + files.len());
        lemma_dirs_within_weight(dir, count, options, depth + 1, first_id + 1 + files.len());
        lemma_total_concat(files, dirs, Measure::Size);
        lemma_total_concat(files, dirs, Measure::Files);
        lemma_total_concat(files, dirs, Measure::Dirs);
    }
}

/// The walks of the directories in a directory whose weight is within 64
/// bits stay within them.
proof fn lemma_dirs_fit(dir: Listing, n: nat, options: Policy, depth: nat, first_id: nat)
    requires
        n <= dir.entries.len(),
        depth + dirs_weight(dir, dir.entries.len()) <= u64::MAX,
        first_id + dirs_weight(dir, dir.entries.len()) <= u64::MAX,
    ensures
        dirs_fit(dir, n, options, depth, first_id),
    decreases dir, n,
{
    if n > 0 {
        lemma_dirs_fit(dir, (n - 1) as nat, options, depth, first_id);
        let entry = dir.entries[n - 1];
        if entry.kind == EntryKind::Directory {
            lemma_dirs_within_weight(dir, (n - 1) as nat, options, depth, first_id);
            lemma_dirs_weight_grows(dir, n, dir.entries.len());
            lemma_weight_fits(
                entry,
                options,
                depth,
                first_id + ids_among(dir, (n - 1) as nat, options, depth),
            );
        }
    }
}

/// A walk of a directory whose weight, on top of the depth and on top of
/// the first identifier, is within 64 bits stays within them, whatever the
/// policies.
pub proof fn lemma_weight_fits(dir: Listing, options: Policy, depth: nat, first_id: nat)
    requires
        depth + weight(dir) <= u64::MAX,
        first_id + weight(dir) <= u64::MAX,
    ensures
        walk_fits(dir, options, depth, first_id),
    decreases dir, dir.entries.len() + 1,
{
    let count = dir.entries.len();
    let files = file_nodes(dir.entries, count, options, depth + 1, first_id + 1);
    lemma_walk_within_weight(dir, options, depth, first_id);
    lemma_files_within_weight(dir.entries, count, options, depth + 1, first_id + 1);
    lemma_file_nodes_len(dir.entries, count, options, depth + 1, first_id + 1);
    if !options.reached_max_depth(depth) {
        lemma_dirs_fit(dir, count, options, depth + 1, first_id + 1 + files.len());
    }
}

impl Entry {
    /// What the entry weighs as a directory, or `None` where that is beyond
    /// 64 bits.
    pub fn weight(&self) -> (weighed: Option<u64>)
        ensures
            match weighed {
                Some(w) => w == weight(self@),
                None => weight(self@) > u64::MAX,
            },
        decreases self,
    {
        let ghost listing = self@;
        proof {
            lemma_view_entries(*self);
        }
        let mut sum: u64 = 1;
        let mut i: usize = 0;
        while i < self.entries.len()
            invariant
                i <= self.entries.len(),
                listing == self@,
                listing.entries.len() == self.entries@.len(),
                forall|k: int|
                    0 <= k < self.entries@.len() ==> listing.entries[k] == (#[trigger] self.entries@[k])@,
                sum == 1 + files_weight(listing.entries, i as nat) + dirs_weight(listing, i as nat),
            decreases self.entries.len() - i,
        {
            let entry = &self.entries[i];
            proof {
                assert(listing.entries[i as int] == entry@);
                lemma_files_weight_grows(listing.entries, (i + 1) as nat, listing.entries.len());
                lemma_dirs_weight_grows(listing, (i + 1) as nat, listing.entries.len());
            }
            let added = match entry.kind {
                EntryKind::File => entry.size.checked_add(1),
                EntryKind::Directory => {
                    assert(decreases_to!(self => self.entries@[i as int]));
                    entry.weight()
                },
                EntryKind::Other => Some(0),
            };
            let next = match added {
                Some(a) => sum.checked_add(a),
                None => None,
            };
            match next {
                Some(s) => {
                    sum = s;
                },
                None => {
                    return None;
                },
            }
            i += 1;
        }
        Some(sum)
    }
}

} // verus!
