//! Sums over siblings: bytes, files and directories.

use vstd::prelude::*;
use crate::node::{trees, FSNode, Tree};
use crate::order::{biggest_first, slot_for, lemma_slot_for};

verus! {

/// What is summed over the children of a directory.
pub enum Measure {
    /// Bytes.
    Size,
    /// Files, each file counting as one.
    Files,
    /// Directories, each directory counting itself.
    Dirs,
}

impl Tree {
    /// What the node adds to the sum of its parent.
    pub open spec fn measure(self, of: Measure) -> nat {
        match of {
            Measure::Size => self.size,
            Measure::Files => self.num_files,
            Measure::Dirs => self.num_dirs,
        }
    }
}

/// The sum of one measure over a run of nodes.
pub open spec fn total(nodes: Seq<Tree>, of: Measure) -> nat
    decreases nodes.len(),
{
    if nodes.len() == 0 {
        0
    } else {
        total(nodes.drop_last(), of) + nodes.last().measure(of)
    }
}

/// The sum over two runs, one behind the other, is the sum of their sums.
pub proof fn lemma_total_concat(a: Seq<Tree>, b: Seq<Tree>, of: Measure)
    ensures
        total(a + b, of) == total(a, of) + total(b, of),
    decreases b.len(),
{
    if b.len() == 0 {
        assert(a + b =~= a);
    } else {
        lemma_total_concat(a, b.drop_last(), of);
        assert((a + b).drop_last() =~= a + b.drop_last());
    }
}

/// A node put anywhere into a run adds its measure to the sum.
pub proof fn lemma_total_insert(run: Seq<Tree>, at: int, node: Tree, of: Measure)
    requires
        0 <= at <= run.len(),
    ensures
        total(run.insert(at, node), of) == total(run, of) + node.measure(of),
{
    let head = run.take(at);
    let tail = run.skip(at);
    assert(run =~= head + tail);
    assert(run.insert(at, node) =~= head.push(node) + tail);
    assert(head.push(node).drop_last() =~= head);
    lemma_total_concat(head, tail, of);
    lemma_total_concat(head.push(node), tail, of);
}

/// Putting a run in order does not change its sums.
pub proof fn lemma_total_biggest_first(nodes: Seq<Tree>, of: Measure)
    ensures
        total(biggest_first(nodes), of) == total(nodes, of),
    decreases nodes.len(),
{
    if nodes.len() > 0 {
        let front = biggest_first(nodes.drop_last());
        lemma_total_biggest_first(nodes.drop_last(), of);
        lemma_slot_for(front, nodes.last().size);
        lemma_total_insert(front, slot_for(front, nodes.last().size), nodes.last(), of);
    }
}

/// The sum over the first nodes of a run is no more than the sum over all.
pub proof fn lemma_total_of_prefix(nodes: Seq<Tree>, n: int, of: Measure)
    requires
        0 <= n <= nodes.len(),
    ensures
        total(nodes.take(n), of) <= total(nodes, of),
{
    assert(nodes =~= nodes.take(n) + nodes.skip(n));
    lemma_total_concat(nodes.take(n), nodes.skip(n), of);
}

/// The three sums over a run of nodes.
pub struct Totals {
    pub size: u64,
    pub num_files: u64,
    pub num_dirs: u64,
}

/// Sums bytes, files and directories over `nodes`.
pub fn totals(nodes: &Vec<FSNode>) -> (sums: Totals)
    requires
        total(trees(nodes@), Measure::Size) <= u64::MAX,
        total(trees(nodes@), Measure::Files) <= u64::MAX,
        total(trees(nodes@), Measure::Dirs) <= u64::MAX,
    ensures
        sums.size == total(trees(nodes@), Measure::Size),
        sums.num_files == total(trees(nodes@), Measure::Files),
        sums.num_dirs == total(trees(nodes@), Measure::Dirs),
{
    let mut sums = Totals { size: 0, num_files: 0, num_dirs: 0 };
    let ghost all = trees(nodes@);
    let mut i: usize = 0;
    assert(all.take(0) =~= Seq::<Tree>::empty());
    while i < nodes.len()
        invariant
            i <= nodes.len(),
            all == trees(nodes@),
            total(all, Measure::Size) <= u64::MAX,
            total(all, Measure::Files) <= u64::MAX,
            total(all, Measure::Dirs) <= u64::MAX,
            sums.size == total(all.take(i as int), Measure::Size),
            sums.num_files == total(all.take(i as int), Measure::Files),
            sums.num_dirs == total(all.take(i as int), Measure::Dirs),
        decreases nodes.len() - i,
    {
        proof {
            let next = all.take(i + 1);
            assert(next.drop_last() =~= all.take(i as int));
            assert(next.last() == nodes@[i as int]@);
            lemma_total_of_prefix(all, i + 1, Measure::Size);
            lemma_total_of_prefix(all, i + 1, Measure::Files);
            lemma_total_of_prefix(all, i + 1, Measure::Dirs);
        }
        sums.size = sums.size + nodes[i].size;
        sums.num_files = sums.num_files + nodes[i].num_files;
        sums.num_dirs = sums.num_dirs + nodes[i].num_dirs;
        i += 1;
    }
    assert(all.take(nodes.len() as int) =~= all);
    sums
}

} // verus!
