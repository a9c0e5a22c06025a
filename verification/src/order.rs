//! The order of siblings: biggest first, and among equal sizes as they came.

use vstd::prelude::*;
use crate::node::{trees, FSNode, Tree};

verus! {

/// Where a node of `size` bytes goes in a run that is already in order:
/// behind the last node that is at least as big.
pub open spec fn slot_for(run: Seq<Tree>, size: nat) -> int
    decreases run.len(),
{
    if run.len() == 0 {
        0
    } else if run.last().size >= size {
        run.len() as int
    } else {
        slot_for(run.drop_last(), size)
    }
}

/// The nodes of `nodes` with the biggest first; nodes of one size keep the
/// order in which they came.
pub open spec fn biggest_first(nodes: Seq<Tree>) -> Seq<Tree>
    decreases nodes.len(),
{
    if nodes.len() == 0 {
        nodes
    } else {
        let front = biggest_first(nodes.drop_last());
        front.insert(slot_for(front, nodes.last().size), nodes.last())
    }
}

/// No node of the run is followed by a bigger one.
pub open spec fn is_biggest_first(run: Seq<Tree>) -> bool {
    forall|i: int, j: int| 0 <= i <= j < run.len() ==> run[i].size >= run[j].size
}

/// The slot lies within the run. In a run that is in order every node
/// before it is at least as big as `size` and every node from it on is
/// smaller.
pub proof fn lemma_slot_for(run: Seq<Tree>, size: nat)
    ensures
        0 <= slot_for(run, size) <= run.len(),
        is_biggest_first(run) ==> forall|i: int|
            0 <= i < slot_for(run, size) ==> (#[trigger] run[i]).size >= size,
        forall|i: int| slot_for(run, size) <= i < run.len() ==> (#[trigger] run[i]).size < size,
    decreases run.len(),
{
    if run.len() > 0 && run.last().size < size {
        lemma_slot_for(run.drop_last(), size);
        assert forall|i: int| slot_for(run, size) <= i < run.len() implies (#[trigger] run[i]).size
            < size by {
            if i < run.len() - 1 {
                assert(run[i] == run.drop_last()[i]);
            }
        }
        if is_biggest_first(run) {
            assert forall|i: int| 0 <= i < slot_for(run, size) implies (#[trigger] run[i]).size
                >= size by {
                assert(run[i] == run.drop_last()[i]);
            }
        }
    }
}

/// The ordered run is in order.
pub proof fn lemma_biggest_first_in_order(nodes: Seq<Tree>)
    ensures
        is_biggest_first(biggest_first(nodes)),
        biggest_first(nodes).len() == nodes.len(),
    decreases nodes.len(),
{
    if nodes.len() > 0 {
        let front = biggest_first(nodes.drop_last());
        let last = nodes.last();
        lemma_biggest_first_in_order(nodes.drop_last());
        lemma_slot_for(front, last.size);
        let slot = slot_for(front, last.size);
        let run = front.insert(slot, last);
        assert forall|i: int, j: int| 0 <= i <= j < run.len() implies run[i].size
            >= run[j].size by {
            if i < slot && j > slot {
                assert(run[i] == front[i] && run[j] == front[j - 1]);
            } else if i > slot {
                assert(run[i] == front[i - 1] && run[j] == front[j - 1]);
            } else if j < slot {
                assert(run[i] == front[i] && run[j] == front[j]);
            } else if i == slot && j > slot {
                assert(run[j] == front[j - 1]);
            } else if i < slot && j == slot {
                assert(run[i] == front[i]);
            }
        }
    }
}

/// Where each node of the ordered run stood before: at place `i` of
/// `biggest_first(nodes)` stands the node that was at place `origin(nodes)[i]`
/// of `nodes`.
pub open spec fn origin(nodes: Seq<Tree>) -> Seq<int>
    decreases nodes.len(),
{
    if nodes.len() == 0 {
        Seq::empty()
    } else {
        let front = biggest_first(nodes.drop_last());
        origin(nodes.drop_last()).insert(slot_for(front, nodes.last().size), nodes.len() - 1)
    }
}

/// The ordered run holds the nodes of the run it was made from, each once:
/// every place of the one answers to a place of the other, no two to the
/// same. Nodes of one size stand in the order in which they came.
pub proof fn lemma_biggest_first_rearranges(nodes: Seq<Tree>)
    ensures
        biggest_first(nodes).len() == nodes.len(),
        origin(nodes).len() == nodes.len(),
        forall|i: int|
            0 <= i < nodes.len() ==> 0 <= (#[trigger] origin(nodes)[i]) < nodes.len()
                && biggest_first(nodes)[i] == nodes[origin(nodes)[i]],
        forall|i: int, j: int|
            0 <= i < j < nodes.len() ==> origin(nodes)[i] != origin(nodes)[j],
        forall|i: int, j: int|
            0 <= i < j < nodes.len() && biggest_first(nodes)[i].size == biggest_first(nodes)[j].size
                ==> origin(nodes)[i] < origin(nodes)[j],
    decreases nodes.len(),
{
    if nodes.len() > 0 {
        let shorter = nodes.drop_last();
        let last = nodes.last();
        let front = biggest_first(shorter);
        let before = origin(shorter);
        lemma_biggest_first_rearranges(shorter);
        lemma_biggest_first_in_order(shorter);
        lemma_slot_for(front, last.size);
        let slot = slot_for(front, last.size);
        let run = front.insert(slot, last);
        let places = before.insert(slot, nodes.len() - 1);
        assert(run == biggest_first(nodes));
        assert(places == origin(nodes));
        assert forall|i: int| 0 <= i < nodes.len() implies 0 <= (#[trigger] places[i]) < nodes.len()
            && run[i] == nodes[places[i]] by {
            if i < slot {
                assert(places[i] == before[i] && run[i] == front[i]);
                assert(shorter[before[i]] == nodes[before[i]]);
            } else if i > slot {
                assert(places[i] == before[i - 1] && run[i] == front[i - 1]);
                assert(shorter[before[i - 1]] == nodes[before[i - 1]]);
            }
        }
        assert forall|i: int, j: int| 0 <= i < j < nodes.len() implies places[i] != places[j] by {
            if i != slot {
                assert(places[i] == before[if i < slot { i } else { i - 1 }]);
            }
            if j != slot {
                assert(places[j] == before[if j < slot { j } else { j - 1 }]);
            }
        }
        assert forall|i: int, j: int|
            0 <= i < j < nodes.len() && run[i].size == run[j].size implies places[i] < places[j] by {
            if i != slot {
                assert(places[i] == before[if i < slot { i } else { i - 1 }]);
                assert(run[i] == front[if i < slot { i } else { i - 1 }]);
            }
            if j != slot {
                assert(places[j] == before[if j < slot { j } else { j - 1 }]);
                assert(run[j] == front[if j < slot { j } else { j - 1 }]);
            }
            if i == slot {
                assert(front[j - 1].size < last.size);
            }
        }
    }
}

/// A run with `node` put into its slot.
pub open spec fn with_slotted(run: Seq<Tree>, node: Tree) -> Seq<Tree> {
    run.insert(slot_for(run, node.size), node)
}

/// Two runs as one: the smaller of the two last nodes goes last, that of
/// `rear` where they are of one size, and so on towards the front.
pub open spec fn merged(front: Seq<Tree>, rear: Seq<Tree>) -> Seq<Tree>
    decreases front.len() + rear.len(),
{
    if front.len() == 0 {
        rear
    } else if rear.len() == 0 {
        front
    } else if front.last().size >= rear.last().size {
        merged(front, rear.drop_last()).push(rear.last())
    } else {
        merged(front.drop_last(), rear).push(front.last())
    }
}

/// A node goes behind a last node that is at least as big, and before one
/// that is smaller.
proof fn lemma_slotted_behind(run: Seq<Tree>, last: Tree, node: Tree)
    ensures
        with_slotted(run.push(last), node) == if last.size >= node.size {
            run.push(last).push(node)
        } else {
            with_slotted(run, node).push(last)
        },
{
    let longer = run.push(last);
    assert(longer.drop_last() =~= run);
    assert(longer.last() == last);
    lemma_slot_for(run, node.size);
    if last.size >= node.size {
        assert(longer.insert(longer.len() as int, node) =~= longer.push(node));
    } else {
        assert(longer.insert(slot_for(run, node.size), node) =~= with_slotted(run, node).push(last));
    }
}

/// To put a node into two runs made one is to put it into the rear one
/// before they are made one.
proof fn lemma_merged_slotted(front: Seq<Tree>, rear: Seq<Tree>, node: Tree)
    ensures
        with_slotted(merged(front, rear), node) == merged(front, with_slotted(rear, node)),
    decreases front.len() + rear.len(),
{
    let size = node.size;
    if front.len() == 0 {
    } else if rear.len() == 0 {
        let one = with_slotted(rear, node);
        assert(one =~= seq![node]);
        assert(one.drop_last() =~= rear);
        assert(front =~= front.drop_last().push(front.last()));
        lemma_slotted_behind(front.drop_last(), front.last(), node);
        if front.last().size < size {
            lemma_merged_slotted(front.drop_last(), rear, node);
        }
    } else {
        let x = front.last();
        let y = rear.last();
        assert(rear =~= rear.drop_last().push(y));
        lemma_slotted_behind(rear.drop_last(), y, node);
        let rear_with = with_slotted(rear, node);
        if y.size >= size {
            assert(rear_with == rear.push(node));
            assert(rear_with.drop_last() =~= rear);
            if x.size >= size {
                if x.size >= y.size {
                    lemma_slotted_behind(merged(front, rear.drop_last()), y, node);
                } else {
                    lemma_slotted_behind(merged(front.drop_last(), rear), x, node);
                }
            } else {
                lemma_merged_slotted(front.drop_last(), rear, node);
                lemma_slotted_behind(merged(front.drop_last(), rear), x, node);
            }
        } else {
            assert(rear_with == with_slotted(rear.drop_last(), node).push(y));
            assert(rear_with.drop_last() =~= with_slotted(rear.drop_last(), node));
            if x.size >= y.size {
                lemma_merged_slotted(front, rear.drop_last(), node);
                lemma_slotted_behind(merged(front, rear.drop_last()), y, node);
            } else {
                lemma_merged_slotted(front.drop_last(), rear, node);
                lemma_slotted_behind(merged(front.drop_last(), rear), x, node);
            }
        }
    }
}

/// To put a run in order is to put its two parts in order and make them
/// one.
pub proof fn lemma_biggest_first_of_parts(front: Seq<Tree>, rear: Seq<Tree>)
    ensures
        biggest_first(front + rear) == merged(biggest_first(front), biggest_first(rear)),
    decreases rear.len(),
{
    if rear.len() == 0 {
        assert(front + rear =~= front);
        assert(biggest_first(rear) =~= Seq::<Tree>::empty());
    } else {
        let whole = front + rear;
        assert(whole.drop_last() =~= front + rear.drop_last());
        assert(whole.last() == rear.last());
        lemma_biggest_first_of_parts(front, rear.drop_last());
        lemma_merged_slotted(
            biggest_first(front),
            biggest_first(rear.drop_last()),
            rear.last(),
        );
    }
}

/// Whether `lhs` may stand before `rhs`: it is at least as big.
fn biggest_size_first(lhs: &FSNode, rhs: &FSNode) -> (before: bool)
    ensures
        before == (lhs@.size >= rhs@.size),
{
    lhs.size() >= rhs.size()
}

/// Makes one run of two, taking nodes from their ends.
fn merge(front: Vec<FSNode>, rear: Vec<FSNode>) -> (run: Vec<FSNode>)
    ensures
        trees(run@) == merged(trees(front@), trees(rear@)),
{
    let ghost goal = merged(trees(front@), trees(rear@));
    let mut front = front;
    let mut rear = rear;
    let mut taken: Vec<FSNode> = Vec::new();
    assert(trees(taken@).reverse() =~= Seq::<Tree>::empty());
    assert(merged(trees(front@), trees(rear@)) + Seq::<Tree>::empty() =~= goal);
    while front.len() > 0 && rear.len() > 0
        invariant
            goal == merged(trees(front@), trees(rear@)) + trees(taken@).reverse(),
        decreases front.len() + rear.len(),
    {
        let ghost fronts = trees(front@);
        let ghost rears = trees(rear@);
        let ghost before = trees(taken@);
        let from_rear = biggest_size_first(&front[front.len() - 1], &rear[rear.len() - 1]);
        let node = if from_rear {
            rear.pop().unwrap()
        } else {
            front.pop().unwrap()
        };
        proof {
            assert(trees(taken@.push(node)) =~= before.push(node@));
            assert(before.push(node@).reverse() =~= seq![node@] + before.reverse());
            if from_rear {
                assert(trees(rear@) =~= rears.drop_last());
                assert(node@ == rears.last());
            } else {
                assert(trees(front@) =~= fronts.drop_last());
                assert(node@ == fronts.last());
            }
            let rest = merged(trees(front@), trees(rear@));
            assert(merged(fronts, rears) == rest.push(node@));
            assert(rest.push(node@) + before.reverse() =~= rest + (seq![node@] + before.reverse()));
        }
        taken.push(node);
    }
    let mut run = if front.len() > 0 {
        front
    } else {
        rear
    };
    while taken.len() > 0
        invariant
            goal == trees(run@) + trees(taken@).reverse(),
        decreases taken.len(),
    {
        let ghost before = trees(taken@);
        let ghost so_far = trees(run@);
        let node = taken.pop().unwrap();
        proof {
            assert(trees(taken@) =~= before.drop_last());
            assert(before.reverse() =~= seq![node@] + before.drop_last().reverse());
            assert(trees(run@.push(node)) =~= so_far.push(node@));
            assert(so_far.push(node@) + before.drop_last().reverse() =~= so_far + before.reverse());
        }
        run.push(node);
    }
    assert(trees(run@) + trees(taken@).reverse() =~= trees(run@));
    run
}

/// Puts the nodes in order, biggest first; nodes of one size keep the order
/// in which they came.
pub fn sort_biggest_first(nodes: Vec<FSNode>) -> (sorted: Vec<FSNode>)
    ensures
        trees(sorted@) == biggest_first(trees(nodes@)),
    decreases nodes@.len(),
{
    let ghost all = trees(nodes@);
    if nodes.len() <= 1 {
        proof {
            if all.len() == 1 {
                assert(all.drop_last() =~= Seq::<Tree>::empty());
                assert(biggest_first(all.drop_last()) =~= Seq::<Tree>::empty());
                assert(biggest_first(all) =~= all);
            }
        }
        return nodes;
    }
    let mut front = nodes;
    let half = front.len() / 2;
    let rear = front.split_off(half);
    proof {
        assert(all =~= trees(front@) + trees(rear@));
        lemma_biggest_first_of_parts(trees(front@), trees(rear@));
    }
    let front_sorted = sort_biggest_first(front);
    let rear_sorted = sort_biggest_first(rear);
    merge(front_sorted, rear_sorted)
}

} // verus!
