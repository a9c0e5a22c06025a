//! The node model: one record per file or directory, its mathematical value,
//! search by identifier and the two view reductions.

use vstd::prelude::*;

verus! {

/// Whether a node stands for a file or for a directory.
#[derive(Clone, Copy, Debug, PartialEq, Eq, Structural)]
pub enum FSNodeType {
    File,
    Directory,
}

/// One record of the result tree.
#[derive(Debug, PartialEq, Eq)]
pub struct FSNode {
    pub id: u64,
    pub name: String,
    pub size: u64,
    pub node_type: FSNodeType,
    pub children: Option<Vec<FSNode>>,
    pub num_files: u64,
    pub num_dirs: u64,
    pub depth: u64,
}

/// The mathematical value of a node: its scalar fields and, where present,
/// the values of its children in order.
pub struct Tree {
    pub id: nat,
    pub name: Seq<char>,
    pub size: nat,
    pub node_type: FSNodeType,
    pub children: Option<Seq<Tree>>,
    pub num_files: nat,
    pub num_dirs: nat,
    pub depth: nat,
}

impl View for FSNode {
    type V = Tree;

    open spec fn view(&self) -> Tree
        decreases self, 0nat,
    {
        Tree {
            id: self.id as nat,
            name: self.name@,
            size: self.size as nat,
            node_type: self.node_type,
            children: match self.children {
                Some(v) => Some(first_trees(v@, v@.len())),
                None => None,
            },
            num_files: self.num_files as nat,
            num_dirs: self.num_dirs as nat,
            depth: self.depth as nat,
        }
    }
}

/// The values of the first `n` nodes of a run, one for one.
pub open spec fn first_trees(nodes: Seq<FSNode>, n: nat) -> Seq<Tree>
    decreases nodes, n,
{
    if n == 0 || n > nodes.len() {
        Seq::empty()
    } else {
        first_trees(nodes, (n - 1) as nat).push(nodes[n - 1].view())
    }
}

/// The values of a run of nodes, one for one.
pub open spec fn trees(nodes: Seq<FSNode>) -> Seq<Tree> {
    Seq::new(nodes.len(), |i: int| nodes[i]@)
}

/// The value of an optional node.
pub open spec fn tree_of(node: Option<FSNode>) -> Option<Tree> {
    match node {
        Some(n) => Some(n@),
        None => None,
    }
}

/// The value of an optional borrowed node.
pub open spec fn tree_of_ref(node: Option<&FSNode>) -> Option<Tree> {
    match node {
        Some(n) => Some(n@),
        None => None,
    }
}

impl Tree {
    /// A directory that holds nothing: no bytes, no files, itself as the only
    /// directory, at depth 0.
    pub open spec fn empty_directory(name: Seq<char>, id: nat) -> Tree {
        Tree {
            id,
            name,
            size: 0,
            node_type: FSNodeType::Directory,
            children: None,
            num_files: 0,
            num_dirs: 1,
            depth: 0,
        }
    }

    /// The same node with its children left out.
    pub open spec fn without_children(self) -> Tree {
        Tree { children: None, ..self }
    }

    /// The same node with each direct child cut down to itself.
    pub open spec fn only_direct_children(self) -> Tree {
        Tree {
            children: match self.children {
                Some(cs) => Some(Seq::new(cs.len(), |i: int| cs[i].without_children())),
                None => None,
            },
            ..self
        }
    }

    /// The first node in pre-order, among the first `n` children of `self`
    /// and all below them, that carries `id`.
    pub open spec fn find_among(self, n: nat, id: nat) -> Option<Tree>
        decreases self, n,
    {
        match self.children {
            Some(cs) => if n == 0 || n > cs.len() {
                None
            } else {
                match self.find_among((n - 1) as nat, id) {
                    Some(t) => Some(t),
                    None => cs[n - 1].find(id),
                }
            },
            None => None,
        }
    }

    /// The first node in pre-order that carries `id`: the node itself, or
    /// else the first hit in its children taken left to right.
    pub open spec fn find(self, id: nat) -> Option<Tree>
        decreases self, self.arity() + 1,
    {
        if self.id == id {
            Some(self)
        } else {
            self.find_among(self.arity(), id)
        }
    }

    /// Which of the first `n` children is the first to hold a node that
    /// carries `id`, in itself or below.
    pub open spec fn holder(self, n: nat, id: nat) -> Option<int>
        decreases n,
    {
        match self.children {
            Some(cs) => if n == 0 || n > cs.len() {
                None
            } else {
                match self.holder((n - 1) as nat, id) {
                    Some(k) => Some(k),
                    None => if cs[n - 1].find(id) is Some {
                        Some(n - 1)
                    } else {
                        None
                    },
                }
            },
            None => None,
        }
    }

    /// The tree with `new` in place of the first node in pre-order that
    /// carries `id`; the tree itself where no node does.
    pub open spec fn put(self, id: nat, new: Tree) -> Tree
        decreases self,
    {
        if self.id == id {
            new
        } else {
            match self.children {
                Some(cs) => match self.holder(cs.len(), id) {
                    Some(k) => if 0 <= k < cs.len() {
                        Tree { children: Some(cs.update(k, cs[k].put(id, new))), ..self }
                    } else {
                        self
                    },
                    None => self,
                },
                None => self,
            }
        }
    }

    /// How many children the node shows.
    pub open spec fn arity(self) -> nat {
        match self.children {
            Some(cs) => cs.len(),
            None => 0,
        }
    }

    /// Whether `id` is carried by this node or by one below it.
    pub open spec fn has_id(self, id: nat) -> bool
        decreases self,
    {
        self.id == id || match self.children {
            Some(cs) => exists|i: int| 0 <= i < cs.len() && (#[trigger] cs[i]).has_id(id),
            None => false,
        }
    }
}

/// The values of the first `n` nodes are the first `n` of the values.
pub proof fn lemma_first_trees(nodes: Seq<FSNode>, n: nat)
    requires
        n <= nodes.len(),
    ensures
        first_trees(nodes, n) == trees(nodes).take(n as int),
    decreases n,
{
    if n > 0 {
        lemma_first_trees(nodes, (n - 1) as nat);
        let prev = first_trees(nodes, (n - 1) as nat);
        assert(first_trees(nodes, n) == prev.push(nodes[n - 1].view()));
    }
    assert(first_trees(nodes, n) =~= trees(nodes).take(n as int));
}

/// The value of a node is made of the values of its children.
pub proof fn lemma_view_children(node: FSNode)
    ensures
        node@.children == match node.children {
            Some(v) => Some(trees(v@)),
            None => None,
        },
{
    if node.children is Some {
        let v = node.children->0;
        lemma_first_trees(v@, v@.len());
        assert(trees(v@).take(v@.len() as int) =~= trees(v@));
    }
}

/// Once a hit is found among the first children, looking at more of them
/// does not change it.
pub proof fn lemma_find_among_settled(tree: Tree, n: nat, m: nat, id: nat)
    requires
        n <= m <= tree.arity(),
        tree.find_among(n, id) is Some,
    ensures
        tree.find_among(m, id) == tree.find_among(n, id),
    decreases m,
{
    if m > n {
        lemma_find_among_settled(tree, n, (m - 1) as nat, id);
    }
}

/// The first child that holds a hit is the one in which the search finds
/// it; no child does where the search finds none.
pub proof fn lemma_holder(tree: Tree, n: nat, id: nat)
    requires
        n <= tree.arity(),
    ensures
        match tree.holder(n, id) {
            Some(k) => 0 <= k < n && tree.find_among(n, id) == tree.children->0[k].find(id)
                && tree.find_among(n, id) is Some && forall|j: int|
                0 <= j < k ==> (#[trigger] tree.children->0[j]).find(id) is None,
            None => tree.find_among(n, id) is None && forall|j: int|
                0 <= j < n ==> (#[trigger] tree.children->0[j]).find(id) is None,
        },
    decreases n,
{
    if n > 0 {
        lemma_holder(tree, (n - 1) as nat, id);
    }
}

/// The first child with a hit, once none before it has one, is the holder.
pub proof fn lemma_holder_found(tree: Tree, k: int, id: nat)
    requires
        0 <= k < tree.arity(),
        tree.children->0[k].find(id) is Some,
        forall|j: int| 0 <= j < k ==> (#[trigger] tree.children->0[j]).find(id) is None,
    ensures
        tree.holder(tree.arity(), id) == Some(k),
        tree.find_among(tree.arity(), id) == tree.children->0[k].find(id),
{
    lemma_holder(tree, tree.arity(), id);
}

/// One more node at the end of a run adds its value at the end.
pub proof fn lemma_trees_push(nodes: Seq<FSNode>, node: FSNode)
    ensures
        trees(nodes.push(node)) == trees(nodes).push(node@),
{
    assert(trees(nodes.push(node)) =~= trees(nodes).push(node@));
}

impl FSNode {
    /// An empty directory node at depth 0.
    pub fn directory_node(name: String, id: u64) -> (node: FSNode)
        ensures
            node@ == Tree::empty_directory(name@, id as nat),
    {
        FSNode {
            id,
            name,
            children: None,
            size: 0,
            node_type: FSNodeType::Directory,
            num_files: 0,
            num_dirs: 1,
            depth: 0,
        }
    }

    /// The bytes the node accounts for.
    pub fn size(&self) -> (size: u64)
        ensures
            size == self@.size,
    {
        self.size
    }

    /// The first node in pre-order that carries `id`, if there is one.
    pub fn get_node_by_id(&self, id: u64) -> (found: Option<&FSNode>)
        ensures
            tree_of_ref(found) == self@.find(id as nat),
        decreases self,
    {
        if self.id == id {
            return Some(self);
        }
        match &self.children {
            Some(children) => {
                proof {
                    lemma_view_children(*self);
                }
                let mut i: usize = 0;
                while i < children.len()
                    invariant
                        i <= children.len(),
                        self.id != id,
                        self.children == Some(*children),
                        self@.children == Some(trees(children@)),
                        self@.find_among(i as nat, id as nat) is None,
                    decreases children.len() - i,
                {
                    let hit = children[i].get_node_by_id(id);
                    if hit.is_some() {
                        proof {
                            assert(self@.children->0[i as int] == children@[i as int]@);
                            assert(self@.find_among((i + 1) as nat, id as nat) == tree_of_ref(hit));
                            lemma_find_among_settled(
                                self@,
                                (i + 1) as nat,
                                children.len() as nat,
                                id as nat,
                            );
                        }
                        return hit;
                    }
                    i += 1;
                }
                None
            },
            None => None,
        }
    }

    /// The first node in pre-order that carries `id`, to be changed in
    /// place: the tree then holds what the caller leaves there.
    pub fn get_node_by_id_mut(&mut self, id: u64) -> (found: Option<&mut FSNode>)
        ensures
            match found {
                Some(node) => Some(node@) == old(self)@.find(id as nat) && final(self)@ == old(
                    self,
                )@.put(id as nat, final(node)@),
                None => old(self)@.find(id as nat) is None && final(self)@ == old(self)@,
            },
        decreases *old(self),
    {
        if self.id == id {
            return Some(self);
        }
        proof {
            lemma_view_children(*self);
        }
        let ghost before = self@;
        let ghost after = *final(self);
        match &mut self.children {
            Some(children) => {
                let mut i: usize = 0;
                let mut held = false;
                while i < children.len() && !held
                    invariant
                        i <= children.len(),
                        forall|j: int| 0 <= j < i ==> (#[trigger] children@[j])@.find(id as nat) is None,
                        held ==> i < children.len() && children@[i as int]@.find(id as nat) is Some,
                    decreases children.len() - i, if held { 0int } else { 1int },
                {
                    if children[i].get_node_by_id(id).is_some() {
                        held = true;
                    } else {
                        i += 1;
                    }
                }
                if held {
                    proof {
                        assert(decreases_to!(*old(self) => old(self).children->0@[i as int]));
                        assert forall|j: int| 0 <= j < i implies (#[trigger] before.children->0[j]).find(
                            id as nat,
                        ) is None by {
                            assert(before.children->0[j] == children@[j]@);
                        }
                        assert(before.children->0[i as int] == children@[i as int]@);
                        lemma_holder_found(before, i as int, id as nat);
                    }
                    let ghost shown = children@;
                    let found = children[i].get_node_by_id_mut(id);
                    proof {
                        lemma_view_children(after);
                        let kept = after.children->0@;
                        assert(kept[i as int]@ == shown[i as int]@.put(id as nat, final(found->0)@));
                        assert(after@.children->0 =~= before.children->0.update(
                            i as int,
                            before.children->0[i as int].put(id as nat, final(found->0)@),
                        ));
                    }
                    found
                } else {
                    proof {
                        assert forall|j: int| 0 <= j < before.arity() implies (
                        #[trigger] before.children->0[j]).find(id as nat) is None by {
                            assert(before.children->0[j] == children@[j]@);
                        }
                        lemma_holder(before, before.arity(), id as nat);
                    }
                    None
                }
            },
            None => None,
        }
    }

    /// A copy of the node without its children; every other field is kept.
    pub fn clone_without_children(&self) -> (node: FSNode)
        ensures
            node@ == self@.without_children(),
    {
        FSNode {
            id: self.id,
            name: self.name.clone(),
            size: self.size,
            node_type: self.node_type,
            children: None,
            num_files: self.num_files,
            num_dirs: self.num_dirs,
            depth: self.depth,
        }
    }

    /// A copy of the node in which each direct child is cut down to itself,
    /// so that the copy is at most two levels deep.
    pub fn clone_only_direct_children(&self) -> (node: FSNode)
        ensures
            node@ == self@.only_direct_children(),
    {
        let mut node = self.clone_without_children();
        match &self.children {
            Some(children) => {
                let mut copies: Vec<FSNode> = Vec::new();
                let mut i: usize = 0;
                while i < children.len()
                    invariant
                        i <= children.len(),
                        copies@.len() == i,
                        forall|k: int|
                            0 <= k < i ==> (#[trigger] copies@[k])@ == children@[k]@.without_children(),
                    decreases children.len() - i,
                {
                    copies.push(children[i].clone_without_children());
                    i += 1;
                }
                node.children = Some(copies);
                proof {
                    lemma_view_children(*self);
                    lemma_view_children(node);
                    assert(node@.children->0 =~= self@.only_direct_children().children->0);
                }
            },
            None => {},
        }
        node
    }
}

impl Clone for FSNode {
    /// A full copy, children and all.
    fn clone(&self) -> (node: FSNode)
        ensures
            node@ == self@,
    {
        self.copy_tree()
    }
}

impl FSNode {
    /// A full copy, children and all.
    fn copy_tree(&self) -> (node: FSNode)
        ensures
            node@ == self@,
        decreases self,
    {
        let mut node = self.clone_without_children();
        match &self.children {
            Some(children) => {
                let mut copies: Vec<FSNode> = Vec::new();
                let mut i: usize = 0;
                while i < children.len()
                    invariant
                        i <= children.len(),
                        copies@.len() == i,
                        self.children == Some(*children),
                        forall|k: int| 0 <= k < i ==> (#[trigger] copies@[k])@ == children@[k]@,
                    decreases children.len() - i,
                {
                    assert(decreases_to!(self => self.children->0@[i as int]));
                    copies.push(children[i].copy_tree());
                    i += 1;
                }
                node.children = Some(copies);
                proof {
                    lemma_view_children(*self);
                    lemma_view_children(node);
                    assert(node@.children->0 =~= self@.children->0);
                }
            },
            None => {},
        }
        node
    }
}

} // verus!
