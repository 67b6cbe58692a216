//! The insertion-ordered owning store of all nodes in a graph.
//!
//! Nodes are kept in the order they were inserted, are never removed, and
//! are looked up by their id. The store's view is the sequence of node
//! views in insertion order.

use vstd::prelude::*;

use crate::node::Node;
use crate::node::NodeView;

verus! {

/// The views of a list of nodes.
pub open spec fn node_views(s: Seq<Node>) -> Seq<NodeView> {
    s.map_values(|n: Node| n@)
}

/// No two nodes in the list carry the same id.
pub open spec fn ids_distinct(s: Seq<NodeView>) -> bool {
    forall|i: int, j: int| 0 <= i < j < s.len() ==> (#[trigger] s[i]).id != (#[trigger] s[j]).id
}

/// Some node in the list carries this id.
pub open spec fn has_node_id(s: Seq<NodeView>, id: Seq<char>) -> bool {
    exists|i: int| 0 <= i < s.len() && (#[trigger] s[i]).id == id
}

/// The index of a node carrying this id.
pub open spec fn node_index_of(s: Seq<NodeView>, id: Seq<char>) -> int {
    choose|i: int| 0 <= i < s.len() && (#[trigger] s[i]).id == id
}

/// The node carrying this id.
pub open spec fn node_with_id(s: Seq<NodeView>, id: Seq<char>) -> NodeView {
    s[node_index_of(s, id)]
}

/// With distinct ids, the index of a node's id is its own position.
pub proof fn lemma_node_index_of(s: Seq<NodeView>, i: int)
    requires
        ids_distinct(s),
        0 <= i < s.len(),
    ensures
        has_node_id(s, s[i].id),
        node_index_of(s, s[i].id) == i,
        node_with_id(s, s[i].id) == s[i],
{
    assert(has_node_id(s, s[i].id));
    let j = node_index_of(s, s[i].id);
    if j < i {
        assert(s[j].id != s[i].id);
    } else if j > i {
        assert(s[i].id != s[j].id);
    }
}

/// A present id has a valid index, and the node there carries it.
pub proof fn lemma_node_index_valid(s: Seq<NodeView>, id: Seq<char>)
    requires
        has_node_id(s, id),
    ensures
        0 <= node_index_of(s, id) < s.len(),
        s[node_index_of(s, id)].id == id,
        node_with_id(s, id).id == id,
{
    let w = choose|i: int| 0 <= i < s.len() && (#[trigger] s[i]).id == id;
    assert(0 <= w < s.len() && s[w].id == id);
}

/// Replacing a node by one with the same id keeps every id's presence.
pub proof fn lemma_has_node_id_update_same_id(s: Seq<NodeView>, i: int, nv: NodeView)
    requires
        0 <= i < s.len(),
        nv.id == s[i].id,
    ensures
        forall|x: Seq<char>|
            #![trigger has_node_id(s.update(i, nv), x)]
            #![trigger has_node_id(s, x)]
            has_node_id(s.update(i, nv), x) <==> has_node_id(s, x),
{
    let u = s.update(i, nv);
    assert forall|x: Seq<char>| has_node_id(u, x) implies has_node_id(s, x) by {
        let w = choose|w: int| 0 <= w < u.len() && (#[trigger] u[w]).id == x;
        assert(s[w].id == x);
    }
    assert forall|x: Seq<char>| has_node_id(s, x) implies has_node_id(u, x) by {
        let w = choose|w: int| 0 <= w < s.len() && (#[trigger] s[w]).id == x;
        assert(u[w].id == x);
    }
}

/// Appending a node keeps every present id present, and adds its own.
pub proof fn lemma_has_node_id_push(s: Seq<NodeView>, nv: NodeView)
    ensures
        forall|x: Seq<char>|
            #[trigger] has_node_id(s, x) ==> has_node_id(s.push(nv), x),
        has_node_id(s.push(nv), nv.id),
{
    let u = s.push(nv);
    assert forall|x: Seq<char>| has_node_id(s, x) implies has_node_id(u, x) by {
        let w = choose|w: int| 0 <= w < s.len() && (#[trigger] s[w]).id == x;
        assert(u[w].id == x);
    }
    assert(u[s.len() as int].id == nv.id);
}

/// Appending a node with a fresh id keeps ids distinct.
pub proof fn lemma_push_fresh_distinct(s: Seq<NodeView>, nv: NodeView)
    requires
        ids_distinct(s),
        !has_node_id(s, nv.id),
    ensures
        ids_distinct(s.push(nv)),
{
    let u = s.push(nv);
    assert forall|x: int, y: int| 0 <= x < y < u.len() implies u[x].id != u[y].id by {
        if y < s.len() {
            assert(s[x].id != s[y].id);
        } else {
            assert(s[x] == u[x]);
            if u[x].id == nv.id {
                assert(has_node_id(s, nv.id));
            }
        }
    }
}

/// Replacing a node by one with the same id keeps ids distinct.
pub proof fn lemma_update_same_id_distinct(s: Seq<NodeView>, i: int, nv: NodeView)
    requires
        ids_distinct(s),
        0 <= i < s.len(),
        nv.id == s[i].id,
    ensures
        ids_distinct(s.update(i, nv)),
{
    let u = s.update(i, nv);
    assert forall|x: int, y: int| 0 <= x < y < u.len() implies u[x].id != u[y].id by {
        assert(s[x].id != s[y].id);
    }
}

/// The insertion-ordered collection owning every node of a graph.
pub struct NodeStore {
    pub(crate) nodes: Vec<Node>,
}

impl View for NodeStore {
    type V = Seq<NodeView>;

    closed spec fn view(&self) -> Seq<NodeView> {
        node_views(self.nodes@)
    }
}

impl NodeStore {
    /// Internal well-formedness: node ids are pairwise distinct and every
    /// stored node is well formed.
    pub closed spec fn wf(&self) -> bool {
        &&& ids_distinct(self@)
        &&& forall|i: int| 0 <= i < self.nodes@.len() ==> (#[trigger] self.nodes@[i]).wf()
    }

    /// An empty store.
    pub fn new() -> (s: NodeStore)
        ensures
            s.wf(),
            s@ == Seq::<NodeView>::empty(),
    {
        let s = NodeStore { nodes: Vec::new() };
        proof {
            assert(s@ =~= Seq::<NodeView>::empty());
        }
        s
    }

    /// How many nodes the store holds.
    pub fn len(&self) -> (n: usize)
        ensures
            n == self@.len(),
    {
        self.nodes.len()
    }

    /// The position of the node carrying this id, if it is present.
    pub fn get_index(&self, id: &String) -> (r: Option<usize>)
        ensures
            match r {
                Some(i) => i < self@.len() && self@[i as int].id == id@,
                None => !has_node_id(self@, id@),
            },
    {
        let n = self.nodes.len();
        let mut i: usize = 0;
        while i < n
            invariant
                n == self.nodes@.len(),
                i <= n,
                forall|j: int| 0 <= j < i ==> (#[trigger] node_views(self.nodes@)[j]).id != id@,
            decreases n - i,
        {
            if *self.nodes[i].id() == *id {
                return Some(i);
            }
            i += 1;
        }
        None
    }

    /// The node carrying this id, or `None` if no node does.
    pub fn get(&self, id: &String) -> (r: Option<&Node>)
        requires
            self.wf(),
        ensures
            match r {
                Some(n) => has_node_id(self@, id@) && n.wf() && n@ == node_with_id(self@, id@),
                None => !has_node_id(self@, id@),
            },
    {
        match self.get_index(id) {
            Some(i) => {
                proof {
                    lemma_node_index_of(self@, i as int);
                }
                Some(&self.nodes[i])
            },
            None => None,
        }
    }

    /// Append a node whose id is not yet present.
    pub fn insert(&mut self, node: Node)
        requires
            old(self).wf(),
            node.wf(),
            !has_node_id(old(self)@, node@.id),
        ensures
            final(self).wf(),
            final(self)@ == old(self)@.push(node@),
    {
        let ghost oldv = self@;
        let ghost nv = node@;
        self.nodes.push(node);
        proof {
            assert(self@ =~= oldv.push(nv));
            assert forall|x: int, y: int| 0 <= x < y < self@.len()
                implies self@[x].id != self@[y].id by {
                if y < oldv.len() {
                    assert(oldv[x].id != oldv[y].id);
                } else {
                    assert(oldv[x] == self@[x]);
                    if self@[x].id == nv.id {
                        assert(has_node_id(oldv, nv.id));
                    }
                }
            }
        }
    }

    /// Replace the element of the node at this position.
    pub fn update_element(&mut self, index: usize, element: String)
        requires
            old(self).wf(),
            index < old(self)@.len(),
        ensures
            final(self).wf(),
            final(self)@ == old(self)@.update(
                index as int,
                NodeView { element: element@, ..old(self)@[index as int] },
            ),
    {
        let ghost oldv = self@;
        let mut node = self.nodes[index].duplicate();
        node.set_element(element);
        let ghost nv = node@;
        self.nodes[index] = node;
        proof {
            assert(self@ =~= oldv.update(index as int, nv));
            lemma_update_same_id_distinct(oldv, index as int, nv);
        }
    }

    /// Insert an edge on the node at this position; an existing edge with
    /// the same label is overwritten.
    pub fn update_edge(&mut self, index: usize, label: String, dest: String)
        requires
            old(self).wf(),
            index < old(self)@.len(),
        ensures
            final(self).wf(),
            final(self)@ == old(self)@.update(
                index as int,
                NodeView {
                    edges: old(self)@[index as int].edges.insert(label@, dest@),
                    ..old(self)@[index as int]
                },
            ),
    {
        let ghost oldv = self@;
        let mut node = self.nodes[index].duplicate();
        node.insert_edge(label, dest);
        let ghost nv = node@;
        self.nodes[index] = node;
        proof {
            assert(self@ =~= oldv.update(index as int, nv));
            lemma_update_same_id_distinct(oldv, index as int, nv);
        }
    }

    /// All nodes, in insertion order.
    pub fn iterate(&self) -> (r: &Vec<Node>)
        requires
            self.wf(),
        ensures
            node_views(r@) == self@,
            forall|i: int| 0 <= i < r@.len() ==> (#[trigger] r@[i]).wf(),
    {
        &self.nodes
    }
}

} // verus!
