//! The traversal engine: a node store, a root id, and a movable cursor.
//!
//! A graph starts as a single root node with the cursor on it. It grows
//! only by adding an edge from the node under the cursor, either to a brand
//! new node or to an existing one. The cursor moves only by `traverse`,
//! which follows an edge of the current node, and by `reset`, which puts it
//! back on the root. Nodes and edges are never removed.

use vstd::prelude::*;
use vstd::pervasive::unreached;
use vstd::string::StringExecFns;

use crate::errors::GraphError;
use crate::node::generate_id;
use crate::node::Node;
use crate::node::NodeView;
use crate::store::has_node_id;
use crate::store::ids_distinct;
use crate::store::lemma_has_node_id_push;
use crate::store::lemma_has_node_id_update_same_id;
use crate::store::lemma_node_index_of;
use crate::store::lemma_node_index_valid;
use crate::store::lemma_push_fresh_distinct;
use crate::store::lemma_update_same_id_distinct;
use crate::store::node_index_of;
use crate::store::node_views;
use crate::store::node_with_id;
use crate::store::NodeStore;

verus! {

/// The mathematical content of a `Graph`: the node views in insertion
/// order, the root id and the cursor id.
#[verifier::ext_equal]
pub ghost struct GraphView {
    pub nodes: Seq<NodeView>,
    pub root: Seq<char>,
    pub current: Seq<char>,
}

/// Every edge destination in the list names a node of the list.
pub open spec fn edges_closed(nodes: Seq<NodeView>) -> bool {
    forall|i: int, l: Seq<char>|
        0 <= i < nodes.len() && (#[trigger] nodes[i].edges.dom().contains(l))
            ==> has_node_id(nodes, nodes[i].edges[l])
}

impl GraphView {
    /// The graph invariant: the store is nonempty and starts with the root
    /// node, ids are pairwise distinct, the cursor names a stored node, and
    /// every edge destination names a stored node.
    pub open spec fn wf(self) -> bool {
        &&& self.nodes.len() > 0
        &&& self.nodes[0].id == self.root
        &&& ids_distinct(self.nodes)
        &&& has_node_id(self.nodes, self.current)
        &&& edges_closed(self.nodes)
    }

    /// The view of the node under the cursor.
    pub open spec fn current_node_view(self) -> NodeView {
        node_with_id(self.nodes, self.current)
    }
}

/// The graph after `reset`: the cursor stands on the root.
pub open spec fn after_reset(g: GraphView) -> GraphView {
    GraphView { current: g.root, ..g }
}

/// Whether the current node has an edge for this label.
pub open spec fn can_traverse(g: GraphView, label: Seq<char>) -> bool {
    g.current_node_view().edges.dom().contains(label)
}

/// The destination id of the current node's edge for this label.
pub open spec fn traverse_dest(g: GraphView, label: Seq<char>) -> Seq<char> {
    g.current_node_view().edges[label]
}

/// The graph after a successful `traverse`: only the cursor moved.
pub open spec fn after_traverse(g: GraphView, label: Seq<char>) -> GraphView {
    GraphView { current: traverse_dest(g, label), ..g }
}

/// The graph after inserting an edge from the current node to `dest`.
pub open spec fn after_insert_existing(g: GraphView, label: Seq<char>, dest: Seq<char>) -> GraphView {
    let i = node_index_of(g.nodes, g.current);
    let cur = g.nodes[i];
    GraphView {
        nodes: g.nodes.update(i, NodeView { edges: cur.edges.insert(label, dest), ..cur }),
        ..g
    }
}

/// The graph after inserting an edge from the current node to a brand new
/// node: the edge is added, then the new node is appended to the store.
pub open spec fn after_insert_new_node(
    g: GraphView,
    label: Seq<char>,
    new_id: Seq<char>,
    element: Seq<char>,
) -> GraphView {
    let g1 = after_insert_existing(g, label, new_id);
    GraphView {
        nodes: g1.nodes.push(NodeView { id: new_id, element, edges: Map::empty() }),
        ..g1
    }
}

/// The graph after replacing the current node's element.
pub open spec fn after_update_element(g: GraphView, element: Seq<char>) -> GraphView {
    let i = node_index_of(g.nodes, g.current);
    GraphView {
        nodes: g.nodes.update(i, NodeView { element, ..g.nodes[i] }),
        ..g
    }
}

/// A directed, labeled graph with a movable cursor.
pub struct Graph {
    pub(crate) store: NodeStore,
    pub(crate) root_id: String,
    pub(crate) current_id: String,
}

impl View for Graph {
    type V = GraphView;

    closed spec fn view(&self) -> GraphView {
        GraphView { nodes: self.store@, root: self.root_id@, current: self.current_id@ }
    }
}

impl Graph {
    /// Internal well-formedness: the store's own invariant, plus the
    /// view-level graph invariant.
    pub closed spec fn wf(&self) -> bool {
        &&& self.store.wf()
        &&& self@.wf()
    }

    /// A single-node graph: the root node carries the given element, and
    /// the cursor stands on it.
    pub fn new(root_node_element: String) -> (g: Graph)
        ensures
            g.wf(),
            g@.wf(),
            g@.nodes.len() == 1,
            g@.nodes[0].element == root_node_element@,
            g@.nodes[0].edges == Map::<Seq<char>, Seq<char>>::empty(),
            g@.root == g@.nodes[0].id,
            g@.current == g@.root,
    {
        let root = Node::new(root_node_element);
        let root_id = root.id().clone();
        let mut store = NodeStore::new();
        store.insert(root);
        let g = Graph { store, root_id: root_id.clone(), current_id: root_id };
        proof {
            assert(g@.nodes[0].id == g@.root);
            assert(has_node_id(g@.nodes, g@.current));
        }
        g
    }

    /// Assemble a graph from a store and ids that already satisfy the
    /// graph invariant.
    pub(crate) fn from_parts(store: NodeStore, root_id: String, current_id: String) -> (g: Graph)
        requires
            store.wf(),
            (GraphView { nodes: store@, root: root_id@, current: current_id@ }).wf(),
        ensures
            g.wf(),
            g@ == (GraphView { nodes: store@, root: root_id@, current: current_id@ }),
    {
        Graph { store, root_id, current_id }
    }

    /// Whether a node with this id is in the store.
    pub fn has_node(&self, id: &String) -> (r: bool)
        ensures
            r == has_node_id(self@.nodes, id@),
    {
        match self.store.get_index(id) {
            Some(i) => {
                proof {
                    assert(self@.nodes[i as int].id == id@);
                }
                true
            },
            None => false,
        }
    }

    /// The node under the cursor.
    pub fn current_node(&self) -> (n: &Node)
        requires
            self.wf(),
        ensures
            n.wf(),
            n@ == self@.current_node_view(),
    {
        match self.store.get(&self.current_id) {
            Some(n) => n,
            None => unreached(),
        }
    }

    /// The root node's id.
    pub fn root_id(&self) -> (r: &String)
        ensures
            r@ == self@.root,
    {
        &self.root_id
    }

    /// The cursor's id.
    pub fn current_id(&self) -> (r: &String)
        ensures
            r@ == self@.current,
    {
        &self.current_id
    }

    /// All nodes, in insertion order.
    pub fn nodes(&self) -> (r: &Vec<Node>)
        requires
            self.wf(),
        ensures
            node_views(r@) == self@.nodes,
            forall|i: int| 0 <= i < r@.len() ==> (#[trigger] r@[i]).wf(),
    {
        self.store.iterate()
    }

    /// Put the cursor back on the root node. Always succeeds; doing it
    /// twice in a row leaves the same graph as doing it once.
    pub fn reset(&mut self)
        requires
            old(self).wf(),
        ensures
            final(self).wf(),
            final(self)@.wf(),
            final(self)@ == after_reset(old(self)@),
    {
        let r = self.root_id.clone();
        self.current_id = r;
        proof {
            assert(self@ =~= after_reset(old(self)@));
            assert(has_node_id(self@.nodes, self@.current));
        }
    }

    /// The index of the node under the cursor.
    fn current_index(&self) -> (i: usize)
        requires
            self.wf(),
        ensures
            i as int == node_index_of(self@.nodes, self@.current),
            0 <= i < self@.nodes.len(),
            self@.nodes[i as int].id == self@.current,
    {
        match self.store.get_index(&self.current_id) {
            Some(i) => {
                proof {
                    lemma_node_index_of(self@.nodes, i as int);
                }
                i
            },
            None => unreached(),
        }
    }

    /// Follow the current node's edge for this label: the cursor moves to
    /// the destination, and a copy of the destination node is returned. If
    /// the current node has no such edge, nothing changes and `NoSuchEdge`
    /// is returned.
    pub fn traverse(&mut self, edge_element: String) -> (r: Result<Node, GraphError>)
        requires
            old(self).wf(),
        ensures
            final(self).wf(),
            final(self)@.wf(),
            match r {
                Ok(n) => {
                    &&& can_traverse(old(self)@, edge_element@)
                    &&& final(self)@ == after_traverse(old(self)@, edge_element@)
                    &&& n.wf()
                    &&& n@ == final(self)@.current_node_view()
                },
                Err(e) => {
                    &&& e == GraphError::NoSuchEdge
                    &&& !can_traverse(old(self)@, edge_element@)
                    &&& final(self)@ == old(self)@
                },
            },
    {
        let dest = {
            let cur = self.current_node();
            cur.node_for_edge_element(&edge_element)
        };
        match dest {
            Some(d) => {
                proof {
                    lemma_node_index_valid(self@.nodes, self@.current);
                    assert(has_node_id(self@.nodes, d@));
                }
                self.current_id = d;
                proof {
                    assert(self@ =~= after_traverse(old(self)@, edge_element@));
                }
                let n = self.current_node().duplicate();
                Ok(n)
            },
            None => Err(GraphError::NoSuchEdge),
        }
    }

    /// Insert an edge from the current node to a brand new node carrying
    /// this element, and return the new node's id. The cursor does not
    /// move. The new id is fresh: no stored node carried it before.
    pub fn insert_edge_to_new_node(&mut self, edge: String, node: String) -> (new_id: String)
        requires
            old(self).wf(),
        ensures
            final(self).wf(),
            final(self)@.wf(),
            !has_node_id(old(self)@.nodes, new_id@),
            final(self)@ == after_insert_new_node(old(self)@, edge@, new_id@, node@),
    {
        let mut id = generate_id();
        if self.has_node(&id) {
            id = self.fallback_id();
        }
        let new_node = Node::with_id(id.clone(), node);
        let idx = self.current_index();
        let ghost g0 = self@;
        let ghost cur0 = g0.nodes[idx as int];
        self.store.update_edge(idx, edge, id.clone());
        proof {
            lemma_has_node_id_update_same_id(
                g0.nodes,
                idx as int,
                NodeView { edges: cur0.edges.insert(edge@, id@), ..cur0 },
            );
            lemma_update_same_id_distinct(
                g0.nodes,
                idx as int,
                NodeView { edges: cur0.edges.insert(edge@, id@), ..cur0 },
            );
        }
        self.store.insert(new_node);
        proof {
            let gf = after_insert_new_node(g0, edge@, id@, node@);
            assert(self@ =~= gf);
            lemma_wf_after_insert_new_node(g0, edge@, id@, node@);
        }
        id
    }

    /// Insert an edge from the current node to the stored node with this
    /// id. The cursor does not move. If no stored node carries the id,
    /// nothing changes and `NodeNotFound` is returned.
    pub fn insert_edge_to_existing_node(&mut self, edge: String, node_id: String) -> (r: Result<
        (),
        GraphError,
    >)
        requires
            old(self).wf(),
        ensures
            final(self).wf(),
            final(self)@.wf(),
            match r {
                Ok(_) => {
                    &&& has_node_id(old(self)@.nodes, node_id@)
                    &&& final(self)@ == after_insert_existing(old(self)@, edge@, node_id@)
                },
                Err(e) => {
                    &&& e == GraphError::NodeNotFound
                    &&& !has_node_id(old(self)@.nodes, node_id@)
                    &&& final(self)@ == old(self)@
                },
            },
    {
        if !self.has_node(&node_id) {
            return Err(GraphError::NodeNotFound);
        }
        let idx = self.current_index();
        let ghost g0 = self@;
        self.store.update_edge(idx, edge, node_id.clone());
        proof {
            assert(self@ =~= after_insert_existing(g0, edge@, node_id@));
            lemma_wf_after_insert_existing(g0, edge@, node_id@);
        }
        Ok(())
    }

    /// Replace the element of the node under the cursor.
    pub fn update_current_element(&mut self, element: String)
        requires
            old(self).wf(),
        ensures
            final(self).wf(),
            final(self)@.wf(),
            final(self)@ == after_update_element(old(self)@, element@),
    {
        let idx = self.current_index();
        let ghost g0 = self@;
        self.store.update_element(idx, element);
        proof {
            assert(self@ =~= after_update_element(g0, element@));
            let nv = NodeView { element: element@, ..g0.nodes[idx as int] };
            lemma_update_same_id_distinct(g0.nodes, idx as int, nv);
            lemma_has_node_id_update_same_id(g0.nodes, idx as int, nv);
            assert forall|i: int, l: Seq<char>|
                0 <= i < self@.nodes.len() && (#[trigger] self@.nodes[i].edges.dom().contains(l))
                implies has_node_id(self@.nodes, self@.nodes[i].edges[l]) by {
                assert(self@.nodes[i].edges == g0.nodes[i].edges);
                assert(has_node_id(g0.nodes, g0.nodes[i].edges[l]));
            }
        }
    }

    /// An id carried by no stored node: the concatenation of every stored
    /// id plus one more character is longer than each of them.
    fn fallback_id(&self) -> (id: String)
        requires
            self.wf(),
        ensures
            !has_node_id(self@.nodes, id@),
    {
        let nodes = self.store.iterate();
        let n = nodes.len();
        let mut acc = String::new();
        let mut i: usize = 0;
        while i < n
            invariant
                n == nodes@.len(),
                node_views(nodes@) == self@.nodes,
                i <= n,
                forall|j: int| 0 <= j < i ==> acc@.len() >= (#[trigger] self@.nodes[j]).id.len(),
            decreases n - i,
        {
            let ghost acc0 = acc@;
            acc.append(nodes[i].id().as_str());
            proof {
                assert(acc@.len() == acc0.len() + self@.nodes[i as int].id.len());
            }
            i += 1;
        }
        let ghost acc1 = acc@;
        acc.append("x");
        proof {
            reveal_strlit("x");
            assert(acc@.len() == acc1.len() + 1);
            assert forall|j: int| 0 <= j < self@.nodes.len()
                implies (#[trigger] self@.nodes[j]).id != acc@ by {
                assert(acc@.len() > self@.nodes[j].id.len());
            }
            if has_node_id(self@.nodes, acc@) {
                let w = choose|w: int|
                    0 <= w < self@.nodes.len() && (#[trigger] self@.nodes[w]).id == acc@;
                assert(self@.nodes[w].id != acc@);
            }
        }
        acc
    }
}

/// Inserting an edge to a stored node preserves the graph invariant.
pub proof fn lemma_wf_after_insert_existing(g: GraphView, label: Seq<char>, dest: Seq<char>)
    requires
        g.wf(),
        has_node_id(g.nodes, dest),
    ensures
        after_insert_existing(g, label, dest).wf(),
{
    let i = node_index_of(g.nodes, g.current);
    lemma_node_index_valid(g.nodes, g.current);
    let cur = g.nodes[i];
    let nv = NodeView { edges: cur.edges.insert(label, dest), ..cur };
    let gf = after_insert_existing(g, label, dest);
    lemma_update_same_id_distinct(g.nodes, i, nv);
    lemma_has_node_id_update_same_id(g.nodes, i, nv);
    assert(gf.nodes[0].id == g.nodes[0].id);
    assert forall|x: int, l: Seq<char>|
        0 <= x < gf.nodes.len() && (#[trigger] gf.nodes[x].edges.dom().contains(l))
        implies has_node_id(gf.nodes, gf.nodes[x].edges[l]) by {
        if x == i {
            if l == label {
                assert(has_node_id(g.nodes, dest));
            } else {
                assert(cur.edges.dom().contains(l));
                assert(has_node_id(g.nodes, cur.edges[l]));
            }
        } else {
            assert(g.nodes[x].edges.dom().contains(l));
            assert(has_node_id(g.nodes, g.nodes[x].edges[l]));
        }
    }
}

/// Inserting an edge to a brand new node preserves the graph invariant.
pub proof fn lemma_wf_after_insert_new_node(
    g: GraphView,
    label: Seq<char>,
    new_id: Seq<char>,
    element: Seq<char>,
)
    requires
        g.wf(),
        !has_node_id(g.nodes, new_id),
    ensures
        after_insert_new_node(g, label, new_id, element).wf(),
{
    let i = node_index_of(g.nodes, g.current);
    lemma_node_index_valid(g.nodes, g.current);
    let cur = g.nodes[i];
    let nv = NodeView { edges: cur.edges.insert(label, new_id), ..cur };
    let mid = g.nodes.update(i, nv);
    let fresh = NodeView { id: new_id, element, edges: Map::empty() };
    let gf = after_insert_new_node(g, label, new_id, element);
    lemma_update_same_id_distinct(g.nodes, i, nv);
    lemma_has_node_id_update_same_id(g.nodes, i, nv);
    lemma_push_fresh_distinct(mid, fresh);
    lemma_has_node_id_push(mid, fresh);
    assert(gf.nodes == mid.push(fresh));
    assert(gf.nodes[0].id == g.nodes[0].id);
    assert(has_node_id(mid, g.current));
    assert forall|x: int, l: Seq<char>|
        0 <= x < gf.nodes.len() && (#[trigger] gf.nodes[x].edges.dom().contains(l))
        implies has_node_id(gf.nodes, gf.nodes[x].edges[l]) by {
        if x < mid.len() {
            if x == i {
                if l == label {
                    assert(has_node_id(mid.push(fresh), fresh.id));
                    assert(has_node_id(gf.nodes, new_id));
                } else {
                    assert(cur.edges.dom().contains(l));
                    assert(has_node_id(g.nodes, cur.edges[l]));
                    assert(has_node_id(mid, cur.edges[l]));
                    assert(has_node_id(gf.nodes, cur.edges[l]));
                }
            } else {
                assert(gf.nodes[x] == g.nodes[x]);
                assert(g.nodes[x].edges.dom().contains(l));
                assert(has_node_id(g.nodes, g.nodes[x].edges[l]));
                assert(has_node_id(mid, g.nodes[x].edges[l]));
                assert(has_node_id(gf.nodes, g.nodes[x].edges[l]));
            }
        } else {
            assert(gf.nodes[x] == fresh);
            assert(!fresh.edges.dom().contains(l));
        }
    }
}

/// Resetting the cursor is idempotent: resetting twice in a row leaves the
/// same graph as resetting once.
pub proof fn lemma_reset_idempotent(g: GraphView)
    ensures
        after_reset(after_reset(g)) == after_reset(g),
{
    assert(after_reset(after_reset(g)) =~= after_reset(g));
}

/// After inserting an edge for a fresh node, traversing that edge's label
/// moves the cursor to the new node, whose element is the one given.
pub proof fn lemma_new_node_then_traverse(
    g: GraphView,
    label: Seq<char>,
    new_id: Seq<char>,
    element: Seq<char>,
)
    requires
        g.wf(),
        !has_node_id(g.nodes, new_id),
    ensures
        ({
            let g2 = after_insert_new_node(g, label, new_id, element);
            &&& can_traverse(g2, label)
            &&& traverse_dest(g2, label) == new_id
            &&& after_traverse(g2, label).current == new_id
            &&& node_with_id(g2.nodes, new_id).element == element
        }),
{
    let i = node_index_of(g.nodes, g.current);
    lemma_node_index_valid(g.nodes, g.current);
    let cur = g.nodes[i];
    let nv = NodeView { edges: cur.edges.insert(label, new_id), ..cur };
    let mid = g.nodes.update(i, nv);
    let fresh = NodeView { id: new_id, element, edges: Map::empty() };
    let g2 = after_insert_new_node(g, label, new_id, element);
    lemma_update_same_id_distinct(g.nodes, i, nv);
    lemma_push_fresh_distinct(mid, fresh);
    assert(g2.nodes == mid.push(fresh));
    assert(g2.nodes[i] == nv);
    lemma_node_index_of(g2.nodes, i);
    assert(g2.current == g.current && nv.id == g.current);
    assert(node_with_id(g2.nodes, g2.current) == nv);
    assert(nv.edges.dom().contains(label) && nv.edges[label] == new_id);
    lemma_node_index_of(g2.nodes, mid.len() as int);
    assert(node_with_id(g2.nodes, new_id) == fresh);
}

/// Inserting two edges with the same label from the same node leaves one
/// edge for that label, pointing at the second destination: the two
/// inserts leave the same graph as the second insert alone.
pub proof fn lemma_last_edge_wins(
    g: GraphView,
    label: Seq<char>,
    first: Seq<char>,
    second: Seq<char>,
)
    requires
        g.wf(),
    ensures
        after_insert_existing(after_insert_existing(g, label, first), label, second)
            == after_insert_existing(g, label, second),
        node_with_id(
            after_insert_existing(after_insert_existing(g, label, first), label, second).nodes,
            g.current,
        ).edges[label] == second,
{
    let i = node_index_of(g.nodes, g.current);
    lemma_node_index_valid(g.nodes, g.current);
    let cur = g.nodes[i];
    let nv1 = NodeView { edges: cur.edges.insert(label, first), ..cur };
    let g1 = after_insert_existing(g, label, first);
    lemma_update_same_id_distinct(g.nodes, i, nv1);
    assert(g1.nodes[i] == nv1);
    lemma_node_index_of(g1.nodes, i);
    assert(node_index_of(g1.nodes, g1.current) == i);
    let nv2 = NodeView { edges: nv1.edges.insert(label, second), ..nv1 };
    let g2 = after_insert_existing(g1, label, second);
    assert(g2.nodes == g1.nodes.update(i, nv2));
    assert(nv1.edges.insert(label, second) =~= cur.edges.insert(label, second));
    assert(nv2 == NodeView { edges: cur.edges.insert(label, second), ..cur });
    assert(g2.nodes =~= g.nodes.update(i, nv2));
    assert(g2 =~= after_insert_existing(g, label, second));
    lemma_update_same_id_distinct(g.nodes, i, nv2);
    lemma_node_index_of(g2.nodes, i);
    assert(node_with_id(g2.nodes, g.current) == nv2);
}

} // verus!
