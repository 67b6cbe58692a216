//! Nodes: a stable id, a caller-supplied element, and labeled outgoing edges.
//!
//! A node keeps at most one outgoing edge per label; inserting a label that
//! is already present overwrites its destination (last write wins). The
//! edge list is modeled as a `Map` from label to destination id.

use vstd::prelude::*;

verus! {

/// One outgoing edge of a node: a label and the destination node's id.
pub struct Edge {
    pub label: String,
    pub dest: String,
}

/// The mathematical content of an `Edge`.
#[verifier::ext_equal]
pub ghost struct EdgeView {
    pub label: Seq<char>,
    pub dest: Seq<char>,
}

impl View for Edge {
    type V = EdgeView;

    open spec fn view(&self) -> EdgeView {
        EdgeView { label: self.label@, dest: self.dest@ }
    }
}

/// The views of a list of edges.
pub open spec fn edge_views(s: Seq<Edge>) -> Seq<EdgeView> {
    s.map_values(|e: Edge| e@)
}

/// The label-to-destination mapping described by a list of edges; a later
/// entry for a label overrides an earlier one.
pub open spec fn edges_map_of(s: Seq<EdgeView>) -> Map<Seq<char>, Seq<char>>
    decreases s.len(),
{
    if s.len() == 0 {
        Map::empty()
    } else {
        edges_map_of(s.drop_last()).insert(s.last().label, s.last().dest)
    }
}

/// No two edges in the list carry the same label.
pub open spec fn edge_labels_distinct(s: Seq<EdgeView>) -> bool {
    forall|i: int, j: int| 0 <= i < j < s.len() ==> (#[trigger] s[i]).label != (#[trigger] s[j]).label
}

/// Some edge in the list carries this label.
pub open spec fn has_label(s: Seq<EdgeView>, l: Seq<char>) -> bool {
    exists|i: int| 0 <= i < s.len() && (#[trigger] s[i]).label == l
}

/// Some edge in the list carries this label-destination pair.
pub open spec fn lists_pair(s: Seq<EdgeView>, l: Seq<char>, d: Seq<char>) -> bool {
    exists|i: int| 0 <= i < s.len() && (#[trigger] s[i]).label == l && s[i].dest == d
}

/// The domain of the edge mapping is exactly the set of listed labels.
pub proof fn lemma_edges_map_of_dom(s: Seq<EdgeView>)
    ensures
        forall|l: Seq<char>|
            #![trigger edges_map_of(s).dom().contains(l)]
            #![trigger has_label(s, l)]
            edges_map_of(s).dom().contains(l) <==> has_label(s, l),
    decreases s.len(),
{
    if s.len() > 0 {
        let d = s.drop_last();
        lemma_edges_map_of_dom(d);
        assert forall|l: Seq<char>| edges_map_of(s).dom().contains(l) implies has_label(s, l) by {
            if l == s.last().label {
                assert(s[s.len() - 1].label == l);
            } else {
                assert(edges_map_of(d).dom().contains(l));
                assert(has_label(d, l));
                let i = choose|i: int| 0 <= i < d.len() && (#[trigger] d[i]).label == l;
                assert(d[i] == s[i]);
                assert(s[i].label == l);
            }
        }
        assert forall|l: Seq<char>| has_label(s, l) implies edges_map_of(s).dom().contains(l) by {
            let i = choose|i: int| 0 <= i < s.len() && (#[trigger] s[i]).label == l;
            if i < s.len() - 1 {
                assert(d[i] == s[i]);
                assert(has_label(d, l));
                assert(edges_map_of(d).dom().contains(l));
            }
        }
    }
}

/// Every mapped destination is listed beside its label.
pub proof fn lemma_edges_map_of_pair(s: Seq<EdgeView>, l: Seq<char>)
    requires
        edges_map_of(s).dom().contains(l),
    ensures
        lists_pair(s, l, edges_map_of(s)[l]),
    decreases s.len(),
{
    if s.len() > 0 {
        let d = s.drop_last();
        if l == s.last().label {
            assert(s[s.len() - 1].label == l && s[s.len() - 1].dest == edges_map_of(s)[l]);
        } else {
            lemma_edges_map_of_pair(d, l);
            let i = choose|i: int|
                0 <= i < d.len() && (#[trigger] d[i]).label == l && d[i].dest == edges_map_of(d)[l];
            assert(s[i].label == l && s[i].dest == edges_map_of(s)[l]);
        }
    }
}

/// With distinct labels, each listed edge is mapped to its own destination.
pub proof fn lemma_edges_map_of_at(s: Seq<EdgeView>, i: int)
    requires
        edge_labels_distinct(s),
        0 <= i < s.len(),
    ensures
        edges_map_of(s).dom().contains(s[i].label),
        edges_map_of(s)[s[i].label] == s[i].dest,
    decreases s.len(),
{
    if i < s.len() - 1 {
        let d = s.drop_last();
        assert(forall|x: int, y: int|
            0 <= x < y < d.len() ==> (#[trigger] d[x]).label != (#[trigger] d[y]).label);
        lemma_edges_map_of_at(d, i);
        assert(s[i].label != s[s.len() - 1].label);
    }
}

/// Appending an edge inserts its pair into the mapping.
proof fn lemma_edges_map_of_push(s: Seq<EdgeView>, e: EdgeView)
    ensures
        edges_map_of(s.push(e)) == edges_map_of(s).insert(e.label, e.dest),
{
    assert(s.push(e).drop_last() =~= s);
    assert(s.push(e).last() == e);
}

/// Overwriting the edge that carries a label inserts the new pair into the
/// mapping, provided labels are distinct.
proof fn lemma_edges_map_of_update(s: Seq<EdgeView>, i: int, e: EdgeView)
    requires
        edge_labels_distinct(s),
        0 <= i < s.len(),
        s[i].label == e.label,
    ensures
        edges_map_of(s.update(i, e)) == edges_map_of(s).insert(e.label, e.dest),
    decreases s.len(),
{
    let u = s.update(i, e);
    if i == s.len() - 1 {
        assert(u.drop_last() =~= s.drop_last());
        assert(u.last() == e);
        assert(edges_map_of(s.drop_last()).insert(s.last().label, s.last().dest).insert(
            e.label,
            e.dest,
        ) =~= edges_map_of(s.drop_last()).insert(e.label, e.dest));
    } else {
        let d = s.drop_last();
        assert(forall|x: int, y: int|
            0 <= x < y < d.len() ==> (#[trigger] d[x]).label != (#[trigger] d[y]).label);
        lemma_edges_map_of_update(d, i, e);
        assert(u.drop_last() =~= d.update(i, e));
        assert(u.last() == s.last());
        assert(s[i].label != s[s.len() - 1].label);
        assert(edges_map_of(d).insert(e.label, e.dest).insert(s.last().label, s.last().dest)
            =~= edges_map_of(d).insert(s.last().label, s.last().dest).insert(e.label, e.dest));
    }
}

/// Relies on `uuid::Uuid::new_v4` and its hyphenated `Display` form: a
/// freshly drawn random 128-bit identifier rendered as 36 ASCII characters.
/// The value depends on the process's randomness source, so nothing is
/// promised of it beyond its length.
#[verifier::external_body]
pub(crate) fn generate_id() -> (id: String)
    ensures
        id@.len() == 36,
{
    uuid::Uuid::new_v4().to_string()
}

/// A graph vertex: a stable id, a caller-supplied element, and at most one
/// outgoing edge per label.
pub struct Node {
    pub(crate) id: String,
    pub(crate) element: String,
    pub(crate) edges: Vec<Edge>,
}

/// The mathematical content of a `Node`: its id and element as character
/// sequences, and its edges as a label-to-destination mapping.
#[verifier::ext_equal]
pub ghost struct NodeView {
    pub id: Seq<char>,
    pub element: Seq<char>,
    pub edges: Map<Seq<char>, Seq<char>>,
}

impl View for Node {
    type V = NodeView;

    closed spec fn view(&self) -> NodeView {
        NodeView {
            id: self.id@,
            element: self.element@,
            edges: edges_map_of(edge_views(self.edges@)),
        }
    }
}

impl Node {
    /// Internal well-formedness: the stored edge list carries each label at
    /// most once, so it denotes its mapping without shadowing.
    pub closed spec fn wf(&self) -> bool {
        edge_labels_distinct(edge_views(self.edges@))
    }

    /// Create a node with a freshly generated id, the given element, and no
    /// edges.
    pub fn new(element: String) -> (n: Node)
        ensures
            n.wf(),
            n@.element == element@,
            n@.edges == Map::<Seq<char>, Seq<char>>::empty(),
    {
        let n = Node { id: generate_id(), element, edges: Vec::new() };
        proof {
            assert(edge_views(n.edges@) =~= Seq::<EdgeView>::empty());
        }
        n
    }

    /// Create a node with the given id and element and no edges.
    pub fn with_id(id: String, element: String) -> (n: Node)
        ensures
            n.wf(),
            n@.id == id@,
            n@.element == element@,
            n@.edges == Map::<Seq<char>, Seq<char>>::empty(),
    {
        let n = Node { id, element, edges: Vec::new() };
        proof {
            assert(edge_views(n.edges@) =~= Seq::<EdgeView>::empty());
        }
        n
    }

    /// The node's id.
    pub fn id(&self) -> (r: &String)
        ensures
            r@ == self@.id,
    {
        &self.id
    }

    /// The node's element.
    pub fn element(&self) -> (r: &String)
        ensures
            r@ == self@.element,
    {
        &self.element
    }

    /// Replace the node's element; id and edges are untouched.
    pub fn set_element(&mut self, element: String)
        ensures
            final(self).wf() == old(self).wf(),
            final(self)@ == (NodeView { element: element@, ..old(self)@ }),
    {
        self.element = element;
    }

    /// The index of the edge carrying this label, if one is listed.
    fn find_edge(&self, label: &String) -> (r: Option<usize>)
        ensures
            match r {
                Some(i) => i < self.edges@.len() && self.edges@[i as int].label@ == label@,
                None => !has_label(edge_views(self.edges@), label@),
            },
    {
        let n = self.edges.len();
        let mut i: usize = 0;
        while i < n
            invariant
                n == self.edges@.len(),
                i <= n,
                forall|j: int| 0 <= j < i ==> (#[trigger] self.edges@[j]).label@ != label@,
            decreases n - i,
        {
            if self.edges[i].label == *label {
                return Some(i);
            }
            i += 1;
        }
        proof {
            assert forall|k: int| 0 <= k < edge_views(self.edges@).len()
                implies (#[trigger] edge_views(self.edges@)[k]).label != label@ by {
                assert(self.edges@[k].label@ != label@);
            }
        }
        None
    }

    /// All outgoing labels, each exactly once, in no promised order.
    pub fn edge_elements(&self) -> (labels: Vec<String>)
        requires
            self.wf(),
        ensures
            is_label_set(labels@.map_values(|s: String| s@), self@.edges),
    {
        let n = self.edges.len();
        let mut labels: Vec<String> = Vec::new();
        let mut i: usize = 0;
        while i < n
            invariant
                n == self.edges@.len(),
                i <= n,
                labels@.len() == i,
                forall|j: int| 0 <= j < i ==> (#[trigger] labels@[j])@ == self.edges@[j].label@,
            decreases n - i,
        {
            labels.push(self.edges[i].label.clone());
            i += 1;
        }
        proof {
            let ls = labels@.map_values(|s: String| s@);
            let evs = edge_views(self.edges@);
            lemma_edges_map_of_dom(evs);
            assert(ls.len() == evs.len());
            assert forall|j: int| 0 <= j < ls.len() implies ls[j] == evs[j].label by {
                assert(labels@[j]@ == self.edges@[j].label@);
            }
            assert forall|j: int| 0 <= j < ls.len()
                implies self@.edges.dom().contains(#[trigger] ls[j]) by {
                assert(evs[j].label == ls[j]);
                assert(has_label(evs, ls[j]));
            }
            assert forall|l: Seq<char>| #[trigger] self@.edges.dom().contains(l)
                implies ls.contains(l) by {
                assert(has_label(evs, l));
                let i0 = choose|i0: int| 0 <= i0 < evs.len() && (#[trigger] evs[i0]).label == l;
                assert(ls[i0] == l);
            }
            assert forall|i: int, j: int| 0 <= i < j < ls.len()
                implies ls[i] != ls[j] by {
                assert(evs[i].label != evs[j].label);
                assert(ls[i] == evs[i].label && ls[j] == evs[j].label);
            }
        }
        labels
    }

    /// Insert an edge for this label; an existing destination for the same
    /// label is overwritten.
    pub fn insert_edge(&mut self, element: String, node_id: String)
        requires
            old(self).wf(),
        ensures
            final(self).wf(),
            final(self)@ == (NodeView {
                edges: old(self)@.edges.insert(element@, node_id@),
                ..old(self)@
            }),
    {
        let ghost old_evs = edge_views(self.edges@);
        match self.find_edge(&element) {
            Some(i) => {
                let ghost ii = i as int;
                self.edges[i] = Edge { label: element, dest: node_id };
                proof {
                    let e = self.edges@[ii]@;
                    assert(edge_views(self.edges@) =~= old_evs.update(ii, e));
                    lemma_edges_map_of_update(old_evs, ii, e);
                    assert forall|x: int, y: int|
                        0 <= x < y < edge_views(self.edges@).len()
                        implies (#[trigger] edge_views(self.edges@)[x]).label
                            != (#[trigger] edge_views(self.edges@)[y]).label by {
                        assert(old_evs[x].label != old_evs[y].label);
                    }
                }
            },
            None => {
                let ghost e = EdgeView { label: element@, dest: node_id@ };
                self.edges.push(Edge { label: element, dest: node_id });
                proof {
                    assert(edge_views(self.edges@) =~= old_evs.push(e));
                    lemma_edges_map_of_push(old_evs, e);
                    assert forall|x: int, y: int|
                        0 <= x < y < edge_views(self.edges@).len()
                        implies (#[trigger] edge_views(self.edges@)[x]).label
                            != (#[trigger] edge_views(self.edges@)[y]).label by {
                        if y < old_evs.len() {
                            assert(old_evs[x].label != old_evs[y].label);
                        } else {
                            assert(old_evs[x].label != e.label);
                        }
                    }
                }
            },
        }
    }

    /// The destination id for this label, if the node has such an edge.
    pub fn node_for_edge_element(&self, element: &String) -> (r: Option<String>)
        requires
            self.wf(),
        ensures
            match r {
                Some(d) => self@.edges.dom().contains(element@) && d@ == self@.edges[element@],
                None => !self@.edges.dom().contains(element@),
            },
    {
        proof {
            lemma_edges_map_of_dom(edge_views(self.edges@));
        }
        match self.find_edge(element) {
            Some(i) => {
                proof {
                    lemma_edges_map_of_at(edge_views(self.edges@), i as int);
                    assert(has_label(edge_views(self.edges@), element@));
                }
                Some(self.edges[i].dest.clone())
            },
            None => None,
        }
    }

    /// A copy of the node's edge list.
    pub fn edge_list(&self) -> (r: Vec<Edge>)
        requires
            self.wf(),
        ensures
            edge_labels_distinct(edge_views(r@)),
            edges_map_of(edge_views(r@)) == self@.edges,
    {
        let n = self.edges.len();
        let mut r: Vec<Edge> = Vec::new();
        let mut i: usize = 0;
        while i < n
            invariant
                n == self.edges@.len(),
                i <= n,
                r@.len() == i,
                forall|j: int| 0 <= j < i ==> (#[trigger] r@[j])@ == self.edges@[j]@,
            decreases n - i,
        {
            r.push(Edge { label: self.edges[i].label.clone(), dest: self.edges[i].dest.clone() });
            i += 1;
        }
        proof {
            assert(edge_views(r@) =~= edge_views(self.edges@));
        }
        r
    }

    /// A value copy of the node, equal to it in id, element and edges.
    pub fn duplicate(&self) -> (n: Node)
        ensures
            n.wf() == self.wf(),
            n@ == self@,
    {
        let n = Node {
            id: self.id.clone(),
            element: self.element.clone(),
            edges: copy_edges(&self.edges),
        };
        proof {
            assert(edge_views(n.edges@) =~= edge_views(self.edges@));
        }
        n
    }
}

/// A field-for-field copy of an edge list.
fn copy_edges(edges: &Vec<Edge>) -> (r: Vec<Edge>)
    ensures
        r@.len() == edges@.len(),
        forall|j: int| 0 <= j < edges@.len() ==> (#[trigger] r@[j])@ == edges@[j]@,
{
    let n = edges.len();
    let mut r: Vec<Edge> = Vec::new();
    let mut i: usize = 0;
    while i < n
        invariant
            n == edges@.len(),
            i <= n,
            r@.len() == i,
            forall|j: int| 0 <= j < i ==> (#[trigger] r@[j])@ == edges@[j]@,
        decreases n - i,
    {
        r.push(Edge { label: edges[i].label.clone(), dest: edges[i].dest.clone() });
        i += 1;
    }
    r
}

/// `labels` lists each key of `m` exactly once and nothing else.
pub open spec fn is_label_set(labels: Seq<Seq<char>>, m: Map<Seq<char>, Seq<char>>) -> bool {
    &&& forall|i: int| 0 <= i < labels.len() ==> m.dom().contains(#[trigger] labels[i])
    &&& forall|l: Seq<char>| #[trigger] m.dom().contains(l) ==> labels.contains(l)
    &&& forall|i: int, j: int|
        0 <= i < j < labels.len() ==> (#[trigger] labels[i]) != (#[trigger] labels[j])
}

} // verus!
