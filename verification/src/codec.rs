//! The codec: a graph to and from an ordered flat record list.
//!
//! `encode` flattens a graph into one record per node, in the store's
//! insertion order. `decode` rebuilds a graph from such a list: the first
//! record becomes both the root and the cursor, so a rebuilt graph always
//! starts at its root. Decoding validates the list first: it must be
//! nonempty, record ids must be distinct, and every edge destination must
//! name a record.

use vstd::prelude::*;

use crate::errors::DecodeError;
use crate::graph::Graph;
use crate::graph::GraphView;
use crate::node::edge_labels_distinct;
use crate::node::edge_views;
use crate::node::edges_map_of;
use crate::node::lemma_edges_map_of_at;
use crate::node::lemma_edges_map_of_pair;
use crate::node::Edge;
use crate::node::EdgeView;
use crate::node::Node;
use crate::node::NodeView;
use crate::store::has_node_id;
use crate::store::node_views;
use crate::store::NodeStore;

verus! {

/// One persisted node: its id, its element, and its outgoing edges.
pub struct Record {
    pub id: String,
    pub element: String,
    pub edges: Vec<Edge>,
}

/// The mathematical content of a `Record`.
#[verifier::ext_equal]
pub ghost struct RecordView {
    pub id: Seq<char>,
    pub element: Seq<char>,
    pub edges: Seq<EdgeView>,
}

impl View for Record {
    type V = RecordView;

    open spec fn view(&self) -> RecordView {
        RecordView { id: self.id@, element: self.element@, edges: edge_views(self.edges@) }
    }
}

/// The views of a list of records.
pub open spec fn record_views(s: Seq<Record>) -> Seq<RecordView> {
    s.map_values(|r: Record| r@)
}

/// The node a record denotes.
pub open spec fn decoded_node(r: RecordView) -> NodeView {
    NodeView { id: r.id, element: r.element, edges: edges_map_of(r.edges) }
}

/// The nodes a record list denotes, in list order.
pub open spec fn decoded_nodes(rs: Seq<RecordView>) -> Seq<NodeView> {
    rs.map_values(|r: RecordView| decoded_node(r))
}

/// No two records carry the same id.
pub open spec fn rec_ids_distinct(rs: Seq<RecordView>) -> bool {
    forall|i: int, j: int| 0 <= i < j < rs.len() ==> (#[trigger] rs[i]).id != (#[trigger] rs[j]).id
}

/// Some record carries this id.
pub open spec fn rec_has_id(rs: Seq<RecordView>, id: Seq<char>) -> bool {
    exists|i: int| 0 <= i < rs.len() && (#[trigger] rs[i]).id == id
}

/// Every listed edge destination appears among the record ids.
pub open spec fn rec_edges_resolve(rs: Seq<RecordView>) -> bool {
    forall|i: int, k: int|
        0 <= i < rs.len() && 0 <= k < rs[i].edges.len()
            ==> rec_has_id(rs, (#[trigger] rs[i].edges[k]).dest)
}

/// A record list that decodes into a graph: nonempty, with distinct ids
/// and no dangling edge destination.
pub open spec fn decodable(rs: Seq<RecordView>) -> bool {
    &&& rs.len() > 0
    &&& rec_ids_distinct(rs)
    &&& rec_edges_resolve(rs)
}

/// The graph a decodable record list denotes: its nodes in list order,
/// with both root and cursor on the first record's node.
pub open spec fn decoded_graph(rs: Seq<RecordView>) -> GraphView {
    GraphView { nodes: decoded_nodes(rs), root: rs[0].id, current: rs[0].id }
}

/// `rs` flattens `g`'s nodes faithfully and in order: record by record,
/// the same id, the same element, and an edge list that denotes the same
/// mapping without repeating a label.
pub open spec fn encodes(g: GraphView, rs: Seq<RecordView>) -> bool {
    &&& rs.len() == g.nodes.len()
    &&& forall|i: int|
        0 <= i < rs.len() ==> {
            &&& (#[trigger] rs[i]).id == g.nodes[i].id
            &&& rs[i].element == g.nodes[i].element
            &&& edges_map_of(rs[i].edges) == g.nodes[i].edges
            &&& edge_labels_distinct(rs[i].edges)
        }
}

/// Flatten a graph into one record per node, in insertion order.
pub fn encode(graph: &Graph) -> (records: Vec<Record>)
    requires
        graph.wf(),
    ensures
        encodes(graph@, record_views(records@)),
{
    let nodes = graph.nodes();
    let n = nodes.len();
    let mut records: Vec<Record> = Vec::new();
    let mut i: usize = 0;
    while i < n
        invariant
            n == nodes@.len(),
            node_views(nodes@) == graph@.nodes,
            forall|j: int| 0 <= j < n ==> (#[trigger] nodes@[j]).wf(),
            i <= n,
            records@.len() == i,
            forall|j: int|
                0 <= j < i ==> {
                    &&& (#[trigger] records@[j])@.id == graph@.nodes[j].id
                    &&& records@[j]@.element == graph@.nodes[j].element
                    &&& edges_map_of(records@[j]@.edges) == graph@.nodes[j].edges
                    &&& edge_labels_distinct(records@[j]@.edges)
                },
        decreases n - i,
    {
        let node = &nodes[i];
        let rec = Record {
            id: node.id().clone(),
            element: node.element().clone(),
            edges: node.edge_list(),
        };
        records.push(rec);
        i += 1;
    }
    proof {
        let rs = record_views(records@);
        assert forall|j: int| 0 <= j < rs.len() implies {
            &&& (#[trigger] rs[j]).id == graph@.nodes[j].id
            &&& rs[j].element == graph@.nodes[j].element
            &&& edges_map_of(rs[j].edges) == graph@.nodes[j].edges
            &&& edge_labels_distinct(rs[j].edges)
        } by {
            assert(rs[j] == records@[j]@);
        }
    }
    records
}

/// Whether some record carries this id.
fn records_have_id(records: &Vec<Record>, id: &String) -> (r: bool)
    ensures
        r == rec_has_id(record_views(records@), id@),
{
    let n = records.len();
    let mut i: usize = 0;
    while i < n
        invariant
            n == records@.len(),
            i <= n,
            forall|j: int| 0 <= j < i ==> (#[trigger] record_views(records@)[j]).id != id@,
        decreases n - i,
    {
        if records[i].id == *id {
            proof {
                assert(record_views(records@)[i as int].id == id@);
            }
            return true;
        }
        i += 1;
    }
    false
}

/// Rebuild a graph from a flat record list. The first record becomes both
/// root and cursor. Fails on an empty list, on two records with the same
/// id, and on an edge destination that no record carries.
pub fn decode(records: Vec<Record>) -> (r: Result<Graph, DecodeError>)
    ensures
        match r {
            Ok(g) => {
                &&& decodable(record_views(records@))
                &&& g.wf()
                &&& g@.wf()
                &&& g@ == decoded_graph(record_views(records@))
            },
            Err(e) => match e {
                DecodeError::Empty => records@.len() == 0,
                DecodeError::DuplicateId => records@.len() > 0 && !rec_ids_distinct(
                    record_views(records@),
                ),
                DecodeError::DanglingEdge => records@.len() > 0 && rec_ids_distinct(
                    record_views(records@),
                ) && !rec_edges_resolve(record_views(records@)),
            },
        },
{
    let ghost rs = record_views(records@);
    let n = records.len();
    if n == 0 {
        return Err(DecodeError::Empty);
    }
    let mut i: usize = 0;
    while i < n
        invariant
            n == records@.len(),
            rs == record_views(records@),
            i <= n,
            forall|x: int, y: int|
                0 <= x < i && x < y < rs.len() ==> (#[trigger] rs[x]).id != (#[trigger] rs[y]).id,
        decreases n - i,
    {
        let mut j: usize = i + 1;
        while j < n
            invariant
                n == records@.len(),
                rs == record_views(records@),
                i < n,
                i < j <= n,
                forall|x: int, y: int|
                    0 <= x < i && x < y < rs.len() ==> (#[trigger] rs[x]).id != (#[trigger] rs[y]).id,
                forall|y: int| i < y < j ==> rs[i as int].id != (#[trigger] rs[y]).id,
            decreases n - j,
        {
            if records[i].id == records[j].id {
                proof {
                    assert(rs[i as int].id == rs[j as int].id);
                }
                return Err(DecodeError::DuplicateId);
            }
            j += 1;
        }
        i += 1;
    }
    proof {
        assert(rec_ids_distinct(rs));
    }
    let mut i: usize = 0;
    while i < n
        invariant
            n == records@.len(),
            rs == record_views(records@),
            rec_ids_distinct(rs),
            i <= n,
            forall|x: int, k: int|
                0 <= x < i && 0 <= k < rs[x].edges.len()
                    ==> rec_has_id(rs, (#[trigger] rs[x].edges[k]).dest),
        decreases n - i,
    {
        let m = records[i].edges.len();
        let mut k: usize = 0;
        while k < m
            invariant
                n == records@.len(),
                rs == record_views(records@),
                rec_ids_distinct(rs),
                i < n,
                m == records@[i as int].edges@.len(),
                k <= m,
                forall|x: int, kk: int|
                    0 <= x < i && 0 <= kk < rs[x].edges.len()
                        ==> rec_has_id(rs, (#[trigger] rs[x].edges[kk]).dest),
                forall|kk: int|
                    0 <= kk < k ==> rec_has_id(rs, (#[trigger] rs[i as int].edges[kk]).dest),
            decreases m - k,
        {
            if !records_have_id(&records, &records[i].edges[k].dest) {
                proof {
                    assert(rs[i as int].edges[k as int].dest == records@[i as int].edges@[k as int].dest@);
                    assert(!rec_edges_resolve(rs));
                }
                return Err(DecodeError::DanglingEdge);
            }
            k += 1;
        }
        i += 1;
    }
    proof {
        assert(rec_edges_resolve(rs));
    }
    let root_id = records[0].id.clone();
    let mut store = NodeStore::new();
    let mut i: usize = 0;
    while i < n
        invariant
            n == records@.len(),
            rs == record_views(records@),
            rec_ids_distinct(rs),
            store.wf(),
            i <= n,
            store@.len() == i,
            forall|j: int| 0 <= j < i ==> store@[j] == decoded_node(#[trigger] rs[j]),
        decreases n - i,
    {
        let rec = &records[i];
        let mut node = Node::with_id(rec.id.clone(), rec.element.clone());
        let m = rec.edges.len();
        let mut k: usize = 0;
        proof {
            assert(edge_views(rec.edges@).take(0) =~= Seq::<EdgeView>::empty());
        }
        while k < m
            invariant
                m == rec.edges@.len(),
                k <= m,
                node.wf(),
                node@.id == rec@.id,
                node@.element == rec@.element,
                node@.edges == edges_map_of(edge_views(rec.edges@).take(k as int)),
            decreases m - k,
        {
            node.insert_edge(rec.edges[k].label.clone(), rec.edges[k].dest.clone());
            proof {
                let evs = edge_views(rec.edges@);
                assert(evs.take(k as int + 1).drop_last() =~= evs.take(k as int));
                assert(evs.take(k as int + 1).last() == evs[k as int]);
            }
            k += 1;
        }
        proof {
            assert(edge_views(rec.edges@).take(m as int) =~= edge_views(rec.edges@));
            assert(node@ =~= decoded_node(rs[i as int]));
            assert(!has_node_id(store@, node@.id)) by {
                if has_node_id(store@, node@.id) {
                    let w = choose|w: int|
                        0 <= w < store@.len() && (#[trigger] store@[w]).id == node@.id;
                    assert(store@[w] == decoded_node(rs[w]));
                    assert(rs[w].id == rs[i as int].id);
                }
            }
        }
        store.insert(node);
        i += 1;
    }
    let current_id = root_id.clone();
    let ghost gv = GraphView { nodes: store@, root: root_id@, current: current_id@ };
    proof {
        assert(store@ =~= decoded_nodes(rs));
        assert(gv =~= decoded_graph(rs));
        lemma_decoded_graph_wf(rs);
    }
    let g = Graph::from_parts(store, root_id, current_id);
    Ok(g)
}

/// The ids of the decoded nodes are exactly the record ids.
proof fn lemma_decoded_has_id(rs: Seq<RecordView>)
    ensures
        forall|x: Seq<char>|
            #![trigger rec_has_id(rs, x)]
            #![trigger has_node_id(decoded_nodes(rs), x)]
            rec_has_id(rs, x) <==> has_node_id(decoded_nodes(rs), x),
{
    let dn = decoded_nodes(rs);
    assert forall|x: Seq<char>| rec_has_id(rs, x) implies has_node_id(dn, x) by {
        let w = choose|w: int| 0 <= w < rs.len() && (#[trigger] rs[w]).id == x;
        assert(dn[w].id == x);
    }
    assert forall|x: Seq<char>| has_node_id(dn, x) implies rec_has_id(rs, x) by {
        let w = choose|w: int| 0 <= w < dn.len() && (#[trigger] dn[w]).id == x;
        assert(rs[w].id == x);
    }
}

/// A decodable record list denotes a well-formed graph.
pub proof fn lemma_decoded_graph_wf(rs: Seq<RecordView>)
    requires
        decodable(rs),
    ensures
        decoded_graph(rs).wf(),
{
    let g = decoded_graph(rs);
    let dn = decoded_nodes(rs);
    lemma_decoded_has_id(rs);
    assert(dn[0].id == rs[0].id);
    assert forall|i: int, j: int| 0 <= i < j < dn.len() implies dn[i].id != dn[j].id by {
        assert(rs[i].id != rs[j].id);
    }
    assert(has_node_id(dn, g.current)) by {
        assert(rec_has_id(rs, rs[0].id));
    }
    assert forall|i: int, l: Seq<char>|
        0 <= i < dn.len() && (#[trigger] dn[i].edges.dom().contains(l))
        implies has_node_id(dn, dn[i].edges[l]) by {
        assert(dn[i].edges == edges_map_of(rs[i].edges));
        lemma_edges_map_of_pair(rs[i].edges, l);
        let k = choose|k: int|
            0 <= k < rs[i].edges.len() && (#[trigger] rs[i].edges[k]).label == l
                && rs[i].edges[k].dest == edges_map_of(rs[i].edges)[l];
        assert(rec_has_id(rs, rs[i].edges[k].dest));
    }
}

/// Decoding an encoding of a graph succeeds and rebuilds the same nodes,
/// with the same ids, elements and edge mappings, in the same order; both
/// the root and the cursor of the rebuilt graph stand on the encoded
/// graph's root, wherever its cursor stood.
pub proof fn lemma_encode_decode_round_trip(g: GraphView, rs: Seq<RecordView>)
    requires
        g.wf(),
        encodes(g, rs),
    ensures
        decodable(rs),
        decoded_graph(rs) == (GraphView { current: g.root, ..g }),
{
    assert(rs.len() > 0);
    assert forall|i: int, j: int| 0 <= i < j < rs.len()
        implies (#[trigger] rs[i]).id != (#[trigger] rs[j]).id by {
        assert(g.nodes[i].id != g.nodes[j].id);
    }
    assert forall|i: int, k: int| 0 <= i < rs.len() && 0 <= k < rs[i].edges.len()
        implies rec_has_id(rs, (#[trigger] rs[i].edges[k]).dest) by {
        lemma_edges_map_of_at(rs[i].edges, k);
        let l = rs[i].edges[k].label;
        let d = rs[i].edges[k].dest;
        assert(g.nodes[i].edges.dom().contains(l));
        assert(g.nodes[i].edges[l] == d);
        assert(has_node_id(g.nodes, d));
        let w = choose|w: int| 0 <= w < g.nodes.len() && (#[trigger] g.nodes[w]).id == d;
        assert(rs[w].id == d);
        assert(rec_has_id(rs, d));
    }
    assert(decoded_nodes(rs) =~= g.nodes) by {
        assert forall|i: int| 0 <= i < rs.len() implies decoded_nodes(rs)[i] == g.nodes[i] by {
            assert(decoded_node(rs[i]) =~= g.nodes[i]);
        }
    }
    assert(rs[0].id == g.nodes[0].id);
    assert(decoded_graph(rs) =~= (GraphView { current: g.root, ..g }));
}

} // verus!
