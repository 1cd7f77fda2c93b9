//! The dataflow graph: nodes with unique ids, and connections between their
//! ports that never form a cycle.
use vstd::prelude::*;
use crate::error::CircuitError;
use crate::schedule::{acyclic, edges_within, is_closed, is_ranking, is_topological, reaches, schedule, schedule_nodes};
use crate::value::ValueMap;

verus! {

/// Identifier of a node within its graph.
pub type NodeId = String;

/// An instance of a block type within a graph, with its static configuration.
#[derive(Debug)]
pub struct Node {
    pub id: NodeId,
    /// Registry key of the block that runs this node.
    pub block_type: String,
    pub config: ValueMap,
    /// Display coordinates, as the bit patterns of two IEEE-754 binary64
    /// numbers; execution never reads them.
    pub position: Option<(u64, u64)>,
}

/// A directed edge from an output port of one node to an input port of another.
#[derive(Debug)]
pub struct Connection {
    pub from_node: NodeId,
    pub from_port: String,
    pub to_node: NodeId,
    pub to_port: String,
}

impl Clone for Connection {
    fn clone(&self) -> (r: Self)
        ensures
            r == *self,
    {
        Connection {
            from_node: self.from_node.clone(),
            from_port: self.from_port.clone(),
            to_node: self.to_node.clone(),
            to_port: self.to_port.clone(),
        }
    }
}

/// The ids of a sequence of nodes.
pub open spec fn ids_of(nodes: Seq<Node>) -> Seq<Seq<char>> {
    nodes.map_values(|n: Node| n.id@)
}

/// Every connection starts and ends at one of `ids`.
pub open spec fn endpoints_within(ids: Seq<Seq<char>>, conns: Seq<Connection>) -> bool {
    forall|j: int|
        0 <= j < conns.len() ==> ids.contains((#[trigger] conns[j]).from_node@) && ids.contains(
            conns[j].to_node@,
        )
}

/// `order` lists each id of `ids` exactly once, and every connection goes
/// forward in it.
pub open spec fn is_id_order(ids: Seq<Seq<char>>, conns: Seq<Connection>, order: Seq<Seq<char>>) -> bool {
    &&& order.len() == ids.len()
    &&& order.no_duplicates()
    &&& forall|i: int| 0 <= i < ids.len() ==> order.contains(#[trigger] ids[i])
    &&& forall|k: int| 0 <= k < order.len() ==> ids.contains(#[trigger] order[k])
    &&& forall|j: int, p: int, q: int|
        #![trigger conns[j], order[p], order[q]]
        0 <= j < conns.len() && 0 <= p < order.len() && 0 <= q < order.len() && order[p]
            == conns[j].from_node@ && order[q] == conns[j].to_node@ ==> p < q
}

/// `rank` strictly increases along every connection.
pub open spec fn ranks(conns: Seq<Connection>, rank: spec_fn(Seq<char>) -> int) -> bool {
    forall|j: int| 0 <= j < conns.len() ==> rank((#[trigger] conns[j]).from_node@) < rank(conns[j].to_node@)
}

/// The connections, read as edges between node ids, form no cycle: some
/// ranking of the ids increases along every connection.
pub open spec fn is_dag(conns: Seq<Connection>) -> bool {
    exists|rank: spec_fn(Seq<char>) -> int| ranks(conns, rank)
}

/// Index of `x` among `ids`.
pub open spec fn index_in(ids: Seq<Seq<char>>, x: Seq<char>) -> usize {
    choose|i: usize| i < ids.len() && ids[i as int] == x
}

/// The connections as edges between node indices.
pub open spec fn edges_of(ids: Seq<Seq<char>>, conns: Seq<Connection>) -> Seq<(usize, usize)> {
    conns.map_values(|c: Connection| (index_in(ids, c.from_node@), index_in(ids, c.to_node@)))
}

/// The ids at the given indices.
pub open spec fn ids_at(ids: Seq<Seq<char>>, order: Seq<usize>) -> Seq<Seq<char>> {
    order.map_values(|k: usize| ids[k as int])
}

/// Holds of a connection that neither starts nor ends at `x`.
pub open spec fn keeps_clear_of(x: Seq<char>) -> spec_fn(Connection) -> bool {
    |c: Connection| c.from_node@ != x && c.to_node@ != x
}

/// In ids without repeats, `index_in` gives the one position of `x`.
pub proof fn lemma_index_in(ids: Seq<Seq<char>>, x: Seq<char>)
    requires
        ids.no_duplicates(),
        ids.contains(x),
        ids.len() <= usize::MAX,
    ensures
        index_in(ids, x) < ids.len(),
        ids[index_in(ids, x) as int] == x,
        forall|i: int| 0 <= i < ids.len() && ids[i] == x ==> i == index_in(ids, x),
{
    let i = choose|i: int| 0 <= i < ids.len() && ids[i] == x;
    assert(ids[(i as usize) as int] == x);
}

/// A topological order of the node indices names the ids in an order where
/// every connection goes forward.
pub proof fn lemma_index_order_to_ids(ids: Seq<Seq<char>>, conns: Seq<Connection>, order: Seq<usize>)
    requires
        ids.no_duplicates(),
        ids.len() <= usize::MAX,
        endpoints_within(ids, conns),
        is_topological(ids.len(), edges_of(ids, conns), order),
    ensures
        is_id_order(ids, conns, ids_at(ids, order)),
{
    let o = ids_at(ids, order);
    let es = edges_of(ids, conns);
    assert forall|a: int, b: int| 0 <= a < b < o.len() implies o[a] != o[b] by {
        assert(order[a] != order[b]);
    }
    assert forall|i: int| 0 <= i < ids.len() implies o.contains(#[trigger] ids[i]) by {
        assert(order.contains(i as usize));
        let p = choose|p: int| 0 <= p < order.len() && order[p] == i as usize;
        assert(o[p] == ids[i]);
    }
    assert forall|k: int| 0 <= k < o.len() implies ids.contains(#[trigger] o[k]) by {
        assert(o[k] == ids[order[k] as int]);
    }
    assert forall|j: int, p: int, q: int|
        #![trigger conns[j], o[p], o[q]]
        0 <= j < conns.len() && 0 <= p < o.len() && 0 <= q < o.len() && o[p] == conns[j].from_node@
            && o[q] == conns[j].to_node@ implies p < q by {
        let c = conns[j];
        lemma_index_in(ids, c.from_node@);
        lemma_index_in(ids, c.to_node@);
        assert(order[p] == es[j].0);
        assert(order[q] == es[j].1);
    }
}

/// A ranking of the ids gives a ranking of the node indices.
pub proof fn lemma_dag_to_indices(ids: Seq<Seq<char>>, conns: Seq<Connection>)
    requires
        ids.no_duplicates(),
        ids.len() <= usize::MAX,
        endpoints_within(ids, conns),
        is_dag(conns),
    ensures
        acyclic(edges_of(ids, conns)),
{
    let rank = choose|rank: spec_fn(Seq<char>) -> int| ranks(conns, rank);
    let index_rank = |i: usize| rank(ids[i as int]);
    let es = edges_of(ids, conns);
    assert forall|j: int| 0 <= j < es.len() implies index_rank((#[trigger] es[j]).0) < index_rank(es[j].1) by {
        let c = conns[j];
        lemma_index_in(ids, c.from_node@);
        lemma_index_in(ids, c.to_node@);
    }
    assert(is_ranking(es, index_rank));
}

/// A directed graph of nodes and connections without cycles.
#[derive(Debug)]
pub struct Graph {
    id: String,
    name: String,
    description: Option<String>,
    nodes: Vec<Node>,
    connections: Vec<Connection>,
}

impl Graph {
    /// Node ids are unique, every connection joins two nodes of the graph, and
    /// the connections form no cycle.
    #[verifier::type_invariant]
    pub closed spec fn well_formed(&self) -> bool {
        &&& self.nodes@.len() <= usize::MAX
        &&& ids_of(self.nodes@).no_duplicates()
        &&& endpoints_within(ids_of(self.nodes@), self.connections@)
        &&& is_dag(self.connections@)
    }

    /// The graph's id, name and description.
    pub closed spec fn header(&self) -> (String, String, Option<String>) {
        (self.id, self.name, self.description)
    }

    /// The nodes, in the order in which they were added.
    pub closed spec fn node_seq(&self) -> Seq<Node> {
        self.nodes@
    }

    /// The connections, in the order in which they were added.
    pub closed spec fn connection_seq(&self) -> Seq<Connection> {
        self.connections@
    }

    /// The node ids, in the order in which the nodes were added.
    pub open spec fn node_ids(&self) -> Seq<Seq<char>> {
        ids_of(self.node_seq())
    }

    /// Facts that every graph satisfies.
    pub proof fn lemma_well_formed(&self)
        requires
            self.well_formed(),
        ensures
            self.node_ids().no_duplicates(),
            self.node_ids().len() <= usize::MAX,
            endpoints_within(self.node_ids(), self.connection_seq()),
            is_dag(self.connection_seq()),
    {
    }

    /// An empty graph.
    pub fn new(id: String, name: String) -> (g: Graph)
        ensures
            g.header() == (id, name, None::<String>),
            g.node_seq() == Seq::<Node>::empty(),
            g.connection_seq() == Seq::<Connection>::empty(),
    {
        let nodes: Vec<Node> = Vec::new();
        let connections: Vec<Connection> = Vec::new();
        proof {
            assert(ids_of(nodes@) =~= Seq::<Seq<char>>::empty());
            let rank = |s: Seq<char>| 0int;
            assert(ranks(connections@, rank));
        }
        Graph { id, name, description: None, nodes, connections }
    }

    pub fn id(&self) -> (r: &String)
        ensures
            *r == self.header().0,
    {
        &self.id
    }

    pub fn name(&self) -> (r: &String)
        ensures
            *r == self.header().1,
    {
        &self.name
    }

    pub fn description(&self) -> (r: &Option<String>)
        ensures
            *r == self.header().2,
    {
        &self.description
    }

    /// Sets the human-readable description.
    pub fn set_description(&mut self, description: Option<String>)
        ensures
            final(self).header() == (old(self).header().0, old(self).header().1, description),
            final(self).node_seq() == old(self).node_seq(),
            final(self).connection_seq() == old(self).connection_seq(),
    {
        proof { use_type_invariant(&*self); }
        self.description = description;
    }

    /// Takes the graph out of `self`, leaving an empty one in its place.
    fn take(&mut self) -> (g: Graph)
        ensures
            g == *old(self),
    {
        let mut g = Graph::new(String::new(), String::new());
        std::mem::swap(self, &mut g);
        g
    }

    pub fn nodes(&self) -> (r: &Vec<Node>)
        ensures
            r@ == self.node_seq(),
    {
        &self.nodes
    }

    pub fn connections(&self) -> (r: &Vec<Connection>)
        ensures
            r@ == self.connection_seq(),
    {
        &self.connections
    }

    /// Index of the node with id `node_id`.
    fn node_index(&self, node_id: &String) -> (r: Option<usize>)
        ensures
            match r {
                Some(i) => i < self.node_seq().len() && self.node_seq()[i as int].id@ == node_id@
                    && i == index_in(self.node_ids(), node_id@),
                None => !self.node_ids().contains(node_id@),
            },
    {
        proof { use_type_invariant(self); }
        let mut i: usize = 0;
        while i < self.nodes.len()
            invariant
                ids_of(self.nodes@).no_duplicates(),
                i <= self.nodes@.len(),
                forall|j: int| 0 <= j < i ==> self.nodes@[j].id@ != node_id@,
            decreases self.nodes@.len() - i,
        {
            if self.nodes[i].id == *node_id {
                proof {
                    assert(self.node_ids()[i as int] == node_id@);
                    lemma_index_in(self.node_ids(), node_id@);
                }
                return Some(i);
            }
            i = i + 1;
        }
        proof {
            if self.node_ids().contains(node_id@) {
                let j = choose|j: int| 0 <= j < self.node_ids().len() && self.node_ids()[j] == node_id@;
                assert(self.nodes@[j].id@ == node_id@);
            }
        }
        None
    }

    /// The node with id `node_id`, if there is one.
    pub fn get_node(&self, node_id: &str) -> (r: Option<&Node>)
        ensures
            match r {
                Some(n) => self.node_ids().contains(node_id@) && *n == self.node_seq()[index_in(
                    self.node_ids(),
                    node_id@,
                ) as int],
                None => !self.node_ids().contains(node_id@),
            },
    {
        let key = node_id.to_owned();
        match self.node_index(&key) {
            Some(i) => {
                proof { assert(self.node_ids()[i as int] == node_id@); }
                Some(&self.nodes[i])
            },
            None => None,
        }
    }

    /// Adds `node`; fails when a node with its id is already present.
    pub fn add_node(&mut self, node: Node) -> (r: Result<(), CircuitError>)
        ensures
            final(self).header() == old(self).header(),
            final(self).connection_seq() == old(self).connection_seq(),
            old(self).node_ids().contains(node.id@) ==> r == Err::<(), CircuitError>(
                CircuitError::DuplicateNode(node.id),
            ) && final(self).node_seq() == old(self).node_seq(),
            !old(self).node_ids().contains(node.id@) ==> r is Ok && final(self).node_seq()
                == old(self).node_seq().push(node),
    {
        proof { use_type_invariant(&*self); }
        if let Some(i) = self.node_index(&node.id) {
            proof { assert(self.node_ids()[i as int] == node.id@); }
            return Err(CircuitError::DuplicateNode(node.id));
        }
        let ghost ids0 = self.node_ids();
        let ghost conns = self.connections@;
        let ghost x = node.id@;
        proof {
            let ids1 = ids0.push(x);
            assert forall|a: int, b: int| 0 <= a < b < ids1.len() implies ids1[a] != ids1[b] by {
                if b == ids1.len() - 1 {
                    assert(ids0.contains(ids0[a]));
                }
            }
            assert forall|j: int| 0 <= j < conns.len() implies ids1.contains((#[trigger] conns[j]).from_node@)
                && ids1.contains(conns[j].to_node@) by {
                let a = choose|a: int| 0 <= a < ids0.len() && ids0[a] == conns[j].from_node@;
                let b = choose|b: int| 0 <= b < ids0.len() && ids0[b] == conns[j].to_node@;
                assert(ids1[a] == ids0[a]);
                assert(ids1[b] == ids0[b]);
            }
        }
        let g = self.take();
        let Graph { id, name, description, mut nodes, connections } = g;
        nodes.push(node);
        proof {
            assert(ids_of(nodes@) =~= ids0.push(x));
            assert(nodes@.len() == nodes.len());
        }
        *self = Graph { id, name, description, nodes, connections };
        Ok(())
    }

    /// The connections as edges between node indices.
    fn edge_indices(&self) -> (r: Vec<(usize, usize)>)
        ensures
            r@ == edges_of(self.node_ids(), self.connection_seq()),
            edges_within(self.node_ids().len(), r@),
    {
        proof { use_type_invariant(self); }
        let ghost ids = self.node_ids();
        let ghost conns = self.connection_seq();
        let mut r: Vec<(usize, usize)> = Vec::new();
        let mut j: usize = 0;
        while j < self.connections.len()
            invariant
                ids == self.node_ids(),
                conns == self.connection_seq(),
                ids.no_duplicates(),
                endpoints_within(ids, conns),
                j <= conns.len(),
                r@.len() == j,
                forall|k: int| 0 <= k < j ==> #[trigger] r@[k] == edges_of(ids, conns)[k],
                edges_within(ids.len(), r@),
            decreases conns.len() - j,
        {
            let c = &self.connections[j];
            let a = self.node_index(&c.from_node);
            let b = self.node_index(&c.to_node);
            match (a, b) {
                (Some(a), Some(b)) => {
                    r.push((a, b));
                },
                _ => {
                    proof { assert(false); }
                },
            }
            j = j + 1;
        }
        assert(r@ =~= edges_of(ids, conns));
        r
    }

    /// `after` and `r` are what adding `connection` to `before` gives: the
    /// connection is refused when an endpoint is missing or when it would
    /// close a cycle, and a refused connection changes nothing.
    pub open spec fn connects(before: Graph, after: Graph, connection: Connection, r: Result<(), CircuitError>) -> bool {
        &&& after.header() == before.header()
        &&& after.node_seq() == before.node_seq()
        &&& !before.node_ids().contains(connection.from_node@) ==> r == Err::<(), CircuitError>(
            CircuitError::NodeNotFound(connection.from_node),
        )
        &&& before.node_ids().contains(connection.from_node@) && !before.node_ids().contains(
            connection.to_node@,
        ) ==> r == Err::<(), CircuitError>(CircuitError::NodeNotFound(connection.to_node))
        &&& before.node_ids().contains(connection.from_node@) && before.node_ids().contains(
            connection.to_node@,
        ) ==> if is_dag(before.connection_seq().push(connection)) {
            r is Ok
        } else {
            r == Err::<(), CircuitError>(CircuitError::CycleDetected)
        }
        &&& r is Ok ==> after.connection_seq() == before.connection_seq().push(connection)
        &&& r is Err ==> after.connection_seq() == before.connection_seq()
    }

    /// `after` and `r` are what removing the node `node_id` from `before`
    /// gives: the node goes, with every connection that starts or ends at it.
    pub open spec fn removes(before: Graph, after: Graph, node_id: Seq<char>, r: Result<(), CircuitError>) -> bool {
        &&& after.header() == before.header()
        &&& !before.node_ids().contains(node_id) ==> after.node_seq() == before.node_seq()
            && after.connection_seq() == before.connection_seq() && (match r {
            Err(CircuitError::NodeNotFound(s)) => s@ == node_id,
            _ => false,
        })
        &&& before.node_ids().contains(node_id) ==> r is Ok && after.node_seq()
            == before.node_seq().remove(index_in(before.node_ids(), node_id) as int)
            && after.connection_seq() == before.connection_seq().filter(keeps_clear_of(node_id))
    }

    /// Adds `connection` unless an endpoint is missing or it would close a cycle;
    /// a refused connection leaves the graph unchanged.
    pub fn add_connection(&mut self, connection: Connection) -> (r: Result<(), CircuitError>)
        ensures
            Graph::connects(*old(self), *final(self), connection, r),
    {
        proof { use_type_invariant(&*self); }
        let a = match self.node_index(&connection.from_node) {
            Some(i) => {
                proof { assert(self.node_ids()[i as int] == connection.from_node@); }
                i
            },
            None => {
                return Err(CircuitError::NodeNotFound(connection.from_node));
            },
        };
        let b = match self.node_index(&connection.to_node) {
            Some(i) => {
                proof { assert(self.node_ids()[i as int] == connection.to_node@); }
                i
            },
            None => {
                return Err(CircuitError::NodeNotFound(connection.to_node));
            },
        };
        let ghost ids = self.node_ids();
        let ghost conns = self.connection_seq();
        let ghost all = conns.push(connection);
        let ghost u = connection.from_node@;
        let ghost v = connection.to_node@;
        let edges = self.edge_indices();
        // the connection closes a cycle exactly when its source can be
        // reached from its target
        let closes = a == b || reaches(self.nodes.len(), &edges, b, a);
        proof {
            assert(all[conns.len() as int] == connection);
            if closes {
                if is_dag(all) {
                    let rank = choose|rank: spec_fn(Seq<char>) -> int| ranks(all, rank);
                    assert(rank(u) < rank(v)) by {
                        assert(all[conns.len() as int] == connection);
                    }
                    if a != b {
                        let index_rank = |i: usize| rank(ids[i as int]);
                        assert forall|j: int| 0 <= j < edges@.len() implies index_rank((#[trigger] edges@[j]).0)
                            < index_rank(edges@[j].1) by {
                            let c = conns[j];
                            assert(all[j] == c);
                            lemma_index_in(ids, c.from_node@);
                            lemma_index_in(ids, c.to_node@);
                        }
                        assert(is_ranking(edges@, index_rank));
                        assert(index_rank(b) <= index_rank(a));
                    }
                }
            } else {
                let marked = choose|marked: Seq<bool>|
                    marked.len() == ids.len() && marked[b as int] && !marked[a as int] && is_closed(edges@, marked);
                let rank = choose|rank: spec_fn(Seq<char>) -> int| ranks(conns, rank);
                let lift: int = if rank(u) - rank(v) + 1 > 0 { rank(u) - rank(v) + 1 } else { 0 };
                let reached = |s: Seq<char>| ids.contains(s) && marked[index_in(ids, s) as int];
                let new_rank = |s: Seq<char>| if reached(s) { rank(s) + lift } else { rank(s) };
                lemma_index_in(ids, u);
                lemma_index_in(ids, v);
                assert forall|j: int| 0 <= j < all.len() implies new_rank((#[trigger] all[j]).from_node@)
                    < new_rank(all[j].to_node@) by {
                    if j < conns.len() {
                        let c = conns[j];
                        assert(all[j] == c);
                        lemma_index_in(ids, c.from_node@);
                        lemma_index_in(ids, c.to_node@);
                        assert(edges@[j] == (index_in(ids, c.from_node@), index_in(ids, c.to_node@)));
                        assert(rank(c.from_node@) < rank(c.to_node@));
                    } else {
                        assert(all[j] == connection);
                    }
                }
                assert(ranks(all, new_rank));
            }
        }
        if closes {
            return Err(CircuitError::CycleDetected);
        }
        proof {
            assert forall|j: int| 0 <= j < all.len() implies ids.contains((#[trigger] all[j]).from_node@)
                && ids.contains(all[j].to_node@) by {
                if j < conns.len() {
                    assert(all[j] == conns[j]);
                }
            }
        }
        let g = self.take();
        let Graph { id, name, description, nodes, mut connections } = g;
        connections.push(connection);
        *self = Graph { id, name, description, nodes, connections };
        Ok(())
    }

    /// Removes the node with id `node_id` and every connection that starts or
    /// ends at it.
    pub fn remove_node(&mut self, node_id: &str) -> (r: Result<(), CircuitError>)
        ensures
            Graph::removes(*old(self), *final(self), node_id@, r),
    {
        proof { use_type_invariant(&*self); }
        let key = node_id.to_owned();
        let k = match self.node_index(&key) {
            Some(k) => k,
            None => {
                return Err(CircuitError::NodeNotFound(key));
            },
        };
        let ghost x = node_id@;
        let ghost ids0 = self.node_ids();
        let ghost conns0 = self.connections@;
        let ghost keep = keeps_clear_of(x);
        let mut kept: Vec<Connection> = Vec::new();
        let mut j: usize = 0;
        while j < self.connections.len()
            invariant
                conns0 == self.connections@,
                keep == keeps_clear_of(x),
                key@ == x,
                j <= conns0.len(),
                kept@ == conns0.take(j as int).filter(keep),
            decreases conns0.len() - j,
        {
            let c = &self.connections[j];
            proof {
                assert(conns0.take(j as int + 1) == conns0.take(j as int).push(conns0[j as int]));
                conns0.take(j as int).lemma_filter_push(conns0[j as int], keep);
            }
            if c.from_node != key && c.to_node != key {
                kept.push(c.clone());
            }
            j = j + 1;
        }
        proof {
            assert(conns0.take(j as int) =~= conns0);
        }
        let g = self.take();
        let Graph { id, name, description, mut nodes, connections } = g;
        nodes.remove(k);
        proof {
            assert(ids0[k as int] == x);
            lemma_remove_keeps_dag(ids0, conns0, k as int, kept@);
            assert(ids_of(nodes@) =~= ids0.remove(k as int));
        }
        *self = Graph { id, name, description, nodes, connections: kept };
        Ok(())
    }

    /// The connections that end at node `node_id`, in the order they were added.
    pub fn get_incoming_connections(&self, node_id: &str) -> (r: Vec<&Connection>)
        ensures
            r@.map_values(|c: &Connection| *c) == self.connection_seq().filter(
                |c: Connection| c.to_node@ == node_id@,
            ),
    {
        let key = node_id.to_owned();
        let ghost pred = |c: Connection| c.to_node@ == node_id@;
        let ghost conns = self.connections@;
        let mut r: Vec<&Connection> = Vec::new();
        let mut j: usize = 0;
        while j < self.connections.len()
            invariant
                conns == self.connections@,
                pred == (|c: Connection| c.to_node@ == node_id@),
                key@ == node_id@,
                j <= conns.len(),
                r@.map_values(|c: &Connection| *c) == conns.take(j as int).filter(pred),
            decreases conns.len() - j,
        {
            let c = &self.connections[j];
            proof {
                assert(conns.take(j as int + 1) == conns.take(j as int).push(conns[j as int]));
                conns.take(j as int).lemma_filter_push(conns[j as int], pred);
            }
            if c.to_node == key {
                let ghost before = r@;
                r.push(c);
                assert(r@.map_values(|c: &Connection| *c) =~= before.map_values(|c: &Connection| *c).push(*c));
            }
            j = j + 1;
        }
        proof {
            assert(conns.take(j as int) =~= conns);
        }
        r
    }

    /// The node ids in an order where every connection goes forward; among
    /// the nodes whose predecessors have all been listed, the one added first
    /// comes first.
    pub fn topological_sort(&self) -> (r: Result<Vec<NodeId>, CircuitError>)
        ensures
            r is Ok,
            r is Ok ==> is_id_order(self.node_ids(), self.connection_seq(), r.unwrap()@.map_values(|s: String| s@)),
            r is Ok ==> r.unwrap()@.map_values(|s: String| s@) == ids_at(
                self.node_ids(),
                schedule(self.node_ids().len(), edges_of(self.node_ids(), self.connection_seq())),
            ),
    {
        proof { use_type_invariant(self); }
        let ghost ids = self.node_ids();
        let ghost conns = self.connections@;
        let edges = self.edge_indices();
        let order = schedule_nodes(self.nodes.len(), &edges);
        if order.len() < self.nodes.len() {
            proof {
                lemma_dag_to_indices(ids, conns);
            }
            return Err(CircuitError::CycleDetected);
        }
        proof {
            lemma_index_order_to_ids(ids, conns, order@);
        }
        let mut result: Vec<NodeId> = Vec::new();
        let mut i: usize = 0;
        while i < order.len()
            invariant
                ids == self.node_ids(),
                i <= order@.len(),
                order@.len() == ids.len(),
                forall|k: int| 0 <= k < order@.len() ==> #[trigger] order@[k] < ids.len(),
                result@.len() == i,
                forall|k: int| 0 <= k < i ==> #[trigger] result@[k]@ == ids[order@[k] as int],
            decreases order@.len() - i,
        {
            let idx = order[i];
            result.push(self.nodes[idx].id.clone());
            i = i + 1;
        }
        assert(result@.map_values(|s: String| s@) =~= ids_at(ids, order@));
        Ok(result)
    }
}

/// Dropping connections from the end keeps a graph free of cycles.
pub proof fn lemma_dag_prefix(conns: Seq<Connection>, k: int)
    requires
        0 <= k <= conns.len(),
        is_dag(conns),
    ensures
        is_dag(conns.take(k)),
{
    let rank = choose|rank: spec_fn(Seq<char>) -> int| ranks(conns, rank);
    let pre = conns.take(k);
    assert forall|j: int| 0 <= j < pre.len() implies rank((#[trigger] pre[j]).from_node@) < rank(pre[j].to_node@) by {
        assert(pre[j] == conns[j]);
    }
    assert(ranks(pre, rank));
}

/// A connection that would close a cycle is refused with a cycle error, the
/// connections stay as they were, and the graph still has a topological
/// order, so sorting it still succeeds.
pub proof fn lemma_cycle_rejection_is_atomic(
    before: Graph,
    after: Graph,
    connection: Connection,
    r: Result<(), CircuitError>,
)
    requires
        before.well_formed(),
        Graph::connects(before, after, connection, r),
        before.node_ids().contains(connection.from_node@),
        before.node_ids().contains(connection.to_node@),
        !is_dag(before.connection_seq().push(connection)),
    ensures
        r == Err::<(), CircuitError>(CircuitError::CycleDetected),
        after.connection_seq().len() == before.connection_seq().len(),
        is_dag(after.connection_seq()),
{
}

/// Removing a node that is present leaves no connection that starts or ends
/// at it, and the rest of the graph has a topological order, which cannot
/// name the removed node.
pub proof fn lemma_removal_cascades(before: Graph, after: Graph, node_id: Seq<char>, r: Result<(), CircuitError>)
    requires
        before.well_formed(),
        Graph::removes(before, after, node_id, r),
        before.node_ids().contains(node_id),
    ensures
        r is Ok,
        forall|j: int|
            0 <= j < after.connection_seq().len() ==> (#[trigger] after.connection_seq()[j]).from_node@
                != node_id && after.connection_seq()[j].to_node@ != node_id,
        !after.node_ids().contains(node_id),
        is_dag(after.connection_seq()),
        forall|order: Seq<Seq<char>>| #[trigger]
            is_id_order(after.node_ids(), after.connection_seq(), order) ==> !order.contains(node_id),
{
    let ids = before.node_ids();
    let k = index_in(ids, node_id) as int;
    lemma_index_in(ids, node_id);
    let conns = before.connection_seq();
    let kept = after.connection_seq();
    assert forall|j: int| 0 <= j < kept.len() implies (#[trigger] kept[j]).from_node@ != node_id
        && kept[j].to_node@ != node_id by {
        conns.lemma_filter_pred(keeps_clear_of(node_id), j);
    }
    lemma_remove_keeps_dag(ids, conns, k, kept);
    ids.remove_ensures(k);
    assert(after.node_ids() =~= ids.remove(k));
    if after.node_ids().contains(node_id) {
        let i = choose|i: int| 0 <= i < after.node_ids().len() && after.node_ids()[i] == node_id;
        if i < k {
            assert(ids[i] == node_id);
        } else {
            assert(ids[i + 1] == node_id);
        }
    }
    assert forall|order: Seq<Seq<char>>| #[trigger]
        is_id_order(after.node_ids(), after.connection_seq(), order) implies !order.contains(node_id) by {
        if order.contains(node_id) {
            let q = choose|q: int| 0 <= q < order.len() && order[q] == node_id;
            assert(after.node_ids().contains(order[q]));
        }
    }
}

/// Removing the node at index `k` and every connection that touches it keeps
/// the graph free of cycles, and the remaining connections' endpoints present.
proof fn lemma_remove_keeps_dag(ids: Seq<Seq<char>>, conns: Seq<Connection>, k: int, kept: Seq<Connection>)
    requires
        0 <= k < ids.len(),
        ids.no_duplicates(),
        endpoints_within(ids, conns),
        is_dag(conns),
        kept == conns.filter(keeps_clear_of(ids[k])),
    ensures
        ids.remove(k).no_duplicates(),
        endpoints_within(ids.remove(k), kept),
        is_dag(kept),
{
    let x = ids[k];
    let ids1 = ids.remove(k);
    ids.remove_ensures(k);
    assert forall|a: int, b: int| 0 <= a < b < ids1.len() implies ids1[a] != ids1[b] by {
        let a0 = if a < k { a } else { a + 1 };
        let b0 = if b < k { b } else { b + 1 };
        assert(ids1[a] == ids[a0]);
        assert(ids1[b] == ids[b0]);
    }
    // an id other than x is in ids1
    assert forall|y: Seq<char>| ids.contains(y) && y != x implies ids1.contains(y) by {
        let i = choose|i: int| 0 <= i < ids.len() && ids[i] == y;
        if i < k {
            assert(ids1[i] == y);
        } else {
            assert(i != k);
            assert(ids1[i - 1] == y);
        }
    }
    assert forall|j: int| 0 <= j < kept.len() implies ids1.contains((#[trigger] kept[j]).from_node@)
        && ids1.contains(kept[j].to_node@) by {
        conns.lemma_filter_pred(keeps_clear_of(x), j);
        assert(kept.contains(kept[j]));
        conns.lemma_filter_contains_rev(keeps_clear_of(x), kept[j]);
        let j0 = choose|j0: int| 0 <= j0 < conns.len() && conns[j0] == kept[j];
        assert(ids.contains(conns[j0].from_node@));
        assert(ids.contains(conns[j0].to_node@));
    }
    let rank = choose|rank: spec_fn(Seq<char>) -> int| ranks(conns, rank);
    assert forall|j: int| 0 <= j < kept.len() implies rank((#[trigger] kept[j]).from_node@) < rank(kept[j].to_node@) by {
        assert(kept.contains(kept[j]));
        conns.lemma_filter_contains_rev(keeps_clear_of(x), kept[j]);
        let j0 = choose|j0: int| 0 <= j0 < conns.len() && conns[j0] == kept[j];
        assert(rank(conns[j0].from_node@) < rank(conns[j0].to_node@));
    }
    assert(ranks(kept, rank));
}

} // verus!
