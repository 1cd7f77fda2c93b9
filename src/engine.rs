//! The engine: a registry of block types, a table of loaded graphs, and
//! execution of a graph in topological order.
use vstd::prelude::*;
use crate::block::{Block, BlockContext};
use crate::error::{CircuitError, ErrorModel};
use crate::graph::{edges_of, ids_at, index_in, Connection, Graph, Node, NodeId};
use crate::schedule::schedule;
use crate::value::{ValueMap, ValueModel};

verus! {

/// Outputs of each node, by node id, and of each port, by port name.
pub type OutputsModel = Map<Seq<char>, Map<Seq<char>, ValueModel>>;

/// The outputs of the nodes that ran, by node id.
#[derive(Debug)]
pub struct NodeOutputs {
    entries: Vec<(NodeId, ValueMap)>,
}

/// The node ids of an association list.
pub open spec fn output_keys(s: Seq<(NodeId, ValueMap)>) -> Seq<Seq<char>> {
    s.map_values(|e: (NodeId, ValueMap)| e.0@)
}

/// Model of an association list of outputs; a later entry for a key wins.
pub open spec fn outputs_model(s: Seq<(NodeId, ValueMap)>) -> OutputsModel
    decreases s.len(),
{
    if s.len() == 0 {
        Map::empty()
    } else {
        outputs_model(s.drop_last()).insert(s.last().0@, s.last().1.model())
    }
}

/// With distinct keys, the model holds exactly the keys of the entries, each
/// with the outputs of its entry.
proof fn lemma_outputs_model(s: Seq<(NodeId, ValueMap)>)
    requires
        output_keys(s).no_duplicates(),
    ensures
        forall|k: Seq<char>| #[trigger] outputs_model(s).contains_key(k) <==> output_keys(s).contains(k),
        forall|i: int| 0 <= i < s.len() ==> #[trigger] outputs_model(s)[s[i].0@] == s[i].1.model(),
    decreases s.len(),
{
    if s.len() > 0 {
        let s0 = s.drop_last();
        assert(output_keys(s) =~= output_keys(s0).push(s.last().0@));
        assert(output_keys(s0) =~= output_keys(s).drop_last());
        lemma_outputs_model(s0);
        assert(outputs_model(s) == outputs_model(s0).insert(s.last().0@, s.last().1.model()));
        assert forall|k: Seq<char>| #[trigger] outputs_model(s).contains_key(k) <==> output_keys(s).contains(k) by {
            if output_keys(s).contains(k) {
                let i = choose|i: int| 0 <= i < output_keys(s).len() && output_keys(s)[i] == k;
                if i < s.len() - 1 {
                    assert(output_keys(s0)[i] == k);
                }
            }
            if output_keys(s0).contains(k) {
                let i = choose|i: int| 0 <= i < output_keys(s0).len() && output_keys(s0)[i] == k;
                assert(output_keys(s)[i] == k);
            }
            assert(output_keys(s)[s.len() - 1] == s.last().0@);
        }
        assert forall|i: int| 0 <= i < s.len() implies #[trigger] outputs_model(s)[s[i].0@] == s[i].1.model() by {
            if i < s.len() - 1 {
                assert(output_keys(s)[i] == s[i].0@);
                assert(output_keys(s)[s.len() - 1] == s.last().0@);
                assert(s0[i] == s[i]);
                assert(s[i].0@ != s.last().0@);
                assert(outputs_model(s0)[s0[i].0@] == s0[i].1.model());
            }
        }
    }
}

impl NodeOutputs {
    #[verifier::type_invariant]
    closed spec fn keys_unique(&self) -> bool {
        output_keys(self.entries@).no_duplicates()
    }

    /// What the outputs hold.
    pub closed spec fn model(&self) -> OutputsModel {
        outputs_model(self.entries@)
    }

    /// The node ids, in the order in which the nodes ran.
    pub closed spec fn key_seq(&self) -> Seq<Seq<char>> {
        output_keys(self.entries@)
    }

    fn new() -> (r: NodeOutputs)
        ensures
            r.model() == OutputsModel::empty(),
            r.key_seq() == Seq::<Seq<char>>::empty(),
    {
        let entries: Vec<(NodeId, ValueMap)> = Vec::new();
        assert(output_keys(entries@) =~= Seq::<Seq<char>>::empty());
        NodeOutputs { entries }
    }

    /// Records the outputs of a node that has none recorded yet.
    fn push_new(&mut self, id: NodeId, outputs: ValueMap)
        requires
            !old(self).model().contains_key(id@),
        ensures
            final(self).model() == old(self).model().insert(id@, outputs.model()),
            final(self).key_seq() == old(self).key_seq().push(id@),
    {
        proof {
            use_type_invariant(&*self);
            lemma_outputs_model(self.entries@);
        }
        let ghost k = id@;
        let ghost old_entries = self.entries@;
        let mut entries: Vec<(NodeId, ValueMap)> = Vec::new();
        std::mem::swap(&mut self.entries, &mut entries);
        entries.push((id, outputs));
        proof {
            assert(entries@.drop_last() =~= old_entries);
            assert(output_keys(entries@) =~= output_keys(old_entries).push(k));
            assert forall|a: int, b: int| 0 <= a < b < output_keys(entries@).len() implies output_keys(entries@)[a]
                != output_keys(entries@)[b] by {
                if b == output_keys(entries@).len() - 1 {
                    assert(output_keys(old_entries)[a] == output_keys(entries@)[a]);
                }
            }
        }
        std::mem::swap(&mut self.entries, &mut entries);
    }

    /// The outputs of node `node_id`, if it ran.
    pub fn get(&self, node_id: &str) -> (r: Option<&ValueMap>)
        ensures
            match r {
                Some(m) => self.model().contains_key(node_id@) && m.model() == self.model()[node_id@],
                None => !self.model().contains_key(node_id@),
            },
    {
        proof {
            use_type_invariant(self);
            lemma_outputs_model(self.entries@);
        }
        let key = node_id.to_owned();
        let mut i: usize = 0;
        while i < self.entries.len()
            invariant
                key@ == node_id@,
                i <= self.entries@.len(),
                forall|j: int| 0 <= j < i ==> self.entries@[j].0@ != node_id@,
            decreases self.entries@.len() - i,
        {
            if self.entries[i].0 == key {
                proof {
                    use_type_invariant(self);
                    lemma_outputs_model(self.entries@);
                    assert(output_keys(self.entries@)[i as int] == node_id@);
                }
                return Some(&self.entries[i].1);
            }
            i = i + 1;
        }
        proof {
            use_type_invariant(self);
            lemma_outputs_model(self.entries@);
            if output_keys(self.entries@).contains(node_id@) {
                let j = choose|j: int| 0 <= j < output_keys(self.entries@).len() && output_keys(self.entries@)[j] == node_id@;
                assert(self.entries@[j].0@ == node_id@);
            }
        }
        None
    }

    pub fn len(&self) -> (r: usize)
        ensures
            r == self.key_seq().len(),
    {
        self.entries.len()
    }

    pub fn is_empty(&self) -> (r: bool)
        ensures
            r == (self.key_seq().len() == 0),
    {
        self.entries.len() == 0
    }

    /// The node ids, in the order in which the nodes ran.
    pub fn keys(&self) -> (r: Vec<NodeId>)
        ensures
            r@.map_values(|s: String| s@) == self.key_seq(),
    {
        let mut r: Vec<NodeId> = Vec::new();
        let mut i: usize = 0;
        while i < self.entries.len()
            invariant
                i <= self.entries@.len(),
                r@.len() == i,
                forall|j: int| 0 <= j < i ==> #[trigger] r@[j]@ == self.entries@[j].0@,
            decreases self.entries@.len() - i,
        {
            r.push(self.entries[i].0.clone());
            i = i + 1;
        }
        assert(r@.map_values(|s: String| s@) =~= output_keys(self.entries@));
        r
    }
}

/// The inputs of node `id`: for each connection into it, in order, the value
/// that its source node recorded at its source port, if any; a later
/// connection to the same port wins.
pub open spec fn gather(conns: Seq<Connection>, id: Seq<char>, outs: OutputsModel) -> Map<Seq<char>, ValueModel>
    decreases conns.len(),
{
    if conns.len() == 0 {
        Map::empty()
    } else {
        let m = gather(conns.drop_last(), id, outs);
        let c = conns.last();
        if c.to_node@ == id && outs.contains_key(c.from_node@) && outs[c.from_node@].contains_key(
            c.from_port@,
        ) {
            m.insert(c.to_port@, outs[c.from_node@][c.from_port@])
        } else {
            m
        }
    }
}

/// Why a run stopped.
pub enum RunFailure {
    /// The graph's connections form a cycle.
    Cycle,
    /// The block of this node failed with this error.
    NodeFailed(Seq<char>, ErrorModel),
    /// No block of this type is registered.
    MissingBlockType(Seq<char>),
}

/// The order in which a graph's nodes run.
pub open spec fn run_order(graph: Graph) -> Seq<Seq<char>> {
    ids_at(
        graph.node_ids(),
        schedule(graph.node_ids().len(), edges_of(graph.node_ids(), graph.connection_seq())),
    )
}

/// The node of `graph` with id `id`.
pub open spec fn node_named(graph: Graph, id: Seq<char>) -> Node {
    graph.node_seq()[index_in(graph.node_ids(), id) as int]
}

/// The engine: registered block types and loaded graphs.
pub struct Engine<B: Block> {
    blocks: Vec<(String, B)>,
    graphs: Vec<Graph>,
}

/// The keys of a registry.
pub open spec fn block_keys<B: Block>(s: Seq<(String, B)>) -> Seq<Seq<char>> {
    s.map_values(|e: (String, B)| e.0@)
}

/// The ids of a graph table.
pub open spec fn graph_ids(s: Seq<Graph>) -> Seq<Seq<char>> {
    s.map_values(|g: Graph| g.header().0@)
}

impl<B: Block> Engine<B> {
    /// Registry keys and graph ids are unique, and each block is registered
    /// under the id it reports.
    #[verifier::type_invariant]
    closed spec fn tables_consistent(&self) -> bool {
        &&& block_keys(self.blocks@).no_duplicates()
        &&& forall|i: int| 0 <= i < self.blocks@.len() ==> (#[trigger] self.blocks@[i]).0@ == self.blocks@[i].1.type_id()
        &&& graph_ids(self.graphs@).no_duplicates()
    }

    /// The registered blocks with their keys, in order of registration.
    pub closed spec fn registry(&self) -> Seq<(String, B)> {
        self.blocks@
    }

    /// The loaded graphs, in order of first loading.
    pub closed spec fn graph_seq(&self) -> Seq<Graph> {
        self.graphs@
    }

    /// The registered block type ids.
    pub open spec fn block_types(&self) -> Seq<Seq<char>> {
        block_keys(self.registry())
    }

    /// The ids of the loaded graphs.
    pub open spec fn graph_id_seq(&self) -> Seq<Seq<char>> {
        graph_ids(self.graph_seq())
    }

    /// The block registered under `key`.
    pub open spec fn block_named(&self, key: Seq<char>) -> B {
        self.registry()[index_in(self.block_types(), key) as int].1
    }

    /// The loaded graph with id `id`.
    pub open spec fn graph_named(&self, id: Seq<char>) -> Graph {
        self.graph_seq()[index_in(self.graph_id_seq(), id) as int]
    }

    /// Outputs after running the first `k` nodes of `order`.
    pub open spec fn run_prefix(&self, graph: Graph, order: Seq<Seq<char>>, k: nat) -> Result<OutputsModel, RunFailure>
        decreases k,
    {
        if k == 0 {
            Ok(OutputsModel::empty())
        } else {
            match self.run_prefix(graph, order, (k - 1) as nat) {
                Err(f) => Err(f),
                Ok(outs) => {
                    let id = order[k - 1];
                    let node = node_named(graph, id);
                    if !self.block_types().contains(node.block_type@) {
                        Err(RunFailure::MissingBlockType(node.block_type@))
                    } else {
                        match self.block_named(node.block_type@).outcome(
                            gather(graph.connection_seq(), id, outs),
                            node.config.model(),
                        ) {
                            Some(o) => Ok(outs.insert(id, o)),
                            None => Err(
                                RunFailure::NodeFailed(
                                    id,
                                    self.block_named(node.block_type@).failure(
                                        gather(graph.connection_seq(), id, outs),
                                        node.config.model(),
                                    ),
                                ),
                            ),
                        }
                    }
                },
            }
        }
    }

    /// Once a run has failed, running more nodes does not change the failure.
    pub proof fn lemma_failure_persists(&self, graph: Graph, order: Seq<Seq<char>>, k: nat, m: nat)
        requires
            k <= m,
            self.run_prefix(graph, order, k) is Err,
        ensures
            self.run_prefix(graph, order, m) == self.run_prefix(graph, order, k),
        decreases m - k,
    {
        if k < m {
            self.lemma_failure_persists(graph, order, k, (m - 1) as nat);
        }
    }

    /// What running `graph` gives: each node runs in [`run_order`] on the
    /// outputs its predecessors recorded, until one fails.
    pub open spec fn run(&self, graph: Graph) -> Result<OutputsModel, RunFailure> {
        let order = run_order(graph);
        if order.len() < graph.node_seq().len() {
            Err(RunFailure::Cycle)
        } else {
            self.run_prefix(graph, order, order.len())
        }
    }

    /// What running the loaded graph `graph_id` gives; `None` if no graph has
    /// that id.
    pub open spec fn run_loaded(&self, graph_id: Seq<char>) -> Option<Result<OutputsModel, RunFailure>> {
        if self.graph_id_seq().contains(graph_id) {
            Some(self.run(self.graph_named(graph_id)))
        } else {
            None
        }
    }

    /// `r` is what execution returns when the run gives `expected`.
    pub open spec fn reports(r: &Result<NodeOutputs, CircuitError>, expected: Result<OutputsModel, RunFailure>) -> bool {
        match (r, expected) {
            (Ok(out), Ok(m)) => out.model() == m,
            (Err(CircuitError::CycleDetected), Err(RunFailure::Cycle)) => true,
            (Err(CircuitError::NodeExecution { node_id, cause }), Err(RunFailure::NodeFailed(id, e))) => node_id@
                == id && cause.model() == e,
            (Err(CircuitError::UnknownBlockType(t)), Err(RunFailure::MissingBlockType(u))) => t@ == u,
            _ => false,
        }
    }

    /// An engine with no block types and no graphs.
    pub fn new() -> (e: Engine<B>)
        ensures
            e.registry() == Seq::<(String, B)>::empty(),
            e.graph_seq() == Seq::<Graph>::empty(),
    {
        let blocks: Vec<(String, B)> = Vec::new();
        let graphs: Vec<Graph> = Vec::new();
        proof {
            assert(block_keys(blocks@) =~= Seq::<Seq<char>>::empty());
            assert(graph_ids(graphs@) =~= Seq::<Seq<char>>::empty());
        }
        Engine { blocks, graphs }
    }

    /// Index of the block registered under `key`.
    fn block_index(&self, key: &String) -> (r: Option<usize>)
        ensures
            match r {
                Some(i) => i < self.registry().len() && i == index_in(self.block_types(), key@)
                    && self.block_types().contains(key@),
                None => !self.block_types().contains(key@),
            },
    {
        proof { use_type_invariant(self); }
        let mut i: usize = 0;
        while i < self.blocks.len()
            invariant
                block_keys(self.blocks@).no_duplicates(),
                i <= self.blocks@.len(),
                forall|j: int| 0 <= j < i ==> self.blocks@[j].0@ != key@,
            decreases self.blocks@.len() - i,
        {
            if self.blocks[i].0 == *key {
                proof {
                    assert(self.block_types()[i as int] == key@);
                    crate::graph::lemma_index_in(self.block_types(), key@);
                }
                return Some(i);
            }
            i = i + 1;
        }
        proof {
            if self.block_types().contains(key@) {
                let j = choose|j: int| 0 <= j < self.block_types().len() && self.block_types()[j] == key@;
                assert(self.blocks@[j].0@ == key@);
            }
        }
        None
    }

    /// Index of the loaded graph with id `id`.
    fn graph_index(&self, id: &String) -> (r: Option<usize>)
        ensures
            match r {
                Some(i) => i < self.graph_seq().len() && i == index_in(self.graph_id_seq(), id@)
                    && self.graph_id_seq().contains(id@),
                None => !self.graph_id_seq().contains(id@),
            },
    {
        proof { use_type_invariant(self); }
        let mut i: usize = 0;
        while i < self.graphs.len()
            invariant
                graph_ids(self.graphs@).no_duplicates(),
                i <= self.graphs@.len(),
                forall|j: int| 0 <= j < i ==> self.graphs@[j].header().0@ != id@,
            decreases self.graphs@.len() - i,
        {
            if *self.graphs[i].id() == *id {
                proof {
                    assert(self.graph_id_seq()[i as int] == id@);
                    crate::graph::lemma_index_in(self.graph_id_seq(), id@);
                }
                return Some(i);
            }
            i = i + 1;
        }
        proof {
            if self.graph_id_seq().contains(id@) {
                let j = choose|j: int| 0 <= j < self.graph_id_seq().len() && self.graph_id_seq()[j] == id@;
                assert(self.graphs@[j].header().0@ == id@);
            }
        }
        None
    }

    /// Registers `block` under the id its metadata reports; fails when that id
    /// is taken. The registry only grows.
    pub fn register_block(&mut self, block: B) -> (r: Result<(), CircuitError>)
        ensures
            final(self).graph_seq() == old(self).graph_seq(),
            !old(self).block_types().contains(block.type_id()) ==> final(self).registry().drop_last()
                == old(self).registry(),
            old(self).block_types().contains(block.type_id()) ==> final(self).registry() == old(self).registry()
                && (match r {
                Err(CircuitError::DuplicateBlockType(t)) => t@ == block.type_id(),
                _ => false,
            }),
            !old(self).block_types().contains(block.type_id()) ==> r is Ok && final(self).block_types()
                == old(self).block_types().push(block.type_id()) && final(self).registry().len()
                == old(self).registry().len() + 1 && final(self).registry().last().1 == block,
    {
        proof { use_type_invariant(&*self); }
        let metadata = block.metadata();
        let key = metadata.id;
        if self.block_index(&key).is_some() {
            return Err(CircuitError::DuplicateBlockType(key));
        }
        let ghost old_blocks = self.blocks@;
        let ghost k = key@;
        let mut blocks: Vec<(String, B)> = Vec::new();
        std::mem::swap(&mut self.blocks, &mut blocks);
        blocks.push((key, block));
        proof {
            assert(blocks@.drop_last() =~= old_blocks);
            assert(block_keys(blocks@) =~= block_keys(old_blocks).push(k));
            assert forall|a: int, b: int| 0 <= a < b < block_keys(blocks@).len() implies block_keys(blocks@)[a]
                != block_keys(blocks@)[b] by {
                if b == block_keys(blocks@).len() - 1 {
                    assert(block_keys(old_blocks)[a] == block_keys(blocks@)[a]);
                }
            }
            assert forall|i: int| 0 <= i < blocks@.len() implies (#[trigger] blocks@[i]).0@ == blocks@[i].1.type_id() by {
                if i < old_blocks.len() {
                    assert(blocks@[i] == old_blocks[i]);
                }
            }
        }
        std::mem::swap(&mut self.blocks, &mut blocks);
        Ok(())
    }

    /// Loads `graph` under its id, replacing a loaded graph with the same id,
    /// provided every node's block type is registered. Otherwise nothing is
    /// loaded and the error names the first node's type that is missing.
    pub fn load_graph(&mut self, graph: Graph) -> (r: Result<(), CircuitError>)
        ensures
            Engine::loads(*old(self), *final(self), graph, r),
    {
        proof { use_type_invariant(&*self); }
        let nodes = graph.nodes();
        let mut i: usize = 0;
        while i < nodes.len()
            invariant
                nodes@ == graph.node_seq(),
                i <= nodes@.len(),
                forall|j: int| 0 <= j < i ==> self.block_types().contains(#[trigger] nodes@[j].block_type@),
            decreases nodes@.len() - i,
        {
            if self.block_index(&nodes[i].block_type).is_none() {
                proof {
                    let j = Engine::<B>::first_unregistered(*self, graph);
                    assert(!self.block_types().contains(graph.node_seq()[i as int].block_type@));
                    if j < i {
                        assert(self.block_types().contains(nodes@[j].block_type@));
                    } else if j > i {
                        assert(self.block_types().contains(graph.node_seq()[i as int].block_type@));
                    }
                }
                return Err(CircuitError::UnknownBlockType(nodes[i].block_type.clone()));
            }
            i = i + 1;
        }
        let ghost old_graphs = self.graphs@;
        let ghost gid = graph.header().0@;
        proof {
            assert(self.graphs.len() == old_graphs.len());
        }
        match self.graph_index(graph.id()) {
            Some(k) => {
                let mut graphs: Vec<Graph> = Vec::new();
                std::mem::swap(&mut self.graphs, &mut graphs);
                graphs.set(k, graph);
                proof {
                    assert(graph_ids(old_graphs).len() == old_graphs.len());
                    crate::graph::lemma_index_in(graph_ids(old_graphs), gid);
                    assert(graph_ids(old_graphs)[k as int] == gid);
                    assert(graph_ids(graphs@) =~= graph_ids(old_graphs));
                }
                std::mem::swap(&mut self.graphs, &mut graphs);
            },
            None => {
                let mut graphs: Vec<Graph> = Vec::new();
                std::mem::swap(&mut self.graphs, &mut graphs);
                graphs.push(graph);
                proof {
                    assert(graphs@.drop_last() =~= old_graphs);
                    assert(graph_ids(graphs@) =~= graph_ids(old_graphs).push(gid));
                    assert forall|a: int, b: int| 0 <= a < b < graph_ids(graphs@).len() implies graph_ids(graphs@)[a]
                        != graph_ids(graphs@)[b] by {
                        if b == graph_ids(graphs@).len() - 1 {
                            assert(graph_ids(old_graphs)[a] == graph_ids(graphs@)[a]);
                        }
                    }
                }
                std::mem::swap(&mut self.graphs, &mut graphs);
            },
        }
        Ok(())
    }

    /// Index of the first node of `graph` whose block type `engine` lacks.
    pub open spec fn first_unregistered(engine: Engine<B>, graph: Graph) -> int {
        choose|j: int|
            0 <= j < graph.node_seq().len() && !engine.block_types().contains(
                #[trigger] graph.node_seq()[j].block_type@,
            ) && forall|i: int|
                0 <= i < j ==> engine.block_types().contains(graph.node_seq()[i].block_type@)
    }

    /// `after` and `r` are what loading `graph` into `before` gives.
    pub open spec fn loads(before: Engine<B>, after: Engine<B>, graph: Graph, r: Result<(), CircuitError>) -> bool {
        &&& after.registry() == before.registry()
        &&& if exists|j: int|
            0 <= j < graph.node_seq().len() && !before.block_types().contains(
                #[trigger] graph.node_seq()[j].block_type@,
            ) {
            &&& after.graph_seq() == before.graph_seq()
            &&& match r {
                Err(CircuitError::UnknownBlockType(t)) => t@ == graph.node_seq()[Self::first_unregistered(
                    before,
                    graph,
                )].block_type@,
                _ => false,
            }
        } else {
            &&& r is Ok
            &&& if before.graph_id_seq().contains(graph.header().0@) {
                after.graph_seq() == before.graph_seq().update(
                    index_in(before.graph_id_seq(), graph.header().0@) as int,
                    graph,
                )
            } else {
                after.graph_seq() == before.graph_seq().push(graph)
            }
        }
    }

    /// `r` is what running the loaded graph `graph_id` on `engine` returns.
    pub open spec fn executes(engine: Engine<B>, graph_id: Seq<char>, r: &Result<NodeOutputs, CircuitError>) -> bool {
        match engine.run_loaded(graph_id) {
            None => match r {
                Err(CircuitError::GraphNotFound(s)) => s@ == graph_id,
                _ => false,
            },
            Some(expected) => Engine::<B>::reports(r, expected),
        }
    }

    /// Runs the loaded graph `graph_id`.
    pub fn execute_graph(&self, graph_id: &str) -> (r: Result<NodeOutputs, CircuitError>)
        ensures
            Engine::executes(*self, graph_id@, &r),
    {
        let key = graph_id.to_owned();
        match self.graph_index(&key) {
            Some(i) => self.execute(&self.graphs[i]),
            None => Err(CircuitError::GraphNotFound(key)),
        }
    }

    /// Runs `graph`: every node in [`run_order`], each on the inputs its
    /// incoming connections find among the outputs recorded so far. The first
    /// node that fails ends the run and no outputs are returned.
    pub fn execute(&self, graph: &Graph) -> (r: Result<NodeOutputs, CircuitError>)
        ensures
            Engine::<B>::reports(&r, self.run(*graph)),
    {
        let order = match graph.topological_sort() {
            Ok(order) => order,
            Err(e) => {
                return Err(e);
            },
        };
        let ghost ord = run_order(*graph);
        assert(order@.map_values(|s: String| s@) == ord);
        let mut outputs = NodeOutputs::new();
        let mut k: usize = 0;
        while k < order.len()
            invariant
                order@.map_values(|s: String| s@) == ord,
                ord == run_order(*graph),
                ord.len() == graph.node_seq().len(),
                crate::graph::is_id_order(graph.node_ids(), graph.connection_seq(), ord),
                k <= order@.len(),
                self.run_prefix(*graph, ord, k as nat) == Ok::<OutputsModel, RunFailure>(outputs.model()),
                outputs.key_seq() == ord.take(k as int),
            decreases order@.len() - k,
        {
            let id = &order[k];
            proof {
                assert(ord[k as int] == id@);
            }
            let node = match graph.get_node(id.as_str()) {
                Some(n) => n,
                None => {
                    proof {
                        assert(graph.node_ids().contains(ord[k as int]));
                    }
                    return Err(CircuitError::NodeNotFound(id.clone()));
                },
            };
            let b = match self.block_index(&node.block_type) {
                Some(b) => b,
                None => {
                    proof {
                        self.lemma_failure_persists(*graph, ord, (k + 1) as nat, ord.len());
                    }
                    return Err(CircuitError::UnknownBlockType(node.block_type.clone()));
                },
            };
            let inputs = self.gather_inputs(graph, id, &outputs);
            let context = BlockContext { inputs, config: node.config.clone() };
            match self.blocks[b].1.execute(context) {
                Ok(out) => {
                    proof {
                        // the node has not run before: ids in the order are distinct
                        use_type_invariant(&outputs);
                        lemma_outputs_model(outputs.entries@);
                        if ord.take(k as int).contains(id@) {
                            let p = choose|p: int| 0 <= p < k && ord.take(k as int)[p] == id@;
                            assert(ord[p] == ord[k as int]);
                        }
                    }
                    outputs.push_new(id.clone(), out);
                    proof {
                        assert(ord.take(k as int + 1) =~= ord.take(k as int).push(id@));
                    }
                },
                Err(e) => {
                    proof {
                        self.lemma_failure_persists(*graph, ord, (k + 1) as nat, ord.len());
                    }
                    return Err(CircuitError::NodeExecution { node_id: id.clone(), cause: Box::new(e) });
                },
            }
            k = k + 1;
        }
        proof {
            assert(ord.take(k as int) =~= ord);
        }
        Ok(outputs)
    }

    /// The inputs of node `id`, gathered from `outputs` over the graph's
    /// connections into it.
    fn gather_inputs(&self, graph: &Graph, id: &String, outputs: &NodeOutputs) -> (r: ValueMap)
        ensures
            r.model() == gather(graph.connection_seq(), id@, outputs.model()),
    {
        let conns = graph.connections();
        let mut inputs = ValueMap::new();
        let mut j: usize = 0;
        while j < conns.len()
            invariant
                conns@ == graph.connection_seq(),
                j <= conns@.len(),
                inputs.model() == gather(conns@.take(j as int), id@, outputs.model()),
            decreases conns@.len() - j,
        {
            let c = &conns[j];
            proof {
                assert(conns@.take(j as int + 1).drop_last() =~= conns@.take(j as int));
            }
            if c.to_node == *id {
                if let Some(source) = outputs.get(c.from_node.as_str()) {
                    if let Some(v) = source.get(c.from_port.as_str()) {
                        inputs.insert(c.to_port.clone(), v.clone());
                    }
                }
            }
            j = j + 1;
        }
        proof {
            assert(conns@.take(j as int) =~= conns@);
        }
        inputs
    }

    /// The registered block type ids, in order of registration.
    pub fn list_blocks(&self) -> (r: Vec<String>)
        ensures
            r@.map_values(|s: String| s@) == self.block_types(),
            r@.map_values(|s: String| s@).no_duplicates(),
    {
        proof { use_type_invariant(self); }
        let mut r: Vec<String> = Vec::new();
        let mut i: usize = 0;
        while i < self.blocks.len()
            invariant
                i <= self.blocks@.len(),
                r@.len() == i,
                forall|j: int| 0 <= j < i ==> #[trigger] r@[j]@ == self.blocks@[j].0@,
            decreases self.blocks@.len() - i,
        {
            r.push(self.blocks[i].0.clone());
            i = i + 1;
        }
        assert(r@.map_values(|s: String| s@) =~= self.block_types());
        r
    }

    /// The ids of the loaded graphs, in order of first loading.
    pub fn list_graphs(&self) -> (r: Vec<String>)
        ensures
            r@.map_values(|s: String| s@) == self.graph_id_seq(),
            r@.map_values(|s: String| s@).no_duplicates(),
    {
        proof { use_type_invariant(self); }
        let mut r: Vec<String> = Vec::new();
        let mut i: usize = 0;
        while i < self.graphs.len()
            invariant
                i <= self.graphs@.len(),
                r@.len() == i,
                forall|j: int| 0 <= j < i ==> #[trigger] r@[j]@ == self.graphs@[j].header().0@,
            decreases self.graphs@.len() - i,
        {
            r.push(self.graphs[i].id().clone());
            i = i + 1;
        }
        assert(r@.map_values(|s: String| s@) =~= self.graph_id_seq());
        r
    }

    /// The loaded graph with id `graph_id`, if there is one.
    pub fn get_graph(&self, graph_id: &str) -> (r: Option<&Graph>)
        ensures
            match r {
                Some(g) => self.graph_id_seq().contains(graph_id@) && *g == self.graph_named(graph_id@),
                None => !self.graph_id_seq().contains(graph_id@),
            },
    {
        let key = graph_id.to_owned();
        match self.graph_index(&key) {
            Some(i) => Some(&self.graphs[i]),
            None => None,
        }
    }
}

impl<B: Block> Default for Engine<B> {
    fn default() -> (e: Engine<B>)
        ensures
            e.registry() == Seq::<(String, B)>::empty(),
            e.graph_seq() == Seq::<Graph>::empty(),
    {
        Engine::new()
    }
}

/// Loading a graph that has a node of an unregistered block type fails and
/// leaves the graph table as it was: a graph id that was not loaded before is
/// not loaded after.
pub proof fn lemma_load_is_all_or_nothing<B: Block>(
    before: Engine<B>,
    after: Engine<B>,
    graph: Graph,
    r: Result<(), CircuitError>,
    j: int,
)
    requires
        Engine::loads(before, after, graph, r),
        0 <= j < graph.node_seq().len(),
        !before.block_types().contains(graph.node_seq()[j].block_type@),
    ensures
        r is Err,
        after.graph_seq() == before.graph_seq(),
        !before.graph_id_seq().contains(graph.header().0@) ==> !after.graph_id_seq().contains(
            graph.header().0@,
        ),
{
}

/// Running the same loaded graph twice on the same engine succeeds both times
/// or fails both times, and when it succeeds the outputs are identical.
pub proof fn lemma_execution_is_deterministic<B: Block>(
    engine: Engine<B>,
    graph_id: Seq<char>,
    r1: Result<NodeOutputs, CircuitError>,
    r2: Result<NodeOutputs, CircuitError>,
)
    requires
        Engine::executes(engine, graph_id, &r1),
        Engine::executes(engine, graph_id, &r2),
    ensures
        r1 is Ok <==> r2 is Ok,
        r1 is Ok ==> r1.unwrap().model() == r2.unwrap().model(),
{
}

} // verus!
