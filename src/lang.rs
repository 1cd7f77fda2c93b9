//! The structures a front end hands over for a flow, and their conversion
//! into the graph model.
use vstd::prelude::*;
use vstd::string::StringExecFns;
use crate::error::CircuitError;
use crate::graph::{endpoints_within, ids_of, is_dag, Connection, Graph, Node};
use crate::value::{Value as CoreValue, ValueMap, ValueModel};

verus! {

/// Binary operators of block expressions.
#[derive(Debug, Clone, Copy, PartialEq, Eq)]
pub enum BinaryOp {
    Add,
    Sub,
    Mul,
    Div,
    Mod,
    Eq,
    Ne,
    Lt,
    Gt,
    Le,
    Ge,
    And,
    Or,
}

/// Unary operators of block expressions.
#[derive(Debug, Clone, Copy, PartialEq, Eq)]
pub enum UnaryOp {
    Not,
    Neg,
}

/// Declared types of ports and configuration entries.
#[derive(Debug, Clone, Copy, PartialEq, Eq)]
pub enum ValueType {
    Number,
    String,
    Bool,
    Array,
    Object,
    Bytes,
    Any,
}

impl ValueType {
    /// The type's name as written in source text.
    pub open spec fn spec_name(self) -> Seq<char> {
        match self {
            ValueType::Number => "Number"@,
            ValueType::String => "String"@,
            ValueType::Bool => "Bool"@,
            ValueType::Array => "Array"@,
            ValueType::Object => "Object"@,
            ValueType::Bytes => "Bytes"@,
            ValueType::Any => "Any"@,
        }
    }

    /// The type's name as written in source text.
    pub fn name(&self) -> (r: String)
        ensures
            r@ == self.spec_name(),
    {
        match self {
            ValueType::Number => "Number".to_owned(),
            ValueType::String => "String".to_owned(),
            ValueType::Bool => "Bool".to_owned(),
            ValueType::Array => "Array".to_owned(),
            ValueType::Object => "Object".to_owned(),
            ValueType::Bytes => "Bytes".to_owned(),
            ValueType::Any => "Any".to_owned(),
        }
    }
}

/// A reference to a port of a node, written `node.port`.
#[derive(Debug, Clone, PartialEq)]
pub struct PortRef {
    pub node: String,
    pub port: String,
}

impl PortRef {
    /// The reference as written in source text: node, a dot, then port.
    pub fn to_text(&self) -> (r: String)
        ensures
            r@ == self.node@ + "."@ + self.port@,
    {
        let mut s = self.node.clone();
        s.append(".");
        s.append(self.port.as_str());
        s
    }
}

/// A connection between two port references.
#[derive(Debug, Clone, PartialEq)]
pub struct ConnectionDef {
    pub from: PortRef,
    pub to: PortRef,
}

/// The graph connection that a connection definition describes.
pub open spec fn def_connection(d: ConnectionDef) -> Connection {
    Connection { from_node: d.from.node, from_port: d.from.port, to_node: d.to.node, to_port: d.to.port }
}

/// The graph connection that a connection definition describes.
pub fn connection_def_to_connection(conn_def: &ConnectionDef) -> (c: Connection)
    ensures
        c == def_connection(*conn_def),
{
    Connection {
        from_node: conn_def.from.node.clone(),
        from_port: conn_def.from.port.clone(),
        to_node: conn_def.to.node.clone(),
        to_port: conn_def.to.port.clone(),
    }
}

/// A literal value written in a flow.
#[derive(Debug)]
pub enum Value {
    Null,
    Bool(bool),
    /// A number, as the bit pattern of an IEEE-754 binary64 number.
    Number(u64),
    String(String),
    Array(Vec<Value>),
    /// Entries in the order written; a later entry for a key wins.
    Object(Vec<(String, Value)>),
}

/// A node of a flow: its id, block type, configuration and position.
#[derive(Debug)]
pub struct NodeDef {
    pub id: String,
    pub block_type: String,
    /// Entries in the order written; a later entry for a key wins.
    pub config: Vec<(String, Value)>,
    /// Display coordinates, as bit patterns of IEEE-754 binary64 numbers.
    pub position: Option<(u64, u64)>,
}

/// A flow: nodes, the connections between their ports, and the ports whose
/// values are its outputs.
#[derive(Debug)]
pub struct FlowDef {
    pub name: String,
    pub description: Option<String>,
    pub nodes: Vec<NodeDef>,
    pub connections: Vec<ConnectionDef>,
    pub outputs: Vec<PortRef>,
}

/// Why a flow could not be turned into a graph.
#[derive(Debug)]
pub enum LangError {
    /// The source text could not be read as a flow.
    ParseError(String),
    /// The flow's nodes or connections do not form a valid graph.
    ValidationError(CircuitError),
}

/// The value a literal denotes.
pub open spec fn literal_model(v: Value) -> ValueModel
    decreases v,
{
    match v {
        Value::Null => ValueModel::Null,
        Value::Bool(b) => ValueModel::Bool(b),
        Value::Number(n) => ValueModel::Float(n),
        Value::String(s) => ValueModel::Str(s@),
        Value::Array(items) => ValueModel::Array(
            Seq::new(
                items@.len(),
                |i: int|
                    if 0 <= i < items@.len() {
                        literal_model(items@[i])
                    } else {
                        ValueModel::Null
                    },
            ),
        ),
        Value::Object(pairs) => ValueModel::Object(pairs_model(pairs@)),
    }
}

/// The map that written entries denote; a later entry for a key wins.
pub open spec fn pairs_model(s: Seq<(String, Value)>) -> Map<Seq<char>, ValueModel>
    decreases s,
{
    if s.len() == 0 {
        Map::empty()
    } else {
        pairs_model(s.drop_last()).insert(s.last().0@, literal_model(s.last().1))
    }
}

/// The library value of a literal.
pub fn literal_to_value(v: &Value) -> (r: CoreValue)
    ensures
        r.model() == literal_model(*v),
    decreases v,
{
    match v {
        Value::Null => CoreValue::Null,
        Value::Bool(b) => CoreValue::Bool(*b),
        Value::Number(n) => CoreValue::Float(*n),
        Value::String(s) => CoreValue::String(s.clone()),
        Value::Array(items) => {
            let mut out: Vec<CoreValue> = Vec::new();
            let mut i: usize = 0;
            while i < items.len()
                invariant
                    *v == Value::Array(*items),
                    i <= items@.len(),
                    out@.len() == i,
                    forall|j: int| 0 <= j < i ==> #[trigger] out@[j].model() == literal_model(items@[j]),
                decreases items@.len() - i,
            {
                proof {
                    let vv = v->Array_0;
                    vstd::std_specs::vec::axiom_vec_index_decreases(vv, i as int);
                    assert(decreases_to!(*v => vv));
                    assert(decreases_to!(*v => vv[i as int]));
                }
                out.push(literal_to_value(&items[i]));
                i = i + 1;
            }
            let r = CoreValue::Array(out);
            proof {
                let expected = literal_model(*v)->Array_0;
                assert(expected.len() == out@.len());
                assert forall|j: int| 0 <= j < out@.len() implies crate::value::models_of(out@)[j]
                    == expected[j] by {
                    assert(crate::value::models_of(out@)[j] == out@[j].model());
                }
                assert(crate::value::models_of(out@) =~= expected);
                assert(r.model() == literal_model(*v));
            }
            r
        },
        Value::Object(pairs) => {
            let mut m = ValueMap::new();
            let mut i: usize = 0;
            while i < pairs.len()
                invariant
                    *v == Value::Object(*pairs),
                    i <= pairs@.len(),
                    m.model() == pairs_model(pairs@.take(i as int)),
                decreases pairs@.len() - i,
            {
                proof {
                    let vv = v->Object_0;
                    vstd::std_specs::vec::axiom_vec_index_decreases(vv, i as int);
                    assert(decreases_to!(*v => vv));
                    assert(decreases_to!(*v => vv[i as int].1));
                    assert(pairs@.take(i as int + 1).drop_last() =~= pairs@.take(i as int));
                }
                let item = literal_to_value(&pairs[i].1);
                m.insert(pairs[i].0.clone(), item);
                i = i + 1;
            }
            proof {
                assert(pairs@.take(i as int) =~= pairs@);
            }
            let r = CoreValue::Object(m);
            assert(r.model() == literal_model(*v));
            r
        },
    }
}

/// The configuration map that written entries denote.
fn pairs_to_map(pairs: &Vec<(String, Value)>) -> (m: ValueMap)
    ensures
        m.model() == pairs_model(pairs@),
{
    let mut m = ValueMap::new();
    let mut i: usize = 0;
    while i < pairs.len()
        invariant
            i <= pairs@.len(),
            m.model() == pairs_model(pairs@.take(i as int)),
        decreases pairs@.len() - i,
    {
        proof {
            assert(pairs@.take(i as int + 1).drop_last() =~= pairs@.take(i as int));
        }
        let item = literal_to_value(&pairs[i].1);
        m.insert(pairs[i].0.clone(), item);
        i = i + 1;
    }
    proof {
        assert(pairs@.take(i as int) =~= pairs@);
    }
    m
}

/// The graph node that a node definition describes.
pub fn node_def_to_node(node_def: &NodeDef) -> (n: Node)
    ensures
        n.id@ == node_def.id@,
        n.block_type@ == node_def.block_type@,
        n.config.model() == pairs_model(node_def.config@),
        n.position == node_def.position,
{
    Node {
        id: node_def.id.clone(),
        block_type: node_def.block_type.clone(),
        config: pairs_to_map(&node_def.config),
        position: node_def.position,
    }
}

/// The node ids of a flow, in order.
pub open spec fn flow_node_ids(flow: FlowDef) -> Seq<Seq<char>> {
    flow.nodes@.map_values(|n: NodeDef| n.id@)
}

/// The connections of a flow, as graph connections.
pub open spec fn flow_connections(flow: FlowDef) -> Seq<Connection> {
    flow.connections@.map_values(|c: ConnectionDef| def_connection(c))
}

/// The flow's node ids are distinct, its connections join its nodes, and they
/// form no cycle.
pub open spec fn flow_is_valid(flow: FlowDef) -> bool {
    &&& flow_node_ids(flow).no_duplicates()
    &&& endpoints_within(flow_node_ids(flow), flow_connections(flow))
    &&& is_dag(flow_connections(flow))
}

/// The graph a flow describes: its id is the flow's name, its name the
/// flow's description (empty when there is none), its nodes and connections
/// those of the flow in order. Conversion fails, with the graph's error, when
/// node ids repeat, when a connection names a missing node, or when the
/// connections form a cycle.
pub fn flow_to_graph(flow: &FlowDef) -> (r: Result<Graph, LangError>)
    ensures
        r is Ok <==> flow_is_valid(*flow),
        match r {
            Ok(g) => {
                &&& g.header().0@ == flow.name@
                &&& g.header().1@ == match flow.description {
                    Some(d) => d@,
                    None => Seq::<char>::empty(),
                }
                &&& g.header().2 is None
                &&& g.node_ids() == flow_node_ids(*flow)
                &&& g.connection_seq() == flow_connections(*flow)
            },
            Err(e) => e is ValidationError,
        },
{
    let label = match &flow.description {
        Some(d) => d.clone(),
        None => String::new(),
    };
    let mut graph = Graph::new(flow.name.clone(), label);
    let mut i: usize = 0;
    while i < flow.nodes.len()
        invariant
            i <= flow.nodes@.len(),
            graph.header().0@ == flow.name@,
            graph.header().1@ == match flow.description {
                Some(d) => d@,
                None => Seq::<char>::empty(),
            },
            graph.header().2 is None,
            graph.node_ids() == flow_node_ids(*flow).take(i as int),
            graph.connection_seq() == Seq::<Connection>::empty(),
        decreases flow.nodes@.len() - i,
    {
        let node = node_def_to_node(&flow.nodes[i]);
        let ghost before = graph.node_seq();
        let ghost node_copy = node;
        match graph.add_node(node) {
            Ok(()) => {},
            Err(e) => {
                proof {
                    let ids = flow_node_ids(*flow);
                    assert(ids_of(before).contains(node_copy.id@));
                    let p = choose|p: int| 0 <= p < ids_of(before).len() && ids_of(before)[p] == node_copy.id@;
                    assert(ids[p] == ids.take(i as int)[p]);
                    assert(ids[i as int] == node_copy.id@);
                }
                return Err(LangError::ValidationError(e));
            },
        }
        proof {
            assert(graph.node_seq() == before.push(node_copy));
            assert(graph.node_ids() =~= ids_of(before).push(node_copy.id@));
            assert(flow_node_ids(*flow).take(i as int + 1) =~= flow_node_ids(*flow).take(i as int).push(flow.nodes@[i as int].id@));
            assert(graph.node_ids() =~= flow_node_ids(*flow).take(i as int + 1));
        }
        i = i + 1;
    }
    proof {
        assert(flow_node_ids(*flow).take(i as int) =~= flow_node_ids(*flow));
        use_type_invariant(&graph);
        graph.lemma_well_formed();
    }
    let mut j: usize = 0;
    while j < flow.connections.len()
        invariant
            j <= flow.connections@.len(),
            graph.header().0@ == flow.name@,
            graph.header().1@ == match flow.description {
                Some(d) => d@,
                None => Seq::<char>::empty(),
            },
            graph.header().2 is None,
            graph.node_ids() == flow_node_ids(*flow),
            flow_node_ids(*flow).no_duplicates(),
            graph.connection_seq() == flow_connections(*flow).take(j as int),
        decreases flow.connections@.len() - j,
    {
        let c = connection_def_to_connection(&flow.connections[j]);
        let ghost before = graph.connection_seq();
        let ghost c_copy = c;
        let ghost ids = graph.node_ids();
        let ghost all = flow_connections(*flow);
        proof {
            assert(c_copy == all[j as int]);
            assert(all.take(j as int + 1) =~= before.push(c_copy));
        }
        match graph.add_connection(c) {
            Ok(()) => {},
            Err(e) => {
                proof {
                    if flow_is_valid(*flow) {
                        assert(ids.contains(all[j as int].from_node@));
                        assert(ids.contains(all[j as int].to_node@));
                        crate::graph::lemma_dag_prefix(all, j as int + 1);
                    }
                }
                return Err(LangError::ValidationError(e));
            },
        }
        proof {
            assert(graph.connection_seq() =~= flow_connections(*flow).take(j as int + 1));
        }
        j = j + 1;
    }
    proof {
        assert(flow_connections(*flow).take(j as int) =~= flow_connections(*flow));
        use_type_invariant(&graph);
        graph.lemma_well_formed();
    }
    Ok(graph)
}

} // verus!
