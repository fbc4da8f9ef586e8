//! Records of a story diagram as the authoring backend delivers it, and the
//! query that resolves a node's choices through ports and edges.
use vstd::prelude::*;

verus! {

/// The identifier of a story on the authoring backend.
#[derive(Clone, Copy, Debug, PartialEq, Eq, Structural, Hash)]
pub struct StoryId(pub u32);

/// A node identifier: the 128 bits of the backend's UUID.
#[derive(Clone, Copy, Debug, PartialEq, Eq, Structural, Hash)]
pub struct NodeId(pub u128);

/// A port identifier: the 128 bits of the backend's UUID.
#[derive(Clone, Copy, Debug, PartialEq, Eq, Structural, Hash)]
pub struct PortId(pub u128);

/// An edge identifier: the 128 bits of the backend's UUID.
#[derive(Clone, Copy, Debug, PartialEq, Eq, Structural, Hash)]
pub struct EdgeId(pub u128);

/// A story variable; carried through, never consulted.
#[derive(Clone, Copy, Debug)]
pub struct Variable;

/// A story attachment; carried through, never consulted.
#[derive(Clone, Copy, Debug)]
pub struct Attachment;

/// A group of nodes; carried through, never consulted.
#[derive(Clone, Copy, Debug)]
pub struct Group;

/// A media asset referenced by a node.
#[derive(Clone, Debug)]
pub struct Asset {
    /// The 128 bits of the asset's UUID.
    pub id: u128,
    pub url: String,
}

/// The direction of a port.
#[derive(Clone, Copy, Debug, PartialEq, Eq, Structural)]
pub enum PortType {
    Out,
    In,
}

/// A connection point of a node. The name of an outgoing port is the label of
/// the choice it starts.
#[derive(Clone, Debug)]
pub struct Port {
    pub id: PortId,
    pub name: String,
    pub port_type: PortType,
    pub position: u32,
    pub node_id: NodeId,
}

/// The payload of a text node.
#[derive(Clone, Debug)]
pub struct NodeContext {
    pub text: String,
    pub timeout: u32,
    pub timeout_unit: String,
    pub timeout_port_id: String,
}

/// What a node holds.
#[derive(Clone, Debug)]
pub enum NodeKind {
    Start,
    TextChoice { context: Option<NodeContext> },
}

/// A vertex of the diagram.
#[derive(Clone, Debug)]
pub struct Node {
    pub id: NodeId,
    pub kind: NodeKind,
    pub title: String,
    pub x: i32,
    pub y: i32,
    pub story_id: StoryId,
    pub background: Asset,
    pub audio: Asset,
    pub ports: Vec<Port>,
}

/// A directed connection from an outgoing port to an incoming one. Only the
/// two port identifiers matter to the traversal.
#[derive(Clone, Debug)]
pub struct Edge {
    pub id: EdgeId,
    pub source: Port,
    pub source_id: PortId,
    pub target: Port,
    pub target_id: PortId,
}

/// The whole story graph.
#[derive(Clone, Debug)]
pub struct Diagram {
    pub variables: Vec<Variable>,
    pub attachments: Vec<Attachment>,
    pub nodes: Vec<Node>,
    pub edges: Vec<Edge>,
    pub groups: Vec<Group>,
}

/// The envelope in which the backend sends a payload.
#[derive(Clone, Debug)]
pub struct Response<T> {
    pub status: bool,
    pub data: T,
}

/// The label that a list of (port, label) pairs gives to `id`: the last pair
/// for that port wins.
pub open spec fn lookup_last(pairs: Seq<(PortId, Seq<char>)>, id: PortId) -> Option<Seq<char>>
    decreases pairs.len(),
{
    if pairs.len() == 0 {
        None
    } else if pairs.last().0 == id {
        Some(pairs.last().1)
    } else {
        lookup_last(pairs.drop_last(), id)
    }
}

/// The outgoing ports of a port list, each with its label, in port order.
pub open spec fn out_pairs(ports: Seq<Port>) -> Seq<(PortId, Seq<char>)>
    decreases ports.len(),
{
    if ports.len() == 0 {
        Seq::empty()
    } else {
        let rest = out_pairs(ports.drop_last());
        let p = ports.last();
        if p.port_type == PortType::Out {
            rest.push((p.id, p.name@))
        } else {
            rest
        }
    }
}

/// For each edge, in edge order, that leaves one of the ports in `outs`: its
/// target port with the label of its source port.
pub open spec fn in_pairs(outs: Seq<(PortId, Seq<char>)>, edges: Seq<Edge>) -> Seq<(PortId, Seq<char>)>
    decreases edges.len(),
{
    if edges.len() == 0 {
        Seq::empty()
    } else {
        let rest = in_pairs(outs, edges.drop_last());
        let e = edges.last();
        match lookup_last(outs, e.source_id) {
            Some(label) => rest.push((e.target_id, label)),
            None => rest,
        }
    }
}

/// The (label, node index) pairs given by the ports of node `j` that appear
/// in `ins`, in port order.
pub open spec fn node_hits(ins: Seq<(PortId, Seq<char>)>, ports: Seq<Port>, j: int) -> Seq<(Seq<char>, int)>
    decreases ports.len(),
{
    if ports.len() == 0 {
        Seq::empty()
    } else {
        let rest = node_hits(ins, ports.drop_last(), j);
        match lookup_last(ins, ports.last().id) {
            Some(label) => rest.push((label, j)),
            None => rest,
        }
    }
}

/// The hits of the first `m` nodes, in node order, then port order.
pub open spec fn hits_upto(ins: Seq<(PortId, Seq<char>)>, nodes: Seq<Node>, m: int) -> Seq<(Seq<char>, int)>
    decreases m,
{
    if m <= 0 {
        Seq::empty()
    } else {
        hits_upto(ins, nodes, m - 1) + node_hits(ins, nodes[m - 1].ports@, m - 1)
    }
}

/// A list of (port, label) pairs seen as values.
pub open spec fn pairs_view(ps: Seq<(PortId, String)>) -> Seq<(PortId, Seq<char>)> {
    ps.map_values(|x: (PortId, String)| (x.0, x.1@))
}

/// A list of (label, node position) pairs seen as values.
pub open spec fn hits_view(hs: Seq<(String, usize)>) -> Seq<(Seq<char>, int)> {
    hs.map_values(|x: (String, usize)| (x.0@, x.1 as int))
}

/// The outgoing ports of `ports` with their labels.
fn collect_out_pairs(ports: &Vec<Port>) -> (r: Vec<(PortId, String)>)
    ensures
        pairs_view(r@) == out_pairs(ports@),
{
    let mut r: Vec<(PortId, String)> = Vec::new();
    let mut i: usize = 0;
    while i < ports.len()
        invariant
            i <= ports@.len(),
            pairs_view(r@) == out_pairs(ports@.take(i as int)),
        decreases ports@.len() - i,
    {
        assert(ports@.take(i as int + 1).drop_last() == ports@.take(i as int));
        let p = &ports[i];
        match p.port_type {
            PortType::Out => {
                let ghost r0 = r@;
                r.push((p.id, p.name.clone()));
                assert(pairs_view(r@) =~= pairs_view(r0).push((p.id, p.name@)));
            },
            PortType::In => {},
        }
        i = i + 1;
    }
    assert(ports@.take(ports@.len() as int) == ports@);
    r
}

/// The label of the last pair for `id`, if any.
fn find_last(pairs: &Vec<(PortId, String)>, id: PortId) -> (r: Option<String>)
    ensures
        match r {
            Some(label) => lookup_last(pairs_view(pairs@), id) == Some(label@),
            None => lookup_last(pairs_view(pairs@), id) is None,
        },
{
    let mut i: usize = pairs.len();
    assert(pairs@.take(i as int) =~= pairs@);
    while i > 0
        invariant
            i <= pairs@.len(),
            lookup_last(pairs_view(pairs@), id) == lookup_last(pairs_view(pairs@.take(i as int)), id),
        decreases i,
    {
        assert(pairs_view(pairs@.take(i as int)).drop_last() =~= pairs_view(pairs@.take(i - 1)));
        if pairs[i - 1].0 == id {
            return Some(pairs[i - 1].1.clone());
        }
        i = i - 1;
    }
    None
}

/// The targets of the edges that leave a port of `outs`, each with its label.
fn collect_in_pairs(outs: &Vec<(PortId, String)>, edges: &Vec<Edge>) -> (r: Vec<(PortId, String)>)
    ensures
        pairs_view(r@) == in_pairs(pairs_view(outs@), edges@),
{
    let mut r: Vec<(PortId, String)> = Vec::new();
    let mut i: usize = 0;
    while i < edges.len()
        invariant
            i <= edges@.len(),
            pairs_view(r@) == in_pairs(pairs_view(outs@), edges@.take(i as int)),
        decreases edges@.len() - i,
    {
        assert(edges@.take(i as int + 1).drop_last() == edges@.take(i as int));
        let e = &edges[i];
        match find_last(outs, e.source_id) {
            Some(label) => {
                let ghost r0 = r@;
                r.push((e.target_id, label));
                assert(pairs_view(r@) =~= pairs_view(r0).push((e.target_id, label@)));
            },
            None => {},
        }
        i = i + 1;
    }
    assert(edges@.take(edges@.len() as int) == edges@);
    r
}

impl Diagram {
    /// The choices of a node with the given ports: each (label, index of the
    /// destination node in `nodes`).
    pub open spec fn choices_of(&self, ports: Seq<Port>) -> Seq<(Seq<char>, int)> {
        hits_upto(in_pairs(out_pairs(ports), self.edges@), self.nodes@, self.nodes@.len() as int)
    }

    /// Resolves the choices of `node`: each outgoing port of `node`, followed
    /// along the edges that leave it, to every port that those edges enter.
    /// Each result is the label of the outgoing port and the position in
    /// `nodes` of the node that owns the entered port; results come in node
    /// order, then port order. Where several edges enter one port, the last
    /// edge wins.
    pub fn choices(&self, node: &Node) -> (r: Vec<(String, usize)>)
        ensures
            hits_view(r@) == self.choices_of(node.ports@),
    {
        let outs = collect_out_pairs(&node.ports);
        let ins = collect_in_pairs(&outs, &self.edges);
        let ghost ins_v = pairs_view(ins@);
        let mut r: Vec<(String, usize)> = Vec::new();
        let mut j: usize = 0;
        while j < self.nodes.len()
            invariant
                j <= self.nodes@.len(),
                ins_v == in_pairs(out_pairs(node.ports@), self.edges@),
                ins_v == pairs_view(ins@),
                hits_view(r@) == hits_upto(ins_v, self.nodes@, j as int),
            decreases self.nodes@.len() - j,
        {
            let ports = &self.nodes[j].ports;
            let mut p: usize = 0;
            let ghost before = hits_view(r@);
            while p < ports.len()
                invariant
                    j < self.nodes@.len(),
                    ports == &self.nodes@[j as int].ports,
                    p <= ports@.len(),
                    ins_v == pairs_view(ins@),
                    hits_view(r@) == before + node_hits(ins_v, ports@.take(p as int), j as int),
                decreases ports@.len() - p,
            {
                assert(ports@.take(p as int + 1).drop_last() == ports@.take(p as int));
                match find_last(&ins, ports[p].id) {
                    Some(label) => {
                        let ghost r0 = r@;
                        r.push((label, j));
                        assert(hits_view(r@) =~= hits_view(r0).push((label@, j as int)));
                    },
                    None => {},
                }
                p = p + 1;
            }
            assert(ports@.take(ports@.len() as int) == ports@);
            j = j + 1;
        }
        r
    }
}

} // verus!
