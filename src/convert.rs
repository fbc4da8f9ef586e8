//! Builds the ink story of a diagram: finds the entry knot, names each text
//! node after its identifier and turns it into a knot.
use vstd::prelude::*;
use crate::backend::{hits_upto, hits_view, node_hits, Diagram, Node, NodeId, NodeKind};
use crate::ink::{insert_entry, names_unique, story_text, Entries, Knot, KnotName, Story};

verus! {

/// Why a diagram could not be turned into a story.
#[derive(Clone, Copy, Debug, PartialEq, Eq, Structural)]
pub enum BuildError {
    /// No node is the start node.
    MissingStartNode,
    /// The start node's choices lead nowhere.
    StartNodeHasNoChildren,
    /// A text node has no text payload.
    MissingTextContext,
}

/// The `n` lowest hex digits of `v`, lowercase, most significant first.
pub open spec fn hex_of(v: nat, n: nat) -> Seq<char>
    decreases n,
{
    if n == 0 {
        Seq::empty()
    } else {
        hex_of(v / 16, (n - 1) as nat).push("0123456789abcdef"@[(v % 16) as int])
    }
}

/// Relies on uuid's `Uuid::from_u128`, which reads the value in big-endian
/// order, and on the `Display` of `Uuid::simple`, which writes the 16 bytes
/// as 32 lowercase hex digits.
#[verifier::external_body]
fn uuid_simple(v: u128) -> (r: String)
    ensures
        r@ == hex_of(v as nat, 32),
{
    uuid::Uuid::from_u128(v).simple().to_string()
}

/// The name of a node: `start` for the start node, else `knot_` and the 32
/// hex digits of its identifier.
pub open spec fn knot_name_of(node: Node) -> Seq<char> {
    match node.kind {
        NodeKind::Start => "start"@,
        NodeKind::TextChoice { .. } => "knot_"@ + hex_of(node.id.0 as nat, 32),
    }
}

/// Names a node after its identifier alone, so that equal diagrams give
/// equal names.
pub fn temp_knot_name(node: &Node) -> (r: KnotName)
    ensures
        r@ == knot_name_of(*node),
{
    match &node.kind {
        NodeKind::Start => KnotName(String::from_str("start")),
        NodeKind::TextChoice { .. } => {
            let mut s = String::from_str("knot_");
            let hex = uuid_simple(node.id.0);
            s.append(hex.as_str());
            KnotName(s)
        },
    }
}

/// Adds the characters of `s` to the running `count` and tells whether the
/// total is still below `n`.
pub fn char_count_less_than(n: usize, count: &mut usize, s: &String) -> (r: bool)
    requires
        *old(count) + s@.len() <= usize::MAX,
    ensures
        *final(count) == *old(count) + s@.len(),
        r == (*final(count) < n),
{
    *count = *count + s.as_str().unicode_len();
    *count < n
}

/// The position of the first start node, or -1.
pub open spec fn start_index(nodes: Seq<Node>) -> int
    decreases nodes.len(),
{
    if nodes.len() == 0 {
        -1
    } else {
        let r = start_index(nodes.drop_last());
        if r >= 0 {
            r
        } else if nodes.last().kind is Start {
            nodes.len() - 1
        } else {
            -1
        }
    }
}

/// What `start_index` gives: -1 if no node is a start node, else the first
/// one that is.
pub proof fn lemma_start_index(nodes: Seq<Node>)
    ensures
        -1 <= start_index(nodes) < nodes.len(),
        start_index(nodes) == -1 <==> forall|k: int| 0 <= k < nodes.len() ==> !(nodes[k].kind is Start),
        start_index(nodes) >= 0 ==> nodes[start_index(nodes)].kind is Start && forall|k: int|
            0 <= k < start_index(nodes) ==> !(nodes[k].kind is Start),
    decreases nodes.len(),
{
    if nodes.len() > 0 {
        lemma_start_index(nodes.drop_last());
        assert forall|k: int| 0 <= k < nodes.len() - 1 implies nodes.drop_last()[k] == nodes[k] by {}
    }
}

/// The destinations that `hits_upto` gives are nodes among the first `m`.
proof fn lemma_hits_in_range(ins: Seq<(crate::backend::PortId, Seq<char>)>, nodes: Seq<Node>, m: int)
    requires
        m <= nodes.len(),
    ensures
        forall|k: int|
            0 <= k < hits_upto(ins, nodes, m).len() ==> 0 <= (#[trigger] hits_upto(ins, nodes, m)[k]).1 < m,
    decreases m,
{
    if m > 0 {
        lemma_hits_in_range(ins, nodes, m - 1);
        lemma_node_hits(ins, nodes[m - 1].ports@, m - 1);
        let a = hits_upto(ins, nodes, m - 1);
        let b = node_hits(ins, nodes[m - 1].ports@, m - 1);
        assert forall|k: int| 0 <= k < (a + b).len() implies 0 <= (#[trigger] (a + b)[k]).1 < m by {
            if k >= a.len() {
                assert((a + b)[k] == b[k - a.len()]);
            }
        }
    }
}

/// Every hit of a node's ports names that node.
proof fn lemma_node_hits(ins: Seq<(crate::backend::PortId, Seq<char>)>, ports: Seq<crate::backend::Port>, j: int)
    ensures
        forall|k: int| 0 <= k < node_hits(ins, ports, j).len() ==> (#[trigger] node_hits(ins, ports, j)[k]).1 == j,
    decreases ports.len(),
{
    if ports.len() > 0 {
        lemma_node_hits(ins, ports.drop_last(), j);
        let rest = node_hits(ins, ports.drop_last(), j);
        if let Some(l) = crate::backend::lookup_last(ins, ports.last().id) {
            assert forall|k: int| 0 <= k < rest.len() + 1 implies (#[trigger] rest.push((l, j))[k]).1 == j by {
                if k < rest.len() {
                    assert(rest.push((l, j))[k] == rest[k]);
                }
            }
        }
    }
}

/// The choices of a node with `ports` lead to nodes of the diagram.
pub proof fn lemma_choices_in_range(d: Diagram, ports: Seq<crate::backend::Port>)
    ensures
        forall|k: int|
            0 <= k < d.choices_of(ports).len() ==> 0 <= (#[trigger] d.choices_of(ports)[k]).1 < d.nodes@.len(),
{
    lemma_hits_in_range(
        crate::backend::in_pairs(crate::backend::out_pairs(ports), d.edges@),
        d.nodes@,
        d.nodes@.len() as int,
    );
}

/// The choices of a node of `d` with destinations replaced by their names.
pub open spec fn named_choices(d: Diagram, ports: Seq<crate::backend::Port>) -> Seq<(Seq<char>, Seq<char>)> {
    d.choices_of(ports).map_values(|h: (Seq<char>, int)| (h.0, knot_name_of(d.nodes@[h.1])))
}

/// Every text node has its text payload.
pub open spec fn all_have_context(nodes: Seq<Node>) -> bool {
    forall|j: int| 0 <= j < nodes.len() ==> !(#[trigger] nodes[j].kind matches NodeKind::TextChoice { context: None })
}

/// The knots of the first `m` nodes: each text node, in node order, stored
/// under its name with its text and named choices.
pub open spec fn knots_upto(d: Diagram, m: int) -> Entries
    decreases m,
{
    if m <= 0 {
        Seq::empty()
    } else {
        let prev = knots_upto(d, m - 1);
        let node = d.nodes@[m - 1];
        match node.kind {
            NodeKind::TextChoice { context: Some(c) } => insert_entry(
                prev,
                knot_name_of(node),
                (c.text@, named_choices(d, node.ports@)),
            ),
            _ => prev,
        }
    }
}

/// The story of a diagram, or why there is none: no start node; a start
/// node whose choices lead nowhere; a text node without text. Otherwise the
/// story starts at the first destination of the start node's choices and
/// holds a knot for every text node, reachable or not.
pub open spec fn build_spec(d: Diagram) -> Result<(Seq<char>, Entries), BuildError> {
    let s = start_index(d.nodes@);
    if s < 0 {
        Err(BuildError::MissingStartNode)
    } else {
        let cs = d.choices_of(d.nodes@[s].ports@);
        if cs.len() == 0 {
            Err(BuildError::StartNodeHasNoChildren)
        } else if !all_have_context(d.nodes@) {
            Err(BuildError::MissingTextContext)
        } else {
            Ok((knot_name_of(d.nodes@[cs[0].1]), knots_upto(d, d.nodes@.len() as int)))
        }
    }
}

/// The knot of a text node: its text and its choices, each destination
/// named.
fn node_knot(diagram: &Diagram, node: &Node, text: &String) -> (r: Knot)
    ensures
        r@ == (text@, named_choices(*diagram, node.ports@)),
{
    let hits = diagram.choices(node);
    proof {
        lemma_choices_in_range(*diagram, node.ports@);
    }
    let ghost cs = diagram.choices_of(node.ports@);
    let mut choices: Vec<(String, KnotName)> = Vec::new();
    let mut k: usize = 0;
    while k < hits.len()
        invariant
            hits_view(hits@) == cs,
            cs == diagram.choices_of(node.ports@),
            forall|x: int| 0 <= x < cs.len() ==> 0 <= (#[trigger] cs[x]).1 < diagram.nodes@.len(),
            k <= hits@.len(),
            choices@.map_values(|c: (String, KnotName)| (c.0@, c.1@)) == named_choices(
                *diagram,
                node.ports@,
            ).take(k as int),
        decreases hits@.len() - k,
    {
        let ghost c0 = choices@;
        let ghost nc = named_choices(*diagram, node.ports@);
        assert(cs[k as int] == (hits@[k as int].0@, hits@[k as int].1 as int));
        let name = temp_knot_name(&diagram.nodes[hits[k].1]);
        let label = hits[k].0.clone();
        assert(nc[k as int] == (label@, name@));
        choices.push((label, name));
        assert(nc.take(k as int + 1) =~= nc.take(k as int).push(nc[k as int]));
        assert(choices@.map_values(|c: (String, KnotName)| (c.0@, c.1@)) =~= c0.map_values(
            |c: (String, KnotName)| (c.0@, c.1@),
        ).push((label@, name@)));
        k = k + 1;
    }
    let r = Knot { text: text.clone(), choices };
    assert(r@.1 =~= named_choices(*diagram, node.ports@));
    r
}

/// Converts a diagram into a story. Fails with `MissingStartNode` when no
/// node is a start node, with `StartNodeHasNoChildren` when the first start
/// node's choices lead nowhere, and with `MissingTextContext` when a text
/// node has no text. Otherwise the story starts at the name of the first
/// destination of the start node's choices and holds a knot for every text
/// node, no two of them under the same name.
pub fn instory_to_ink(diagram: &Diagram) -> (r: Result<Story, BuildError>)
    ensures
        match r {
            Ok(story) => build_spec(*diagram) == Ok::<_, BuildError>(story@),
            Err(e) => build_spec(*diagram) == Err::<(Seq<char>, Entries), _>(e),
        },
        r matches Ok(story) ==> names_unique(story@.1),
{
    proof {
        lemma_start_index(diagram.nodes@);
    }
    let n = diagram.nodes.len();
    let mut s: usize = 0;
    while s < n && !matches!(diagram.nodes[s].kind, NodeKind::Start)
        invariant
            n == diagram.nodes@.len(),
            s <= n,
            forall|k: int| 0 <= k < s ==> !(diagram.nodes@[k].kind is Start),
        decreases n - s,
    {
        s = s + 1;
    }
    if s == n {
        return Err(BuildError::MissingStartNode);
    }
    assert(s as int == start_index(diagram.nodes@));
    let first = diagram.choices(&diagram.nodes[s]);
    if first.len() == 0 {
        return Err(BuildError::StartNodeHasNoChildren);
    }
    proof {
        lemma_choices_in_range(*diagram, diagram.nodes@[s as int].ports@);
        assert(diagram.choices_of(diagram.nodes@[s as int].ports@)[0] == (
            first@[0].0@,
            first@[0].1 as int,
        ));
    }
    let mut story = Story::new(temp_knot_name(&diagram.nodes[first[0].1]));
    assert(names_unique(story@.1));
    let mut j: usize = 0;
    while j < n
        invariant
            n == diagram.nodes@.len(),
            j <= n,
            story@.1 == knots_upto(*diagram, j as int),
            names_unique(story@.1),
            s as int == start_index(diagram.nodes@),
            hits_view(first@) == diagram.choices_of(diagram.nodes@[s as int].ports@),
            first@.len() > 0,
            first@[0].1 < n,
            story@.0 == knot_name_of(diagram.nodes@[first@[0].1 as int]),
            forall|k: int| 0 <= k < j ==> !(#[trigger] diagram.nodes@[k].kind matches NodeKind::TextChoice { context: None }),
        decreases n - j,
    {
        let node = &diagram.nodes[j];
        match &node.kind {
            NodeKind::TextChoice { context: Some(c) } => {
                let knot = node_knot(diagram, node, &c.text);
                story.insert(temp_knot_name(node), knot);
            },
            NodeKind::TextChoice { context: None } => {
                assert(!all_have_context(diagram.nodes@));
                return Err(BuildError::MissingTextContext);
            },
            NodeKind::Start => {},
        }
        j = j + 1;
    }
    assert(all_have_context(diagram.nodes@));
    Ok(story)
}

/// A diagram with exactly one start node, whose choices reach at least one
/// text node, and whose text nodes all carry their text, builds; its story
/// starts at the name of the first destination of the start node's choices.
pub proof fn lemma_build_succeeds(d: Diagram)
    requires
        exists|s: int|
            0 <= s < d.nodes@.len() && (#[trigger] d.nodes@[s]).kind is Start && (forall|j: int|
                0 <= j < d.nodes@.len() && j != s ==> !(#[trigger] d.nodes@[j].kind is Start))
                && (exists|k: int|
                0 <= k < d.choices_of(d.nodes@[s].ports@).len()
                    && d.nodes@[(#[trigger] d.choices_of(d.nodes@[s].ports@)[k]).1].kind is TextChoice),
        all_have_context(d.nodes@),
    ensures
        build_spec(d) is Ok,
        forall|s: int|
            0 <= s < d.nodes@.len() && (#[trigger] d.nodes@[s]).kind is Start ==> build_spec(d)->Ok_0.0
                == knot_name_of(d.nodes@[d.choices_of(d.nodes@[s].ports@)[0].1]),
{
    let s = choose|s: int|
        0 <= s < d.nodes@.len() && (#[trigger] d.nodes@[s]).kind is Start && (forall|j: int|
            0 <= j < d.nodes@.len() && j != s ==> !(#[trigger] d.nodes@[j].kind is Start))
            && (exists|k: int|
            0 <= k < d.choices_of(d.nodes@[s].ports@).len()
                && d.nodes@[(#[trigger] d.choices_of(d.nodes@[s].ports@)[k]).1].kind is TextChoice);
    lemma_start_index(d.nodes@);
    let f = start_index(d.nodes@);
    if f != s {
        assert(!(d.nodes@[s].kind is Start));
    }
    assert(f == s);
    assert(d.choices_of(d.nodes@[s].ports@).len() > 0);
    assert forall|t: int| 0 <= t < d.nodes@.len() && (#[trigger] d.nodes@[t]).kind is Start implies t == s by {
        if t != s {
            assert(!(d.nodes@[t].kind is Start));
        }
    }
}

/// Building twice from the same diagram gives stories whose rendered texts
/// are identical.
pub proof fn lemma_build_deterministic(d: Diagram, a: Story, b: Story)
    requires
        build_spec(d) == Ok::<_, BuildError>(a@),
        build_spec(d) == Ok::<_, BuildError>(b@),
    ensures
        story_text(a@) == story_text(b@),
{
}

} // verus!
