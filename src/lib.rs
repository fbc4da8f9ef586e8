//! Converts an interactive-fiction diagram (nodes, ports and edges) into an
//! ink script: one knot per text node, with its labelled choices.
pub mod backend;

pub use backend::{
    Asset, Attachment, Diagram, Edge, EdgeId, Group, Node, NodeContext, NodeId, NodeKind, Port,
    PortId, PortType, Response, StoryId, Variable,
};
pub mod ink;

pub use ink::{Knot, KnotName, Story};
pub mod convert;

pub use convert::{char_count_less_than, instory_to_ink, temp_knot_name, BuildError};
