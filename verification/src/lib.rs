//! Infers a structural schema from example JSON documents: every document is
//! turned into a type, types are merged into the least specific type that
//! still describes all of them, and the result is laid out as a schema
//! document.

pub mod format;
pub mod model;
pub mod equality;
pub mod merge;
pub mod construct;
pub mod json;
pub mod generate;
pub mod render;
pub mod convert;
pub mod laws;
pub mod utils;
pub mod settings;

pub use construct::merge_hypothesis;
pub use format::{is_valid_date, is_valid_datetime, is_valid_time, is_valid_uuid};
pub use generate::generate;
pub use json::Json;
pub use merge::merge_node_type;
pub use model::Format as StringFormat;
pub use model::{
    AnyNode, ArrayNode, Format, IntegerNode, NodeType, NumberNode, ObjectNode, ObjectProperty,
    SchemaHypothesis, StringNode,
};
pub use render::{render, render_json_schema};
