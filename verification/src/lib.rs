//! Turns a delimited X12 transaction into a nested tree of keys and values.
//!
//! The shape of the tree is not fixed per message type: a grammar, given at
//! run time, says which segments belong under which loop and which entries
//! are single objects or lists. `tokenizer` splits the text into segments,
//! `schema` names the grammar that a message asks for, `grammar` holds a
//! grammar, `assembly` builds tree nodes and `matcher` walks the segments
//! against the grammar; `matching` says what a match is. `json` says what
//! the tree, held in JSON values, contains.

pub mod assembly;
pub mod error;
pub mod grammar;
pub mod json;
pub mod matcher;
pub mod matching;
pub mod schema;
pub mod text;
pub mod tokenizer;

pub use assembly::{build_message, make_segment};
pub use error::X12Error;
pub use grammar::{
    default_bool, default_max, default_val, ElementKind, SchemaCollection, SchemaElement,
    SchemaLoop, SchemaMessage,
};
pub use json::Node;
pub use matcher::{parse_message, parse_message_within, segment_matches, MAX_NESTING_DEPTH};
pub use schema::{get_msg_schema, get_schema_for_msg, schema_name_for_msg, take_root};
pub use tokenizer::prepare_segments;
