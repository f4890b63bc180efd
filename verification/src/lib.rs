//! Static call graphs for Python programs: the graph model, name scopes,
//! symbol interning, method resolution order, graph queries and renderers.

pub mod analyzer;
pub mod intern;
pub mod json;
pub mod node;
pub mod order;
pub mod paths;
pub mod pyast;
pub mod query;
pub mod query_text;
pub mod scope;
pub mod search;
pub mod text;
pub mod visgraph;
pub mod writer;
