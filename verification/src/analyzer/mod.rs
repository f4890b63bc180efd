//! The call-graph analyzer: builds defines and uses edges between the
//! symbols of Python modules.

pub mod binding;
pub mod graph;
pub mod modgraph;
pub mod mro;
pub mod postprocess;
pub mod pipeline;
pub mod prepass;
pub mod resolution;
pub mod session;
pub mod state;
pub mod util;
pub mod visit;
