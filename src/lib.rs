//! A markup template renderer driven by a caller-supplied stream of filler
//! text and control-flow decisions.
//!
//! Templates are compiled once into a jump-resolved instruction list
//! ([`resolve::resolve`]), then interpreted in lockstep with an input channel
//! ([`context::print_xml_file`]).
pub mod model;
pub mod registry;
pub mod loader;
pub mod resolve;
pub mod interp;
pub mod context;
pub mod laws;

pub use context::{Context, new, add_filler_text, add_control_flow, compile, print_xml_file};

pub use model::{Attribute, ControlFlow, Input, Node, TemplateError};
