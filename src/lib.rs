//! Operator compiler and patch graph of a visual audio patching environment.
//!
//! `compiler` turns an operator string such as `lowpass(440, 2)` into a unit
//! descriptor; `graph` holds the nodes, their connections and order ranks,
//! and runs the per-frame tick; `link` reads and writes link-type codes.

mod text;
pub mod link;
pub mod param;
pub mod compiler;
pub mod graph;

pub use compiler::{compile_chars, str_to_net, Form, Unit};
pub use graph::{Graph, Hole, Node, Step, Wire};
pub use link::{lt_to_string, str_to_lt};
pub use param::{parse_with_constants, NamedConst, Param, ParamError};
