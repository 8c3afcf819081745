//! A simulator for a network of named wires connected by bitwise logic gates.
//!
//! A circuit is assembled from a flat list of wire definitions, each possibly
//! referencing other wires by name and in arbitrary order.  Assembly links
//! every textual reference to a direct handle (an arena index); the signal of
//! any wire is then computed on demand by a memoized recursive evaluator, and
//! a wire's source can be overridden at run time, invalidating every cache.

pub mod circuit;
pub mod eval;
pub mod parse;
pub mod resolve;
pub mod semantics;
pub mod theory;
pub mod wires;

pub use circuit::Circuit;
pub use wires::Connection;
pub use wires::Gate;
pub use wires::Input;
pub use wires::Wire;
