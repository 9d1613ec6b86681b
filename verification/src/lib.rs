//! A reverse-mode automatic-differentiation engine over scalar values.
//!
//! The heart of the crate is a computation graph: an arena of nodes, each
//! holding a scalar value and a record of the operation that produced it.
//! A depth-first topological sort and a backward pass compute the partial
//! derivative of a root node with respect to every node it depends on.
//!
//! Scalars are exact Q31.32 fixed-point numbers carried in `i64`, so every
//! arithmetic step has a precise mathematical meaning and the gradient laws
//! (additivity, the product rule, the tanh derivative, gradient accumulation
//! over shared subexpressions) are proved, not just tested.
//!
//! Alongside the engine sit a few small client-side records — assistant and
//! thread identifiers, a chat transcript, a currency table, a command
//! parser — each with its own contract; the I/O that surrounds them stays
//! outside the verified library.

pub mod assistant;
pub mod buddy;
pub mod command;
pub mod conversation;
pub mod currency;
pub mod files;
pub mod fixed;
pub mod graph;
pub mod laws;

