//! Dominating sets for interval-like posets given by their cover relation.
//!
//! The computation runs in stages, each in a module of its own:
//!
//! - [`preprocessing`] turns the cover edges into linked up-sets and
//!   down-sets and a symmetric adjacency mapping;
//! - [`resolve`] follows the links and flattens every linked set into a
//!   canonical set of element ids;
//! - [`rank`] numbers the distinct canonical sets by size, which gives every
//!   element an interval (see [`interval::Interval::new`]);
//! - [`coloring`] colours the intervals greedily into chains;
//! - [`dominate`] selects a dominating set from the chains and the adjacency
//!   mapping.
//!
//! [`solve::dominating_set`] runs all stages on a list of edges, and
//! [`poset`] states what the stages compute over the edges alone. [`text`]
//! reads edges from their text form.
//!
//! Element ids are `u64`. Edge lists that keep their ids within one byte
//! (0 to 255) are a special case and need no conversion.
pub mod collect;
pub mod coloring;
pub mod dominate;
pub mod interval;
pub mod order;
pub mod poset;
pub mod preprocessing;
pub mod rank;
pub mod resolve;
pub mod solve;
pub mod text;
