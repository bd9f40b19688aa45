//! Rename a set of files to the shortest zero-padded numeric names that
//! preserve a deterministic order.
//!
//! The library holds the pure core of the tool: the argument grammar
//! ([`args`]), decimal digit counting, formatting and parsing ([`digits`]),
//! the canonical-path ordering ([`order`]), and the construction of the
//! rename plan in its collision-avoiding execution order ([`plan`]).
//! Everything that touches the filesystem (existence checks,
//! canonicalization, the rename calls themselves) stays outside and hands
//! this library plain byte strings.

pub mod args;
pub mod digits;
pub mod order;
pub mod plan;
