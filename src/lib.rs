//! Search engine for the "reach the goal" number puzzle: building blocks of
//! expressions over a fixed set of numbers, their scores, the fixed tree shapes
//! the search enumerates, and the bookkeeping of the meet-in-the-middle join.
pub mod atom;
pub mod func;
pub mod func_list;
pub mod inputs;
pub mod joiner;
pub mod necessity;
pub mod operation;
pub mod score;
pub mod shapes;
pub mod split;
pub mod tree;

