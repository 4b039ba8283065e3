//! Control-flow and collection helpers with verified contracts:
//! deferred cleanup that runs last-in-first-out when a scope ends,
//! comprehensions over one or more ranges, one function applied to many
//! mutable bindings, a switch with a mandatory default, and conditional
//! selection that evaluates only the chosen branch.

pub mod apply;
pub mod comprehension;
pub mod defer;
pub mod product;
pub mod select;
pub mod shape;
pub mod switch;
