//! A decision procedure for NetKAT over binary packet fields, with `dup` and
//! the operators of linear temporal logic on packet histories.
//!
//! - `relation`: the model of a symbolic packet program, a relation on
//!   packets, and its algebra; `laws`: the laws of that algebra.
//! - `spp`: the store of symbolic packet programs, hash-consed quaternary
//!   decision diagrams with memoized operators; `sp`: the store of symbolic
//!   packets, sets of packets as binary decision diagrams; `handles`: the
//!   laws as equations between the handles of a store.
//! - `expr`: expressions; `syntax`: their text, read and written;
//!   `semantics`: the traces that an expression denotes; `axioms` and
//!   `equations`: the laws that hold of them.
//! - `derivative`, `simplify`, `aut`, `explore`: the symbolic automaton of an
//!   expression and the decision of emptiness, equivalence and containment;
//!   `count`: the number of pairs of packets, which bounds what an
//!   exploration costs.
//! - `fuzz`: random pairs of expressions that are equal, or ordered, by
//!   construction; `soundness`: the proof that they are; `random`: the source
//!   of randomness; `reduce`: the reduction of an expression that fails.

pub mod aut;
pub mod axioms;
pub mod count;
pub mod derivative;
pub mod equations;
pub mod explore;
pub mod expr;
pub mod fuzz;
pub mod handles;
pub mod laws;
pub mod random;
pub mod reduce;
pub mod relation;
pub mod semantics;
pub mod simplify;
pub mod soundness;
pub mod sp;
pub mod spp;
pub mod syntax;
