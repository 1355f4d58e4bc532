//! A partitioned symbolic model checker: decides whether every infinite
//! execution of a finite-state transition system satisfies a temporal
//! property, by computing reachable sets and fair-cycle sets per state of a
//! Büchi automaton and testing their intersection for emptiness.

pub mod bdd;
pub mod automata;
pub mod command;
pub mod liveness;
pub mod ltl;
pub mod partitioned;
pub mod reachable;
pub mod safety;
pub mod slice;
pub mod trans;
pub mod util;
pub mod worker;
