//! Bootstrap and coordination core of a distributed, partitioned graph query
//! executor.
//!
//! A cluster of worker processes serves one graph, each process a disjoint
//! share of its partitions. Before a process answers queries it has to learn
//! its settings, agree with the others on who owns which partition, and
//! publish the outcome where every query thread finds it.
//!
//! - [`config`] reads the settings of a process out of a properties text.
//! - [`protocol`] decides the assignment from what the collective jobs of the
//!   dataflow engine delivered; [`assignment`] says what that assignment is
//!   and [`laws`] what holds of it.
//! - [`bootstrap`] ties the two steps of the protocol together and publishes
//!   the result.
//! - [`registry`] is the state that the threads of a process share.
//! - [`graph`] is the interface between the query layer and a storage
//!   backend.

pub mod assignment;
pub mod bootstrap;
pub mod config;
pub mod error;
pub mod graph;
pub mod laws;
pub mod protocol;
pub mod registry;
pub mod text;
