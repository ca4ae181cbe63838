//! Tag-advance decision engine of a run-time infrastructure (RTI) that
//! coordinates a federation of reactive programs over a shared logical time.
//!
//! Each federate runs its reactions at logical tags. The RTI decides when a
//! federate may advance its logical time to a tag: not before it is known
//! that no federate upstream of it can still send it a message with an
//! earlier tag. It says so with a tag advance grant (TAG), or with a
//! provisional one (PTAG) on a cycle of connections without delay.
//!
//! The crate is the verified core of such an RTI:
//!
//! - [`tag`]: tags and intervals, and the saturating tag arithmetic;
//! - [`rti_common`]: the scheduling nodes and their registry;
//! - [`delay_graph`]: the connections as a graph, for the contracts only;
//! - [`min_delays`]: the least delays from the transitive upstream nodes,
//!   and the detection of cycles;
//! - [`decision`]: the decision on a grant;
//! - [`transitive`]: the transitive next event of a node;
//! - [`propagation`]: the steps that issue the grants after a report;
//! - [`history`]: what holds of whole runs of a propagation;
//! - [`progress`]: the proofs that every propagation ends and that its
//!   sweeps are complete.
//!
//! Sockets, clocks and threads live outside of it. A propagation tells its
//! caller when a grant has to be sent or the start-time message has to be
//! waited for, and goes on once the caller has done so.

pub mod decision;
pub mod delay_graph;
pub mod history;
pub mod min_delays;
pub mod progress;
pub mod propagation;
pub mod rti_common;
pub mod tag;
pub mod transitive;
