//! Why a cluster is safe: a model of all its processes and messages, the
//! invariants the model keeps, and what follows from them.

pub mod acceptor_step;
pub mod agreement;
pub mod frame;
pub mod invariants;
pub mod leader_step;
pub mod model;
pub mod reach;
pub mod replica_step;
pub mod spawn;
pub mod worker_step;
