//! Multi-Paxos: the five roles of the protocol as verified state machines,
//! the ballot and p-value algebra they share, the wire form of their
//! messages, and the safety argument over a model of the whole cluster.
//!
//! Each role is a value that takes one message at a time and answers with
//! the effects the host has to carry out: messages to send, workers to
//! start, commands to hand to the application. Receiving, sending and
//! scheduling are the host's business.

pub mod acceptor;
pub mod ds;
pub mod env;
pub mod leader;
pub mod logger;
pub mod message;
pub mod proto;
pub mod pval;
pub mod replica;
pub mod safety;
pub mod text;
pub mod wire;
