//! The mobility reconnection scheduler of an experiment runner: a deterministic
//! rotation model of devices moving through zones (`rotation`), a schedule that
//! aggregates reconnect events by time offset (`schedule`), and the decisions of a
//! replay that sends each slot of a schedule at its deadline (`dispatch`). `tuples`
//! encodes and decodes the binary tuples of the input and output streams.

pub mod dispatch;
pub mod events;
pub mod rotation;
pub mod schedule;
pub mod tuples;
