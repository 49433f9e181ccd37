//! Networking: the messages two endpoints exchange, the layout of input frames on the wire
//! and the endpoint that drives a connection.

pub mod messages;
pub mod protocol;
