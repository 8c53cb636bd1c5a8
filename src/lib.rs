//! Session core of a multi-server chat client: per-channel message
//! timelines, typing notifications, server addresses, the login sequence
//! and the registry of server connections.

pub mod messages;
pub mod typing;
pub mod addr;
pub mod login;
pub mod connections;
pub mod render;
