//! Connection registry and message routing for a line-oriented chat relay.
//!
//! The library decides; the caller performs the network I/O. It assigns
//! client identities, classifies inbound lines as broadcasts or private
//! commands, plans which registered connections receive which outbound line,
//! and keeps the registry consistent when peers go away.

pub mod command;
pub mod registry;
pub mod router;
pub mod supervisor;
pub mod text;
