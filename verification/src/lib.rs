//! Remote-display session protocol: a server renders a UI once per due tick
//! and streams projected meshes to thin viewers, while viewer input is
//! coalesced between ticks. Times are nanoseconds on a monotonic server
//! clock; float-valued fields travel as their exact bit patterns.

pub mod geometry;
pub mod input;
pub mod messages;
pub mod codec;
pub mod wire_laws;
pub mod session;
pub mod server;
pub mod client;
