//! Supervision of a backend worker process: the readiness handshake that
//! discovers the port the worker bound to, and the lifecycle that publishes
//! that port once and terminates the worker exactly once.
pub mod decimal;
pub mod handshake;
pub mod supervisor;
