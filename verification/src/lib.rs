//! Core of a fan-control application: a user-edited dependency graph of
//! computation nodes (sensor reads, transforms, actuator controls) that is
//! validated and evaluated once per control tick.
//!
//! The engine itself performs no I/O: sensor readings come in as plain
//! values, and actuator effects go out as a list of commands for the
//! caller to perform on the hardware.

pub mod cli;
pub mod hardware;
pub mod node;
pub mod update;
