//! Core logic of a control panel that supervises a screen-mirroring process
//! for devices reachable over a debug bridge: tokenizing and filtering raw
//! argument strings, resolving per-device configuration entries, and
//! reconciling the live device list against the current selection on every
//! polling tick.
//!
//! All text is handled as byte strings (`Vec<u8>` / `Seq<u8>`); the host
//! shell converts to and from `String` at its own boundary.

pub mod config;
pub mod devices;
pub mod normalize;
pub mod session;
pub mod supervisor;
pub mod tokens;
