//! Signal tracking and input handling for a multi-channel CW receiver.
//!
//! The crate holds the decisions of the receiver: when a track is born, confirmed,
//! merged and closed, in which order events leave the engine, how a network packet is
//! taken apart, when a lost connection is given up. Sockets, files, clocks and
//! floating-point signal processing stay with the caller; what they yield comes in as
//! plain values, and what the receiver wants done goes out as plain values.

pub mod decimate;
pub mod doctor;
pub mod dyadic;
pub mod events;
pub mod hpsdr;
pub mod kiwi;
pub mod kiwi_handshake;
pub mod kiwi_wire;
pub mod level;
pub mod lifecycle;
pub mod listen;
pub mod manager;
pub mod manager_laws;
pub mod metis;
pub mod pace;
pub mod peak;
pub mod replay;
pub mod report;
pub mod soak;
pub mod soak_metrics;
pub mod track;
pub mod wav;
