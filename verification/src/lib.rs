//! Relay-point selection, firewall planning and settings logic for choosing
//! which Steam Datagram Relay points of presence the game may reach.

pub mod text;
pub mod codes;
pub mod data;
pub mod firewall;
pub mod protocol;
pub mod settings;
pub mod sdr;
pub mod map;
pub mod world;
pub mod status;
