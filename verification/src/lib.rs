//! A mix node for a Mimblewimble chain: onion-routed coin-swap requests are
//! checked, peeled by one layer, stored, and gathered into rounds.
pub mod bytes;
pub mod crypto;
pub mod hex;
pub mod json;
pub mod onion;
pub mod round_trip;
pub mod secp;
pub mod sender;
pub mod server;
pub mod store;
pub mod types;
