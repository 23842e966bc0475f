//! Hearth: local network intelligence — the verified core.
#![verifier::loop_isolation(false)]
pub mod text;
pub mod net;
pub mod types;
pub mod store;
pub mod oui;
pub mod capture;
pub mod stats;
pub mod rules;
pub mod client;
pub mod dashboard;
pub mod config;
pub mod vad;
pub mod monitor;
