//! Public managed-agent directory: the relay rows that signed agent
//! configurations, agent profiles, channel memberships and channel metadata
//! project to.
pub mod text;
pub mod pubkey;
pub mod event;
pub mod policy;
pub mod heads;
pub mod directory;
pub mod laws;
pub mod discovery;
