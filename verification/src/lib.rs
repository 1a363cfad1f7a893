//! Observation and analysis core of the in-game sniffing plugin: a bounded
//! keychain event log, passive protocol-route classification and layered
//! payload analysis, each rendered as JSON text.

pub mod text;
pub mod order;
pub mod uri;
pub mod json;
pub mod keychain;
pub mod capture;
pub mod protocol;
pub mod signup;
pub mod findings;
