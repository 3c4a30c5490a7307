//! Domain model for a phone-companion client.
//!
//! The remote phone-sync daemon delivers loosely typed, positionally encoded
//! records over a message bus.  This library decodes them into typed message
//! entities, aggregates conversation summaries and thread histories,
//! normalizes phone numbers for lookup and outbound validation, builds a
//! contact directory from text contact-card exports, and decides whether a
//! duplicate alert must be suppressed.  All of it is pure computation: the
//! surrounding application performs the bus, file and lock operations and
//! hands plain values in and out.

pub mod battery;
pub mod contacts;
pub mod dedup;
pub mod device;
pub mod digits;
pub mod display;
pub mod media;
pub mod notify;
pub mod phone;
pub mod sms;
pub mod text;
pub mod variant;
