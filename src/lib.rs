//! Persistence core for a catalogue of classical-music recordings: mediums hold ordered
//! track sets, each belonging to one recording, and each track refers to an ordered list
//! of work-part indices.

pub mod captcha;
pub mod error;
pub mod laws;
pub mod mediums;
pub mod store;
pub mod text;
pub mod users;
pub mod work_parts;
