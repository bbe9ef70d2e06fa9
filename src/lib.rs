//! A client for a chat-completion agent service, and a flattener that turns a
//! nested document into `(path, value)` leaves that can be filtered by a fuzzy
//! query.

pub mod distinct;
pub mod document;
pub mod lookup;
pub mod mistral;
pub mod select;
