//! The core of a conversational agent that learns a statistical language
//! model from a user's chat history and periodically emits generated
//! messages.
//!
//! - [`split`] and [`format`] segment a raw message into ordered typed spans:
//!   plain text, atomic stamp codes, and entity links. Every character lands
//!   in exactly one span and no span is empty.
//! - [`tokenize`] turns spans into one space-joined training string; stamps
//!   and links pass through as single opaque tokens, and blocked messages are
//!   excluded.
//! - [`messages`] and [`sync`] converge a store of uniquely-identified
//!   records to the remote source's window, page by page, idempotently.
//! - [`model`] feeds training strings into the Markov chain and samples
//!   generated messages from it.
//! - [`freq`] gates replies by a per-channel percentage, cached in front of
//!   its store with write-through updates.
//! - [`events`] and [`sched`] classify inbound events and schedule-facing
//!   decisions.

pub mod events;
pub mod format;
pub mod freq;
pub mod messages;
pub mod model;
pub mod sched;
pub mod split;
pub mod sync;
pub mod tokenize;

pub use format::ContentType;
pub use split::{SplittedElement, SplittedText};
