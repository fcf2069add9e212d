//! Encoding and decoding of Iridium Short Burst Data (SBD) messages.
//!
//! A message is a protocol revision byte, a big-endian overall length, and a
//! sequence of tagged information elements. `mt` holds mobile terminated
//! messages, `mo` mobile originated ones; both codecs are pure. The
//! per-connection state machine of a DirectIP listener lives in `session`.

pub mod bytes;
pub mod error;
pub mod mo;
pub mod mt;
pub mod session;

pub use error::SbdError;
pub use mt::{DispositionFlags, Header, InformationElement, Message, Payload};
