//! Construction of macOS Cocoa archives (`NSKeyedArchiver` property lists).
//!
//! The library models the key-value stores of a keyed archive, builds the
//! archive of an `NSColor` or an `NSFont`, and base64-encodes the property
//! list bytes, all with verified contracts.

pub mod archiver;
pub mod b64;
pub mod cli;
pub mod object;
pub mod serializer;
pub mod writer;
