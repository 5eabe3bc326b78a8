//! A verified core for a dictionary-lookup tool.
//!
//! A lookup produces a list of lexical entries; each entry may carry several
//! pronunciation variants, each with an audio locator.  The core of the tool
//! is the audio candidate resolver: it deduplicates the locators, derives a
//! scratch file name for each download, and deterministically selects at most
//! one successfully downloaded candidate whose name carries the preferred
//! regional-accent suffix.  Networking, rendering and playback are unverified
//! collaborators that call into this library with plain values.

pub mod entry;
pub mod resolver;
