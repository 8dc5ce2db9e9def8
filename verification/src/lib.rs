//! Assembly of a nested playlist forest from a flat, marker-delimited listing.
//!
//! A remote listing arrives as an ordered sequence of URI-tagged entries.
//! The second colon-separated segment of each URI classifies it as a
//! `start-group` marker, an `end-group` marker, or (when neither) a playlist
//! reference.  The builder in [`root`] turns such a sequence into a nested
//! forest of playlists and named groups, tolerating an unmatched `end-group`
//! at the root and implicitly closing groups left open at end of input.

pub mod availability;
pub mod ident;
pub mod laws;
pub mod root;
pub mod uri;
