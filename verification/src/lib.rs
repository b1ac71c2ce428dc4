//! Filename-driven archive classification.
//!
//! An inbox of scanned documents holds files named
//! `<category><separator><8-digit date>.<extension>`, where the date is laid
//! out as `DDMMYYYY`. This library turns such a filename into the archive
//! destination `<target>/<YYYY>/<MM>/<DD>/<category>.<extension>`, rejects
//! malformed names with a precise error, and plans the relocation of a whole
//! directory listing at once. All path handling is done on plain strings with
//! `/` as the component separator; the filesystem work itself (copying,
//! deleting, creating directories) is left to the caller.

pub mod constants;
pub mod error;
pub mod model;
pub mod classify;
pub mod batch;
