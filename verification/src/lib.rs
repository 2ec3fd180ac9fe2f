//! Recognition of ANSI terminal escape sequences (colors, cursor movement,
//! text styling) in raw byte buffers.
//!
//! The grammar of a sequence is deliberately permissive, to tolerate the
//! variance found in real terminal output: an introducer byte (ESC or the
//! single-byte CSI 0x9b) followed by `[`, any run of private-marker bytes,
//! an optional parameter block of semicolon-separated digit groups, and one
//! terminating byte. Scanning a buffer yields the non-overlapping matches of
//! that grammar, left to right.

use vstd::prelude::*;

pub mod grammar;
pub mod matcher;

pub use matcher::Match;
pub use matcher::Matches;
pub use matcher::find_matches;
pub use matcher::parse_bytes;

verus! {

/// The escape-sequence grammar, written as a regular-expression pattern, so
/// that consumers can compose it into larger patterns. The scan implemented
/// here recognizes exactly the byte strings this pattern matches under
/// leftmost-first (Perl-like) semantics.
pub const ANSI_RE: &'static str = r"[\x1b\x9b]\[[()#;?]*(?:[0-9]{1,4}(?:;[0-9]{0,4})*)?[0-9A-ORZcf-nqry=><]";

} // verus!
