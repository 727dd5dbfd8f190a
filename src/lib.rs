//! A streaming codec for a four-level delimited text format.
//!
//! Text is split into Units by the unit separator, Units into Records by the
//! record separator, Records into Groups by the group separator and Groups into
//! Files (documents) by the file separator. Decoding is a chain of pull-based
//! tokenisers, one per level; encoding goes through a writer that enforces the
//! same grammar as it writes.
use vstd::prelude::*;

pub mod chars;
pub mod model;
pub mod separator;
mod text;
pub mod unit;
pub mod record;
pub mod group;
pub mod file;
pub mod writer;
pub mod laws;

pub use chars::{classify, CharToken, CharTokeniser, Token};
pub use file::{File, FileTokeniser};
pub use group::{Group, GroupToken, GroupTokeniser};
pub use record::{Record, RecordToken, RecordTokeniser};
pub use separator::{control_chars, ContainsControlChar, FS, GS, RS, US};
pub use unit::{Unit, UnitToken, UnitTokeniser};
pub use writer::{AdelWriter, WriteError};

verus! {

/// Adds two numbers; the sum must fit in a `usize`.
pub fn add(left: usize, right: usize) -> (r: usize)
    requires
        left + right <= usize::MAX,
    ensures
        r == left + right,
{
    left + right
}

} // verus!
