//! The mathematical model of a column: a sequence of cells.
//!
//! Every physical encoding views its contents as a `Seq<Cell>`; contracts
//! throughout the crate are stated over this one model, so the scatter
//! guarantees read the same for every encoding.

use vstd::prelude::*;

verus! {

/// The logical value one row holds, independent of physical encoding.
pub enum CellValue {
    /// A fixed-width numeric value.
    Number(u64),
    /// A truth value.
    Truth(bool),
    /// A variable-length byte string (opaque binary or UTF-8 text).
    Bytes(Seq<u8>),
    /// A nested list element: the cells of the child column that make it up.
    Nested(Seq<Cell>),
}

/// One row of a column: its null flag and, when not null, its value.
///
/// A null row still carries a placeholder value (whatever the physical
/// buffer holds at that position); consumers must consult `null` first.
pub struct Cell {
    pub null: bool,
    pub value: CellValue,
}

} // verus!
