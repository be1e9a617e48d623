//! Immutable typed arrays: one struct per physical encoding, unified by
//! the `Array` enum. Every encoding views its contents as a `Seq<Cell>`
//! through `Array::cells`, the model all scatter contracts are stated over.

use vstd::prelude::*;
use crate::cell::{Cell, CellValue};

verus! {

/// Dense fixed-width numeric values plus a validity bitmap.
pub struct PrimitiveArray {
    pub values: Vec<u64>,
    pub validity: Vec<bool>,
}

/// Truth values, bit-packed least-significant-bit first: value `i` is
/// bit `i % 8` of byte `i / 8`. A validity flag per row sits alongside.
pub struct BooleanArray {
    pub bits: Vec<u8>,
    pub validity: Vec<bool>,
}

/// Variable-length byte strings: element `i` is
/// `data[offsets[i] .. offsets[i + 1]]`. Used for opaque binary and for
/// UTF-8 text alike.
pub struct BytesArray {
    pub offsets: Vec<usize>,
    pub data: Vec<u8>,
    pub validity: Vec<bool>,
}

/// Nested lists: element `i` is the child rows
/// `values[offsets[i] .. offsets[i + 1]]`; the child is itself an array
/// of any encoding.
pub struct ListArray {
    pub offsets: Vec<usize>,
    pub values: Box<Array>,
    pub validity: Vec<bool>,
}

/// An immutable typed column in one of the supported physical encodings.
pub enum Array {
    Primitive(PrimitiveArray),
    Boolean(BooleanArray),
    Bytes(BytesArray),
    List(ListArray),
}

/// The offsets of a variable-length layout are well formed for a payload
/// of `total` units: one more offset than rows, starting at zero, ending
/// at `total`, never decreasing.
pub open spec fn offsets_well_formed(offsets: Seq<usize>, rows: nat, total: nat) -> bool {
    &&& offsets.len() == rows + 1
    &&& offsets[0] == 0
    &&& offsets[rows as int] == total
    &&& forall|i: int| 0 <= i < rows ==> #[trigger] offsets[i] <= offsets[i + 1]
}

/// Well-formed offsets never decrease between any two positions.
pub proof fn lemma_offsets_monotone(offsets: Seq<usize>, rows: nat, total: nat, x: int, y: int)
    requires
        offsets_well_formed(offsets, rows, total),
        0 <= x <= y <= rows,
    ensures
        offsets[x] <= offsets[y],
    decreases y - x,
{
    if x < y {
        lemma_offsets_monotone(offsets, rows, total, x, y - 1);
        assert(offsets[y - 1] <= offsets[y]);
    }
}

impl PrimitiveArray {
    pub open spec fn well_formed(self) -> bool {
        self.validity@.len() == self.values@.len()
    }

    pub open spec fn cells(self) -> Seq<Cell> {
        Seq::new(
            self.values@.len(),
            |i: int| Cell { null: !self.validity@[i], value: CellValue::Number(self.values@[i]) },
        )
    }
}

impl BooleanArray {
    pub open spec fn well_formed(self) -> bool {
        self.bits@.len() == (self.validity@.len() + 7) / 8
    }

    pub open spec fn cells(self) -> Seq<Cell> {
        Seq::new(
            self.validity@.len(),
            |i: int| Cell {
                null: !self.validity@[i],
                value: CellValue::Truth(bit_at(self.bits@[i / 8], i % 8)),
            },
        )
    }
}

/// Bit `k` of `byte`, least significant bit first.
pub open spec fn bit_at(byte: u8, k: int) -> bool {
    (byte >> (k as u8)) & 1 == 1
}

/// A zero byte has no bit set.
pub proof fn lemma_zero_byte_bits(k: u8)
    ensures
        ((0u8 >> k) & 1) != 1,
{
    assert(((0u8 >> k) & 1) != 1) by (bit_vector);
}

/// Setting bit `j` of a byte sets that bit and leaves every other bit.
pub proof fn lemma_set_bit(b: u8, j: u8)
    requires
        j < 8,
    ensures
        ((b | (1u8 << j)) >> j) & 1 == 1,
        forall|k: u8| k < 8 && k != j ==> ((b | (1u8 << j)) >> k) & 1 == (b >> k) & 1,
{
    assert(((b | (1u8 << j)) >> j) & 1 == 1) by (bit_vector)
        requires
            j < 8,
    ;
    assert(forall|k: u8| k < 8 && k != j ==> ((b | (1u8 << j)) >> k) & 1 == (b >> k) & 1)
        by (bit_vector)
        requires
            j < 8,
    ;
}

impl BooleanArray {
    /// The packed truth bitmap, copied out: value `i` is bit `i % 8` of
    /// byte `i / 8`.
    pub fn packed_values(&self) -> (r: Vec<u8>)
        requires
            self.well_formed(),
        ensures
            r@.len() == (self.cells().len() + 7) / 8,
            forall|i: int|
                0 <= i < self.cells().len() ==> self.cells()[i].value == CellValue::Truth(
                    #[trigger] bit_at(r@[i / 8], i % 8),
                ),
    {
        self.bits.clone()
    }
}

impl BytesArray {
    pub open spec fn well_formed(self) -> bool {
        offsets_well_formed(self.offsets@, self.validity@.len(), self.data@.len())
    }

    pub open spec fn cells(self) -> Seq<Cell> {
        Seq::new(
            self.validity@.len(),
            |i: int| Cell {
                null: !self.validity@[i],
                value: CellValue::Bytes(
                    self.data@.subrange(self.offsets@[i] as int, self.offsets@[i + 1] as int),
                ),
            },
        )
    }
}

impl ListArray {
    pub open spec fn well_formed(self) -> bool
        decreases self,
    {
        &&& (*self.values).well_formed()
        &&& offsets_well_formed(self.offsets@, self.validity@.len(), (*self.values).cells().len())
    }

    pub open spec fn cells(self) -> Seq<Cell>
        decreases self,
    {
        Seq::new(
            self.validity@.len(),
            |i: int| Cell {
                null: !self.validity@[i],
                value: CellValue::Nested(
                    (*self.values).cells().subrange(
                        self.offsets@[i] as int,
                        self.offsets@[i + 1] as int,
                    ),
                ),
            },
        )
    }
}

impl PrimitiveArray {
    /// The whole value buffer, in row order.
    pub fn values(&self) -> (r: &Vec<u64>)
        ensures
            r@ == self.values@,
    {
        &self.values
    }

    /// The numeric value stored at row `i` (the placeholder when null).
    pub fn value(&self, i: usize) -> (v: u64)
        requires
            i < self.cells().len(),
        ensures
            self.cells()[i as int].value == CellValue::Number(v),
    {
        self.values[i]
    }
}

impl BooleanArray {
    /// The truth value stored at row `i` (the placeholder when null).
    pub fn value(&self, i: usize) -> (v: bool)
        requires
            self.well_formed(),
            i < self.cells().len(),
        ensures
            self.cells()[i as int].value == CellValue::Truth(v),
    {
        let byte = self.bits[i / 8];
        let j: u8 = (i % 8) as u8;
        (byte >> j) & 1 == 1
    }
}

impl BytesArray {
    /// The whole byte payload: every row's bytes, concatenated in row
    /// order.
    pub fn value_data(&self) -> (r: &Vec<u8>)
        ensures
            r@ == self.data@,
    {
        &self.data
    }

    /// The byte string stored at row `i`, copied out.
    pub fn value(&self, i: usize) -> (v: Vec<u8>)
        requires
            self.well_formed(),
            i < self.cells().len(),
        ensures
            self.cells()[i as int].value == CellValue::Bytes(v@),
    {
        let bound = self.offsets.len();
        assert(i + 1 < bound);
        let start: usize = self.offsets[i];
        let end: usize = self.offsets[i + 1];
        proof {
            lemma_offsets_monotone(
                self.offsets@,
                self.validity@.len(),
                self.data@.len(),
                i + 1,
                self.validity@.len() as int,
            );
        }
        let mut v: Vec<u8> = Vec::with_capacity(end - start);
        let mut p: usize = start;
        while p < end
            invariant
                start <= p <= end,
                end <= self.data@.len(),
                v@ == self.data@.subrange(start as int, p as int),
            decreases end - p,
        {
            let byte = self.data[p];
            v.push(byte);
            p = p + 1;
            proof {
                assert(v@ =~= self.data@.subrange(start as int, p as int));
            }
        }
        v
    }
}

impl ListArray {
    /// The child sub-range that makes up row `i`: its start in the child
    /// array and its length.
    pub fn value_range(&self, i: usize) -> (r: (usize, usize))
        requires
            self.well_formed(),
            i < self.cells().len(),
        ensures
            r.0 == self.offsets@[i as int],
            r.0 + r.1 == self.offsets@[i as int + 1],
            self.cells()[i as int].value == CellValue::Nested(
                (*self.values).cells().subrange(r.0 as int, r.0 as int + r.1 as int),
            ),
    {
        let bound = self.offsets.len();
        assert(i + 1 < bound);
        let start: usize = self.offsets[i];
        let end: usize = self.offsets[i + 1];
        (start, end - start)
    }
}

impl Array {
    /// The internal invariant every constructor establishes and every
    /// operation preserves.
    pub open spec fn well_formed(self) -> bool
        decreases self,
    {
        match self {
            Array::Primitive(a) => a.well_formed(),
            Array::Boolean(a) => a.well_formed(),
            Array::Bytes(a) => a.well_formed(),
            Array::List(a) => a.well_formed(),
        }
    }

    /// The array's contents as the uniform row model.
    pub open spec fn cells(self) -> Seq<Cell>
        decreases self,
    {
        match self {
            Array::Primitive(a) => a.cells(),
            Array::Boolean(a) => a.cells(),
            Array::Bytes(a) => a.cells(),
            Array::List(a) => a.cells(),
        }
    }

    /// Two arrays have the same physical encoding, including, for lists,
    /// the encoding of their children.
    pub open spec fn same_encoding(self, other: Array) -> bool
        decreases self,
    {
        match (self, other) {
            (Array::Primitive(_), Array::Primitive(_)) => true,
            (Array::Boolean(_), Array::Boolean(_)) => true,
            (Array::Bytes(_), Array::Bytes(_)) => true,
            (Array::List(a), Array::List(b)) => (*a.values).same_encoding(*b.values),
            _ => false,
        }
    }

    /// How many rows the array holds.
    pub fn len(&self) -> (n: usize)
        ensures
            n == self.cells().len(),
    {
        match self {
            Array::Primitive(a) => a.values.len(),
            Array::Boolean(a) => a.validity.len(),
            Array::Bytes(a) => a.validity.len(),
            Array::List(a) => a.validity.len(),
        }
    }

    /// Whether row `i` is null.
    pub fn is_null(&self, i: usize) -> (r: bool)
        requires
            self.well_formed(),
            i < self.cells().len(),
        ensures
            r == self.cells()[i as int].null,
    {
        match self {
            Array::Primitive(a) => !a.validity[i],
            Array::Boolean(a) => !a.validity[i],
            Array::Bytes(a) => !a.validity[i],
            Array::List(a) => !a.validity[i],
        }
    }

    /// A primitive array of the given values, none of them null.
    pub fn primitive_from_values(values: Vec<u64>) -> (a: Array)
        ensures
            a.well_formed(),
            a.cells() == Seq::new(
                values@.len(),
                |i: int| Cell { null: false, value: CellValue::Number(values@[i]) },
            ),
    {
        let n = values.len();
        let a = Array::Primitive(PrimitiveArray { values, validity: vec![true; n] });
        proof {
            assert(a.cells() =~= Seq::new(
                a->Primitive_0.values@.len(),
                |i: int| Cell {
                    null: false,
                    value: CellValue::Number(a->Primitive_0.values@[i]),
                },
            ));
        }
        a
    }

    /// A boolean array of the given truth values, none of them null.
    pub fn boolean_from_values(values: Vec<bool>) -> (a: Array)
        ensures
            a.well_formed(),
            a.cells() == Seq::new(
                values@.len(),
                |i: int| Cell { null: false, value: CellValue::Truth(values@[i]) },
            ),
    {
        let n = values.len();
        let mut b = crate::builder::BooleanBuilder::with_capacity(n);
        let mut i: usize = 0;
        while i < n
            invariant
                i <= n,
                n == values@.len(),
                b.well_formed(),
                b.cells().len() == i,
                forall|m: int|
                    0 <= m < i ==> b.cells()[m] == (Cell {
                        null: false,
                        value: CellValue::Truth(values@[m]),
                    }),
            decreases n - i,
        {
            let v = values[i];
            b.append_value(v);
            i = i + 1;
        }
        let a = Array::Boolean(b.finish());
        proof {
            assert(a.cells() =~= Seq::new(
                values@.len(),
                |i: int| Cell { null: false, value: CellValue::Truth(values@[i]) },
            ));
        }
        a
    }
}

} // verus!
