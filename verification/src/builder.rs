//! Mutable builders: one per physical encoding, unified by the `Builder`
//! enum. A builder accumulates rows one at a time and finalizes into an
//! immutable `Array`; it views the rows built so far as a `Seq<Cell>`,
//! the same model the arrays use.

use vstd::prelude::*;
use crate::cell::{Cell, CellValue};
use crate::array::{Array, PrimitiveArray, BooleanArray, BytesArray, ListArray, offsets_well_formed, bit_at, lemma_set_bit, lemma_zero_byte_bits};

verus! {

/// Accumulates fixed-width numeric rows.
pub struct PrimitiveBuilder {
    pub values: Vec<u64>,
    pub validity: Vec<bool>,
}

/// Accumulates truth-value rows, bit-packing them as it goes.
pub struct BooleanBuilder {
    pub bits: Vec<u8>,
    pub validity: Vec<bool>,
}

/// Accumulates variable-length byte-string rows.
pub struct BytesBuilder {
    pub offsets: Vec<usize>,
    pub data: Vec<u8>,
    pub validity: Vec<bool>,
}

/// Accumulates nested-list rows; the child rows go into a child builder
/// of the child's encoding.
pub struct ListBuilder {
    pub offsets: Vec<usize>,
    pub values: Box<Builder>,
    pub validity: Vec<bool>,
}

/// A mutable accumulator for one column of one physical encoding.
pub enum Builder {
    Primitive(PrimitiveBuilder),
    Boolean(BooleanBuilder),
    Bytes(BytesBuilder),
    List(ListBuilder),
}

impl PrimitiveBuilder {
    pub open spec fn well_formed(self) -> bool {
        self.validity@.len() == self.values@.len()
    }

    pub open spec fn cells(self) -> Seq<Cell> {
        Seq::new(
            self.values@.len(),
            |i: int| Cell { null: !self.validity@[i], value: CellValue::Number(self.values@[i]) },
        )
    }
}

impl BooleanBuilder {
    pub open spec fn well_formed(self) -> bool {
        &&& self.bits@.len() == (self.validity@.len() + 7) / 8
        &&& forall|i: int|
            self.validity@.len() <= i < self.bits@.len() * 8 ==> !bit_at(
                #[trigger] self.bits@[i / 8],
                i % 8,
            )
    }

    pub open spec fn cells(self) -> Seq<Cell> {
        Seq::new(
            self.validity@.len(),
            |i: int| Cell {
                null: !self.validity@[i],
                value: CellValue::Truth(bit_at(self.bits@[i / 8], i % 8)),
            },
        )
    }
}

impl BytesBuilder {
    pub open spec fn well_formed(self) -> bool {
        offsets_well_formed(self.offsets@, self.validity@.len(), self.data@.len())
    }

    pub open spec fn cells(self) -> Seq<Cell> {
        Seq::new(
            self.validity@.len(),
            |i: int| Cell {
                null: !self.validity@[i],
                value: CellValue::Bytes(
                    self.data@.subrange(self.offsets@[i] as int, self.offsets@[i + 1] as int),
                ),
            },
        )
    }
}

impl ListBuilder {
    pub open spec fn well_formed(self) -> bool
        decreases self,
    {
        &&& (*self.values).well_formed()
        &&& offsets_well_formed(self.offsets@, self.validity@.len(), (*self.values).cells().len())
    }

    pub open spec fn cells(self) -> Seq<Cell>
        decreases self,
    {
        Seq::new(
            self.validity@.len(),
            |i: int| Cell {
                null: !self.validity@[i],
                value: CellValue::Nested(
                    (*self.values).cells().subrange(
                        self.offsets@[i] as int,
                        self.offsets@[i + 1] as int,
                    ),
                ),
            },
        )
    }
}

impl PrimitiveBuilder {
    /// A fresh builder, pre-sized for `capacity` rows.
    pub fn with_capacity(capacity: usize) -> (b: Self)
        ensures
            b.well_formed(),
            b.cells() == Seq::<Cell>::empty(),
    {
        let b = PrimitiveBuilder {
            values: Vec::with_capacity(capacity),
            validity: Vec::with_capacity(capacity),
        };
        proof {
            assert(b.cells() =~= Seq::<Cell>::empty());
        }
        b
    }

    /// Append one non-null value.
    pub fn append_value(&mut self, v: u64)
        requires
            old(self).well_formed(),
        ensures
            final(self).well_formed(),
            final(self).cells() == old(self).cells().push(
                Cell { null: false, value: CellValue::Number(v) },
            ),
    {
        self.values.push(v);
        self.validity.push(true);
        proof {
            assert(self.cells() =~= old(self).cells().push(
                Cell { null: false, value: CellValue::Number(v) },
            ));
        }
    }

    /// Append one null row; the value buffer records a placeholder zero.
    pub fn append_null(&mut self)
        requires
            old(self).well_formed(),
        ensures
            final(self).well_formed(),
            final(self).cells() == old(self).cells().push(
                Cell { null: true, value: CellValue::Number(0) },
            ),
    {
        self.values.push(0);
        self.validity.push(false);
        proof {
            assert(self.cells() =~= old(self).cells().push(
                Cell { null: true, value: CellValue::Number(0) },
            ));
        }
    }

    /// Consume the builder and freeze its rows into an immutable array.
    pub fn finish(self) -> (a: PrimitiveArray)
        requires
            self.well_formed(),
        ensures
            a.well_formed(),
            a.cells() == self.cells(),
    {
        let a = PrimitiveArray { values: self.values, validity: self.validity };
        proof {
            assert(a.cells() =~= self.cells());
        }
        a
    }
}

impl BooleanBuilder {
    /// A fresh builder, pre-sized for `capacity` rows.
    pub fn with_capacity(capacity: usize) -> (b: Self)
        ensures
            b.well_formed(),
            b.cells() == Seq::<Cell>::empty(),
    {
        let b = BooleanBuilder {
            bits: Vec::with_capacity(capacity / 8 + 1),
            validity: Vec::with_capacity(capacity),
        };
        proof {
            assert(b.cells() =~= Seq::<Cell>::empty());
        }
        b
    }

    /// Append one row: pack the truth bit, record the validity flag.
    #[verifier::rlimit(50)]
    fn append_row(&mut self, v: bool, flag: bool)
        requires
            old(self).well_formed(),
        ensures
            final(self).well_formed(),
            final(self).cells() == old(self).cells().push(
                Cell { null: !flag, value: CellValue::Truth(v) },
            ),
    {
        let n = self.validity.len();
        if n % 8 == 0 {
            self.bits.push(0);
            proof {
                assert forall|k: int| 0 <= k < 8 implies !bit_at(0u8, k) by {
                    lemma_zero_byte_bits(k as u8);
                }
            }
        }
        let ghost mid = self.bits@;
        proof {
            assert(mid.len() == n / 8 + 1);
            assert forall|m: int| 0 <= m < mid.len() * 8 && m != n implies bit_at(
                #[trigger] mid[m / 8],
                m % 8,
            ) == if m < n {
                bit_at(old(self).bits@[m / 8], m % 8)
            } else {
                false
            } by {}
        }
        if v {
            let idx = n / 8;
            let j: u8 = (n % 8) as u8;
            let slot = &mut self.bits[idx];
            let byte = *slot;
            *slot = byte | (1u8 << j);
            proof {
                lemma_set_bit(byte, j);
                assert(bit_at(self.bits@[n as int / 8], n as int % 8) == v);
                assert forall|m: int| 0 <= m < mid.len() * 8 && m != n implies bit_at(
                    #[trigger] self.bits@[m / 8],
                    m % 8,
                ) == bit_at(mid[m / 8], m % 8) by {
                    if m / 8 == idx {
                        assert(m % 8 != n % 8);
                        assert((mid[m / 8] | (1u8 << j)) >> ((m % 8) as u8) & 1 == mid[m / 8] >> ((
                        m % 8) as u8) & 1);
                    }
                }
            }
        } else {
            proof {
                assert(bit_at(self.bits@[n as int / 8], n as int % 8) == v);
            }
        }
        self.validity.push(flag);
        proof {
            assert(self.well_formed());
            assert(self.cells() =~= old(self).cells().push(
                Cell { null: !flag, value: CellValue::Truth(v) },
            ));
        }
    }

    /// Append row `i` of `a`, null flag included.
    pub fn append_row_from(&mut self, a: &BooleanArray, i: usize)
        requires
            old(self).well_formed(),
            a.well_formed(),
            i < a.cells().len(),
        ensures
            final(self).well_formed(),
            final(self).cells() == old(self).cells().push(a.cells()[i as int]),
    {
        let v = a.value(i);
        let flag = a.validity[i];
        self.append_row(v, flag);
        proof {
            assert(a.cells()[i as int] == (Cell { null: !flag, value: CellValue::Truth(v) }));
        }
    }

    /// Append one non-null truth value.
    pub fn append_value(&mut self, v: bool)
        requires
            old(self).well_formed(),
        ensures
            final(self).well_formed(),
            final(self).cells() == old(self).cells().push(
                Cell { null: false, value: CellValue::Truth(v) },
            ),
    {
        self.append_row(v, true);
    }

    /// Append one null row; the bitmap records a placeholder zero bit.
    pub fn append_null(&mut self)
        requires
            old(self).well_formed(),
        ensures
            final(self).well_formed(),
            final(self).cells() == old(self).cells().push(
                Cell { null: true, value: CellValue::Truth(false) },
            ),
    {
        self.append_row(false, false);
    }

    /// Consume the builder and freeze its rows into an immutable array.
    pub fn finish(self) -> (a: BooleanArray)
        requires
            self.well_formed(),
        ensures
            a.well_formed(),
            a.cells() == self.cells(),
    {
        let a = BooleanArray { bits: self.bits, validity: self.validity };
        proof {
            assert(a.cells() =~= self.cells());
        }
        a
    }
}

/// Appending one byte-string row means: the payload grows by the row's
/// bytes at the end, one offset (the new payload length) and one validity
/// flag are recorded. The rows already built keep their cells, and the new
/// row's cell is exactly the appended byte string.
#[verifier::rlimit(50)]
proof fn lemma_bytes_push(pre: BytesBuilder, post: BytesBuilder, tail: Seq<u8>, valid: bool)
    requires
        pre.well_formed(),
        post.data@.len() <= usize::MAX,
        post.data@ == pre.data@ + tail,
        post.offsets@ == pre.offsets@.push(post.data@.len() as usize),
        post.validity@ == pre.validity@.push(valid),
    ensures
        post.well_formed(),
        post.cells() == pre.cells().push(Cell { null: !valid, value: CellValue::Bytes(tail) }),
{
    let rows = pre.validity@.len() as int;
    assert forall|m: int| 0 <= m < rows + 1 implies #[trigger] post.offsets@[m]
        <= post.offsets@[m + 1] by {
        if m == rows {
            assert(pre.offsets@[rows] == pre.data@.len());
        }
    }
    assert(post.well_formed());
    assert forall|m: int| 0 <= m < rows implies #[trigger] post.cells()[m] == pre.cells()[m] by {
        crate::array::lemma_offsets_monotone(
            pre.offsets@,
            rows as nat,
            pre.data@.len(),
            m + 1,
            rows,
        );
        assert(post.data@.subrange(pre.offsets@[m] as int, pre.offsets@[m + 1] as int)
            =~= pre.data@.subrange(pre.offsets@[m] as int, pre.offsets@[m + 1] as int));
    }
    assert(post.data@.subrange(pre.data@.len() as int, post.data@.len() as int) =~= tail);
    assert(post.cells() =~= pre.cells().push(
        Cell { null: !valid, value: CellValue::Bytes(tail) },
    ));
}

impl BytesBuilder {
    /// A fresh builder, pre-sized for `rows` rows and `payload` bytes of
    /// string data. The payload size is a heuristic hint only: the buffer
    /// grows past it gracefully.
    pub fn with_capacity(rows: usize, payload: usize) -> (b: Self)
        ensures
            b.well_formed(),
            b.cells() == Seq::<Cell>::empty(),
    {
        let mut offsets: Vec<usize> = Vec::with_capacity(rows);
        offsets.push(0);
        let b = BytesBuilder {
            offsets,
            data: Vec::with_capacity(payload),
            validity: Vec::with_capacity(rows),
        };
        proof {
            assert(b.cells() =~= Seq::<Cell>::empty());
        }
        b
    }

    /// Append one non-null byte string.
    pub fn append_value(&mut self, v: &[u8])
        requires
            old(self).well_formed(),
        ensures
            final(self).well_formed(),
            final(self).cells() == old(self).cells().push(
                Cell { null: false, value: CellValue::Bytes(v@) },
            ),
    {
        let ghost pre = *self;
        let mut p: usize = 0;
        while p < v.len()
            invariant
                p <= v@.len(),
                self.offsets@ == pre.offsets@,
                self.validity@ == pre.validity@,
                self.data@ == pre.data@ + v@.take(p as int),
            decreases v@.len() - p,
        {
            let byte = v[p];
            self.data.push(byte);
            p = p + 1;
            proof {
                assert(self.data@ =~= pre.data@ + v@.take(p as int));
            }
        }
        proof {
            assert(v@.take(v@.len() as int) =~= v@);
        }
        let next = self.data.len();
        self.offsets.push(next);
        self.validity.push(true);
        proof {
            lemma_bytes_push(pre, *self, v@, true);
        }
    }

    /// Append one null row; no payload bytes are recorded.
    pub fn append_null(&mut self)
        requires
            old(self).well_formed(),
        ensures
            final(self).well_formed(),
            final(self).cells() == old(self).cells().push(
                Cell { null: true, value: CellValue::Bytes(Seq::empty()) },
            ),
    {
        let ghost pre = *self;
        let next = self.data.len();
        self.offsets.push(next);
        self.validity.push(false);
        proof {
            assert(self.data@ =~= pre.data@ + Seq::<u8>::empty());
            lemma_bytes_push(pre, *self, Seq::empty(), false);
        }
    }

    /// Append row `i` of `a`, null flag included.
    pub fn append_row_from(&mut self, a: &BytesArray, i: usize)
        requires
            old(self).well_formed(),
            a.well_formed(),
            i < a.cells().len(),
        ensures
            final(self).well_formed(),
            final(self).cells() == old(self).cells().push(a.cells()[i as int]),
    {
        let ghost pre = *self;
        let bound = a.offsets.len();
        assert(i + 1 < bound);
        let start: usize = a.offsets[i];
        let end: usize = a.offsets[i + 1];
        proof {
            crate::array::lemma_offsets_monotone(
                a.offsets@,
                a.validity@.len(),
                a.data@.len(),
                i + 1,
                a.validity@.len() as int,
            );
        }
        let mut p: usize = start;
        while p < end
            invariant
                start <= p <= end,
                end <= a.data@.len(),
                self.offsets@ == pre.offsets@,
                self.validity@ == pre.validity@,
                self.data@ == pre.data@ + a.data@.subrange(start as int, p as int),
            decreases end - p,
        {
            let byte = a.data[p];
            self.data.push(byte);
            p = p + 1;
            proof {
                assert(self.data@ =~= pre.data@ + a.data@.subrange(start as int, p as int));
            }
        }
        let next = self.data.len();
        self.offsets.push(next);
        let not_null = a.validity[i];
        self.validity.push(not_null);
        proof {
            lemma_bytes_push(pre, *self, a.data@.subrange(start as int, end as int), not_null);
        }
    }

    /// Consume the builder and freeze its rows into an immutable array.
    pub fn finish(self) -> (a: BytesArray)
        requires
            self.well_formed(),
        ensures
            a.well_formed(),
            a.cells() == self.cells(),
    {
        let a = BytesArray { offsets: self.offsets, data: self.data, validity: self.validity };
        proof {
            assert(a.cells() =~= self.cells());
        }
        a
    }
}

/// Appending one list row means: the child builder grows by the row's
/// child cells at the end, one offset (the new child length) and one
/// validity flag are recorded. The rows already built keep their cells,
/// and the new row's cell is exactly the appended child-cell range.
#[verifier::rlimit(50)]
proof fn lemma_list_push(pre: ListBuilder, post: ListBuilder, tail: Seq<Cell>, valid: bool)
    requires
        pre.well_formed(),
        (*post.values).cells().len() <= usize::MAX,
        (*post.values).well_formed(),
        (*post.values).cells() == (*pre.values).cells() + tail,
        post.offsets@ == pre.offsets@.push((*post.values).cells().len() as usize),
        post.validity@ == pre.validity@.push(valid),
    ensures
        post.well_formed(),
        post.cells() == pre.cells().push(Cell { null: !valid, value: CellValue::Nested(tail) }),
{
    let rows = pre.validity@.len() as int;
    assert forall|m: int| 0 <= m < rows + 1 implies #[trigger] post.offsets@[m]
        <= post.offsets@[m + 1] by {
        if m == rows {
            assert(pre.offsets@[rows] == (*pre.values).cells().len());
        }
    }
    assert(post.well_formed());
    assert forall|m: int| 0 <= m < rows implies #[trigger] post.cells()[m] == pre.cells()[m] by {
        crate::array::lemma_offsets_monotone(
            pre.offsets@,
            rows as nat,
            (*pre.values).cells().len(),
            m + 1,
            rows,
        );
        assert((*post.values).cells().subrange(pre.offsets@[m] as int, pre.offsets@[m + 1] as int)
            =~= (*pre.values).cells().subrange(pre.offsets@[m] as int, pre.offsets@[m + 1] as int));
    }
    let child_len = (*pre.values).cells().len() as int;
    assert((*post.values).cells().subrange(child_len, child_len + tail.len() as int) =~= tail);
    assert(post.cells() =~= pre.cells().push(
        Cell { null: !valid, value: CellValue::Nested(tail) },
    ));
}

impl ListBuilder {
    /// A fresh list builder over the given child builder, pre-sized for
    /// `capacity` rows. The child must be empty: a list builder owns its
    /// child exclusively from the start.
    pub fn with_child(child: Builder, capacity: usize) -> (b: Self)
        requires
            child.well_formed(),
            child.cells() == Seq::<Cell>::empty(),
        ensures
            b.well_formed(),
            b.cells() == Seq::<Cell>::empty(),
            *b.values == child,
    {
        let mut offsets: Vec<usize> = Vec::with_capacity(capacity);
        offsets.push(0);
        let b = ListBuilder { offsets, values: Box::new(child), validity: Vec::with_capacity(capacity) };
        proof {
            assert(b.cells() =~= Seq::<Cell>::empty());
        }
        b
    }

    /// Append one non-null list row: the child rows
    /// `source[start .. start + count]` are copied into the child builder
    /// as one new element.
    pub fn append_range(&mut self, source: &Array, start: usize, count: usize)
        requires
            old(self).well_formed(),
            (*old(self).values).matches(*source),
            source.well_formed(),
            start + count <= source.cells().len(),
        ensures
            final(self).well_formed(),
            (*final(self).values).matches(*source),
            final(self).cells() == old(self).cells().push(
                Cell {
                    null: false,
                    value: CellValue::Nested(
                        source.cells().subrange(start as int, start as int + count as int),
                    ),
                },
            ),
    {
        let ghost pre = *self;
        let total = source.len();
        let end: usize = start + count;
        let mut j: usize = start;
        while j < end
            invariant
                start <= j <= end,
                end <= source.cells().len(),
                source.well_formed(),
                (*self.values).well_formed(),
                (*self.values).matches(*source),
                end - start == count,
                self.offsets@ == pre.offsets@,
                self.validity@ == pre.validity@,
                (*self.values).cells() == (*pre.values).cells() + source.cells().subrange(
                    start as int,
                    j as int,
                ),
            decreases end - j,
        {
            self.values.append_from(source, j);
            j = j + 1;
            proof {
                assert((*self.values).cells() =~= (*pre.values).cells() + source.cells().subrange(
                    start as int,
                    j as int,
                ));
            }
        }
        let next = self.values.len();
        self.offsets.push(next);
        self.validity.push(true);
        proof {
            lemma_list_push(
                pre,
                *self,
                source.cells().subrange(start as int, end as int),
                true,
            );
        }
    }

    /// Append one null row; the child builder is untouched.
    pub fn append_null(&mut self)
        requires
            old(self).well_formed(),
        ensures
            final(self).well_formed(),
            *final(self).values == *old(self).values,
            final(self).cells() == old(self).cells().push(
                Cell { null: true, value: CellValue::Nested(Seq::empty()) },
            ),
    {
        let ghost pre = *self;
        let next = self.values.len();
        self.offsets.push(next);
        self.validity.push(false);
        proof {
            assert((*self.values).cells() =~= (*pre.values).cells() + Seq::<Cell>::empty());
            lemma_list_push(pre, *self, Seq::empty(), false);
        }
    }

    /// Consume the builder and freeze its rows into an immutable array.
    pub fn finish(self) -> (a: ListArray)
        requires
            self.well_formed(),
        ensures
            a.well_formed(),
            a.cells() == self.cells(),
            forall|x: Array| #[trigger] (*self.values).matches(x) ==> (*a.values).same_encoding(x),
        decreases self,
    {
        let child = *self.values;
        let child_array = child.finish();
        let a = ListArray {
            offsets: self.offsets,
            values: Box::new(child_array),
            validity: self.validity,
        };
        proof {
            assert(a.cells() =~= self.cells());
        }
        a
    }
}

impl Builder {
    pub open spec fn well_formed(self) -> bool
        decreases self,
    {
        match self {
            Builder::Primitive(b) => b.well_formed(),
            Builder::Boolean(b) => b.well_formed(),
            Builder::Bytes(b) => b.well_formed(),
            Builder::List(b) => b.well_formed(),
        }
    }

    /// The rows appended so far, in order.
    pub open spec fn cells(self) -> Seq<Cell>
        decreases self,
    {
        match self {
            Builder::Primitive(b) => b.cells(),
            Builder::Boolean(b) => b.cells(),
            Builder::Bytes(b) => b.cells(),
            Builder::List(b) => b.cells(),
        }
    }

    /// The builder produces the same physical encoding as `a`, including,
    /// for lists, the child's encoding.
    pub open spec fn matches(self, a: Array) -> bool
        decreases self,
    {
        match (self, a) {
            (Builder::Primitive(_), Array::Primitive(_)) => true,
            (Builder::Boolean(_), Array::Boolean(_)) => true,
            (Builder::Bytes(_), Array::Bytes(_)) => true,
            (Builder::List(b), Array::List(a)) => (*b.values).matches(*a.values),
            _ => false,
        }
    }

    /// How many rows have been appended so far.
    pub fn len(&self) -> (n: usize)
        ensures
            n == self.cells().len(),
    {
        match self {
            Builder::Primitive(b) => b.values.len(),
            Builder::Boolean(b) => b.validity.len(),
            Builder::Bytes(b) => b.validity.len(),
            Builder::List(b) => b.validity.len(),
        }
    }

    /// A fresh, empty builder of the same encoding as `a`, pre-sized for
    /// `rows` rows; `payload` is the capacity heuristic for growable
    /// payloads (string bytes, child rows of a list).
    pub fn new_like(a: &Array, rows: usize, payload: usize) -> (b: Builder)
        ensures
            b.well_formed(),
            b.matches(*a),
            b.cells() == Seq::<Cell>::empty(),
        decreases *a,
    {
        match a {
            Array::Primitive(_) => Builder::Primitive(PrimitiveBuilder::with_capacity(rows)),
            Array::Boolean(_) => Builder::Boolean(BooleanBuilder::with_capacity(rows)),
            Array::Bytes(_) => Builder::Bytes(BytesBuilder::with_capacity(rows, payload)),
            Array::List(la) => {
                let child = Builder::new_like(&la.values, payload, payload);
                Builder::List(ListBuilder::with_child(child, rows))
            },
        }
    }

    /// Append row `i` of `a`, null flag included. This is the one
    /// operation the scatter pass needs of a builder; it dispatches to
    /// the encoding's backend and, for lists, copies the row's child
    /// range recursively.
    #[verifier::loop_isolation(false)]
    #[verifier::rlimit(50)]
    pub fn append_from(&mut self, a: &Array, i: usize)
        requires
            old(self).well_formed(),
            old(self).matches(*a),
            a.well_formed(),
            i < a.cells().len(),
        ensures
            final(self).well_formed(),
            final(self).matches(*a),
            final(self).cells() == old(self).cells().push(a.cells()[i as int]),
        decreases *a,
    {
        match &mut *self {
            Builder::Primitive(pb) => match a {
                Array::Primitive(pa) => {
                    let ghost pre = *pb;
                    let v = pa.values[i];
                    pb.values.push(v);
                    let flag = pa.validity[i];
                    pb.validity.push(flag);
                    proof {
                        assert(pb.cells() =~= pre.cells().push(a.cells()[i as int]));
                    }
                },
                _ => {
                    proof {
                        assert(false);
                    }
                },
            },
            Builder::Boolean(bb) => match a {
                Array::Boolean(ba) => {
                    bb.append_row_from(ba, i);
                },
                _ => {
                    proof {
                        assert(false);
                    }
                },
            },
            Builder::Bytes(sb) => match a {
                Array::Bytes(sa) => {
                    sb.append_row_from(sa, i);
                },
                _ => {
                    proof {
                        assert(false);
                    }
                },
            },
            Builder::List(lb) => match a {
                Array::List(la) => {
                    let ghost pre = *lb;
                    let bound = la.offsets.len();
                    assert(i + 1 < bound);
                    let start: usize = la.offsets[i];
                    let end: usize = la.offsets[i + 1];
                    proof {
                        crate::array::lemma_offsets_monotone(
                            la.offsets@,
                            la.validity@.len(),
                            (*la.values).cells().len(),
                            i + 1,
                            la.validity@.len() as int,
                        );
                    }
                    let mut j: usize = start;
                    while j < end
                        invariant
                            start <= j <= end,
                            end <= (*la.values).cells().len(),
                            (*la.values).well_formed(),
                            (*lb.values).well_formed(),
                            (*lb.values).matches(*la.values),
                            lb.offsets@ == pre.offsets@,
                            lb.validity@ == pre.validity@,
                            (*lb.values).cells() == (*pre.values).cells()
                                + (*la.values).cells().subrange(start as int, j as int),
                        decreases end - j,
                    {
                        lb.values.append_from(&la.values, j);
                        j = j + 1;
                        proof {
                            assert((*lb.values).cells() =~= (*pre.values).cells()
                                + (*la.values).cells().subrange(start as int, j as int));
                        }
                    }
                    let next = lb.values.len();
                    lb.offsets.push(next);
                    let flag = la.validity[i];
                    lb.validity.push(flag);
                    proof {
                        lemma_list_push(
                            pre,
                            *lb,
                            (*la.values).cells().subrange(start as int, end as int),
                            flag,
                        );
                    }
                },
                _ => {
                    proof {
                        assert(false);
                    }
                },
            },
        }
    }

    /// Consume the builder and freeze its rows into an immutable array of
    /// the same encoding.
    pub fn finish(self) -> (a: Array)
        requires
            self.well_formed(),
        ensures
            a.well_formed(),
            a.cells() == self.cells(),
            forall|x: Array| #[trigger] self.matches(x) ==> a.same_encoding(x),
        decreases self,
    {
        let ghost pre = self;
        match self {
            Builder::Primitive(b) => {
                let arr = Array::Primitive(b.finish());
                proof {
                    assert forall|x: Array| #[trigger] pre.matches(x) implies arr.same_encoding(
                        x,
                    ) by {
                        assert(x is Primitive);
                    }
                }
                arr
            },
            Builder::Boolean(b) => {
                let arr = Array::Boolean(b.finish());
                proof {
                    assert forall|x: Array| #[trigger] pre.matches(x) implies arr.same_encoding(
                        x,
                    ) by {
                        assert(x is Boolean);
                    }
                }
                arr
            },
            Builder::Bytes(b) => {
                let arr = Array::Bytes(b.finish());
                proof {
                    assert forall|x: Array| #[trigger] pre.matches(x) implies arr.same_encoding(
                        x,
                    ) by {
                        assert(x is Bytes);
                    }
                }
                arr
            },
            Builder::List(b) => {
                let ghost child_pre = *b.values;
                let arr = Array::List(b.finish());
                proof {
                    assert forall|x: Array| #[trigger] pre.matches(x) implies arr.same_encoding(
                        x,
                    ) by {
                        assert(x is List);
                        assert(child_pre.matches(*x->List_0.values));
                    }
                }
                arr
            },
        }
    }
}

} // verus!
