//! The scatter engine: split one column into `k` columns of the same
//! encoding, one per destination, by a two-pass counting partition.
//!
//! The algorithm is written once against the capability set of `Array`
//! and `Builder` (`len`, `is_null` / row cells, `append_from`): a count
//! pass sizes the `k` builders, a single scatter pass appends row `i` to
//! builder `destinations[i]`, and each builder finalizes into an
//! immutable output array.

use vstd::prelude::*;
use crate::array::Array;
use crate::builder::Builder;
use crate::bucket::{
    bucket, count_dest, dests_view, lemma_bucket_snoc, lemma_count_le_len, lemma_count_snoc,
    lemma_take_all,
};

verus! {

/// Why a checked scatter call was rejected.
#[derive(Clone, Copy, Debug, PartialEq, Eq, Structural)]
pub enum ScatterError {
    /// The destination sequence must name exactly one destination per row.
    LengthMismatch { array_len: usize, destinations_len: usize },
    /// Row `row` names destination `destination`, which is not below the
    /// partition count.
    InvalidDestination { row: usize, destination: usize },
    /// No partition exists to receive the rows of a non-empty array.
    ZeroPartitions,
}

/// The count pass: how many rows each destination will receive.
#[verifier::loop_isolation(false)]
fn count_destinations(destinations: &Vec<usize>, k: usize) -> (counts: Vec<usize>)
    requires
        forall|i: int| 0 <= i < destinations@.len() ==> destinations@[i] < k,
    ensures
        counts@.len() == k,
        forall|j: int| 0 <= j < k ==> counts@[j] == count_dest(dests_view(destinations@), j),
{
    let ghost d = dests_view(destinations@);
    let mut counts: Vec<usize> = vec![0; k];
    let n = destinations.len();
    let mut i: usize = 0;
    while i < n
        invariant
            i <= n,
            counts@.len() == k,
            forall|j: int| 0 <= j < k ==> counts@[j] == count_dest(d.take(i as int), j),
        decreases n - i,
    {
        let dest = destinations[i];
        proof {
            lemma_count_le_len(d.take(i as int), dest as int);
        }
        let slot = &mut counts[dest];
        *slot = *slot + 1;
        i = i + 1;
        proof {
            assert forall|j: int| 0 <= j < k implies counts@[j] == count_dest(
                d.take(i as int),
                j,
            ) by {
                lemma_count_snoc(d, i - 1, j);
            }
        }
    }
    proof {
        lemma_take_all(d);
    }
    counts
}

impl Array {
    /// Scatter without validating the destinations. The caller guarantees
    /// that the destination sequence has one entry per row and that every
    /// entry is below `k`; the checked entry point `scatter` validates
    /// both instead.
    ///
    /// Output `j` holds exactly the rows whose destination is `j`, in
    /// their original order, nulls carried through, in the input's
    /// encoding.
    #[verifier::loop_isolation(false)]
    pub fn scatter_unchecked(&self, destinations: &Vec<usize>, k: usize) -> (out: Vec<Array>)
        requires
            self.well_formed(),
            destinations@.len() == self.cells().len(),
            forall|i: int| 0 <= i < destinations@.len() ==> destinations@[i] < k,
        ensures
            out@.len() == k,
            forall|j: int| 0 <= j < k ==> (#[trigger] out@[j]).well_formed(),
            forall|j: int| 0 <= j < k ==> (#[trigger] out@[j]).same_encoding(*self),
            forall|j: int|
                0 <= j < k ==> (#[trigger] out@[j]).cells() == bucket(
                    self.cells(),
                    dests_view(destinations@),
                    j,
                ),
    {
        let ghost d = dests_view(destinations@);
        let ghost s = self.cells();
        let n = destinations.len();

        // Count pass: size each destination's builder exactly.
        let counts = count_destinations(destinations, k);

        // Allocate pass: one pre-sized builder per destination. Growable
        // payloads (string bytes, list child rows) get a proportional
        // share of the input's payload as a heuristic; builders grow past
        // it gracefully when it undershoots.
        let den = if k == 0 {
            1
        } else {
            k
        };
        let payload_share = match self {
            Array::Bytes(b) => b.data.len() / den,
            Array::List(l) => l.values.len() / den,
            _ => 0,
        };
        let mut builders: Vec<Builder> = Vec::with_capacity(k);
        let mut j: usize = 0;
        while j < k
            invariant
                j <= k,
                builders@.len() == j,
                forall|m: int| 0 <= m < j ==> (#[trigger] builders@[m]).well_formed(),
                forall|m: int| 0 <= m < j ==> (#[trigger] builders@[m]).matches(*self),
                forall|m: int|
                    0 <= m < j ==> (#[trigger] builders@[m]).cells() == Seq::<
                        crate::cell::Cell,
                    >::empty(),
            decreases k - j,
        {
            let b = Builder::new_like(self, counts[j], payload_share);
            builders.push(b);
            j = j + 1;
        }

        // Scatter pass: one forward sweep; row `i` goes, null flag and
        // all, to builder `destinations[i]`.
        let mut i: usize = 0;
        while i < n
            invariant
                i <= n,
                builders@.len() == k,
                forall|m: int| 0 <= m < k ==> (#[trigger] builders@[m]).well_formed(),
                forall|m: int| 0 <= m < k ==> (#[trigger] builders@[m]).matches(*self),
                forall|m: int|
                    0 <= m < k ==> (#[trigger] builders@[m]).cells() == bucket(
                        s.take(i as int),
                        d.take(i as int),
                        m,
                    ),
            decreases n - i,
        {
            let dest = destinations[i];
            let slot = &mut builders[dest];
            slot.append_from(self, i);
            i = i + 1;
            proof {
                assert forall|m: int| 0 <= m < k implies (#[trigger] builders@[m]).cells()
                    == bucket(s.take(i as int), d.take(i as int), m) by {
                    lemma_bucket_snoc(s, d, i - 1, m);
                }
            }
        }
        proof {
            lemma_take_all(s);
            lemma_take_all(d);
        }

        // Finalize: freeze the builders into immutable arrays, ordered by
        // destination id.
        let ghost all = builders@;
        let mut out: Vec<Array> = Vec::with_capacity(k);
        let mut idx: usize = 0;
        while idx < k
            invariant
                idx <= k,
                out@.len() == idx,
                builders@.len() == k - idx,
                forall|m: int| 0 <= m < k - idx ==> builders@[m] == all[idx + m],
                forall|j2: int| 0 <= j2 < idx ==> (#[trigger] out@[j2]).well_formed(),
                forall|j2: int| 0 <= j2 < idx ==> (#[trigger] out@[j2]).same_encoding(*self),
                forall|j2: int|
                    0 <= j2 < idx ==> (#[trigger] out@[j2]).cells() == bucket(s, d, j2),
            decreases k - idx,
        {
            let b = builders.remove(0);
            proof {
                assert(b == all[idx as int]);
                assert(b.matches(*self));
            }
            let arr = b.finish();
            out.push(arr);
            idx = idx + 1;
        }
        out
    }

    /// A contiguous sub-array: rows `start .. start + count`, as a
    /// freshly owned array of the same encoding (this crate's buffers
    /// are exclusively owned, so a slice is a copy, not a shared view).
    #[verifier::loop_isolation(false)]
    pub fn slice(&self, start: usize, count: usize) -> (r: Array)
        requires
            self.well_formed(),
            start + count <= self.cells().len(),
        ensures
            r.well_formed(),
            r.same_encoding(*self),
            r.cells() == self.cells().subrange(start as int, start as int + count as int),
    {
        let total = self.len();
        assert(start + count <= total);
        let mut b = Builder::new_like(self, count, count);
        proof {
            assert(Seq::<crate::cell::Cell>::empty() =~= self.cells().subrange(
                start as int,
                start as int,
            ));
        }
        let end: usize = start + count;
        let mut i: usize = start;
        while i < end
            invariant
                start <= i <= end,
                b.well_formed(),
                b.matches(*self),
                b.cells() == self.cells().subrange(start as int, i as int),
            decreases end - i,
        {
            b.append_from(self, i);
            i = i + 1;
            proof {
                assert(b.cells() =~= self.cells().subrange(start as int, i as int));
            }
        }
        b.finish()
    }

    /// The checked entry point: validate the destinations, then scatter.
    ///
    /// Succeeds exactly when the destination sequence has one entry per
    /// row, every entry is below `k`, and `k` is positive unless the
    /// array is empty; each violation is reported as its own error, the
    /// invalid destination together with the first offending row. No
    /// builder is created before validation completes.
    #[verifier::loop_isolation(false)]
    pub fn scatter(&self, destinations: &Vec<usize>, k: usize) -> (r: Result<
        Vec<Array>,
        ScatterError,
    >)
        requires
            self.well_formed(),
        ensures
            match r {
                Ok(out) => {
                    &&& destinations@.len() == self.cells().len()
                    &&& (k > 0 || self.cells().len() == 0)
                    &&& forall|i: int|
                        0 <= i < destinations@.len() ==> destinations@[i] < k
                    &&& out@.len() == k
                    &&& forall|j: int| 0 <= j < k ==> (#[trigger] out@[j]).well_formed()
                    &&& forall|j: int| 0 <= j < k ==> (#[trigger] out@[j]).same_encoding(*self)
                    &&& forall|j: int|
                        0 <= j < k ==> (#[trigger] out@[j]).cells() == bucket(
                            self.cells(),
                            dests_view(destinations@),
                            j,
                        )
                },
                Err(e) => match e {
                    ScatterError::LengthMismatch { array_len, destinations_len } => {
                        &&& array_len == self.cells().len()
                        &&& destinations_len == destinations@.len()
                        &&& array_len != destinations_len
                    },
                    ScatterError::InvalidDestination { row, destination } => {
                        &&& destinations@.len() == self.cells().len()
                        &&& (k > 0 || self.cells().len() == 0)
                        &&& row < destinations@.len()
                        &&& destination == destinations@[row as int]
                        &&& destination >= k
                        &&& forall|m: int| 0 <= m < row ==> destinations@[m] < k
                    },
                    ScatterError::ZeroPartitions => {
                        &&& destinations@.len() == self.cells().len()
                        &&& k == 0
                        &&& self.cells().len() > 0
                    },
                },
            },
    {
        let n = self.len();
        if destinations.len() != n {
            return Err(
                ScatterError::LengthMismatch {
                    array_len: n,
                    destinations_len: destinations.len(),
                },
            );
        }
        if k == 0 && n > 0 {
            return Err(ScatterError::ZeroPartitions);
        }
        let mut i: usize = 0;
        while i < n
            invariant
                i <= n,
                n == destinations@.len(),
                forall|m: int| 0 <= m < i ==> destinations@[m] < k,
            decreases n - i,
        {
            let dest = destinations[i];
            if dest >= k {
                return Err(ScatterError::InvalidDestination { row: i, destination: dest });
            }
            i = i + 1;
        }
        Ok(self.scatter_unchecked(destinations, k))
    }
}

} // verus!
