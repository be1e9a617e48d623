//! The laws of the scatter engine, proved once over the `bucket`
//! specification: because `scatter` and `scatter_unchecked` guarantee
//! that output `j`'s cells are `bucket(input cells, destinations, j)`,
//! each law below holds of every scatter result, for every encoding.

use vstd::prelude::*;
use vstd::seq_lib::lemma_multiset_commutative;
use crate::bucket::{bucket, count_dest, lemma_bucket_len};

verus! {

/// The sum of the lengths of buckets `0 .. k`.
pub open spec fn total_scattered_len<A>(s: Seq<A>, d: Seq<int>, k: int) -> nat
    decreases k,
{
    if k <= 0 {
        0
    } else {
        total_scattered_len(s, d, k - 1) + bucket(s, d, k - 1).len()
    }
}

/// The sum of `count_dest(d, j)` over `j` in `0 .. k`.
pub open spec fn total_count(d: Seq<int>, k: int) -> nat
    decreases k,
{
    if k <= 0 {
        0
    } else {
        total_count(d, k - 1) + count_dest(d, k - 1)
    }
}

proof fn lemma_total_scattered_is_total_count<A>(s: Seq<A>, d: Seq<int>, k: int)
    requires
        s.len() == d.len(),
    ensures
        total_scattered_len(s, d, k) == total_count(d, k),
    decreases k,
{
    if k > 0 {
        lemma_total_scattered_is_total_count(s, d, k - 1);
        lemma_bucket_len(s, d, k - 1);
    }
}

proof fn lemma_total_count_empty(d: Seq<int>, k: int)
    requires
        d.len() == 0,
    ensures
        total_count(d, k) == 0,
    decreases k,
{
    if k > 0 {
        lemma_total_count_empty(d, k - 1);
    }
}

proof fn lemma_total_count_drop_last(d: Seq<int>, k: int)
    requires
        d.len() > 0,
    ensures
        total_count(d, k) == total_count(d.drop_last(), k) + if 0 <= d.last() < k {
            1nat
        } else {
            0nat
        },
    decreases k,
{
    if k > 0 {
        lemma_total_count_drop_last(d, k - 1);
    }
}

proof fn lemma_total_count_all(d: Seq<int>, k: int)
    requires
        forall|i: int| 0 <= i < d.len() ==> 0 <= #[trigger] d[i] < k,
    ensures
        total_count(d, k) == d.len(),
    decreases d.len(),
{
    if d.len() == 0 {
        lemma_total_count_empty(d, k);
    } else {
        lemma_total_count_all(d.drop_last(), k);
        lemma_total_count_drop_last(d, k);
    }
}

/// Length conservation: when every destination is below `k`, the bucket
/// lengths sum to the input length — no row is lost or duplicated —
/// and each bucket's length is exactly the number of rows assigned to it
/// (the latter is `lemma_bucket_len`).
pub proof fn lemma_length_conservation<A>(s: Seq<A>, d: Seq<int>, k: int)
    requires
        s.len() == d.len(),
        forall|i: int| 0 <= i < d.len() ==> 0 <= #[trigger] d[i] < k,
    ensures
        total_scattered_len(s, d, k) == s.len(),
        forall|j: int| #[trigger] bucket(s, d, j).len() == count_dest(d, j),
{
    lemma_total_scattered_is_total_count(s, d, k);
    lemma_total_count_all(d, k);
    assert forall|j: int| #[trigger] bucket(s, d, j).len() == count_dest(d, j) by {
        lemma_bucket_len(s, d, j);
    }
}

/// The row indices `0 .. d.len()`, in order.
pub open spec fn index_seq(n: int) -> Seq<int> {
    Seq::new(n as nat, |i: int| i)
}

/// The original row indices that land in bucket `j`, read off in the
/// bucket's order.
pub open spec fn original_indices(d: Seq<int>, j: int) -> Seq<int> {
    bucket(index_seq(d.len() as int), d, j)
}

/// Stable partition: the original indices of any one bucket are strictly
/// increasing — no bucket ever reorders the rows it receives — and each
/// of them was indeed assigned to that bucket.
pub proof fn lemma_stable_partition(d: Seq<int>, j: int)
    ensures
        forall|m: int|
            0 <= m < original_indices(d, j).len() ==> 0 <= #[trigger] original_indices(d, j)[m]
                < d.len() && d[original_indices(d, j)[m]] == j,
        forall|m: int, n: int|
            0 <= m < n < original_indices(d, j).len() ==> original_indices(d, j)[m]
                < original_indices(d, j)[n],
    decreases d.len(),
{
    if d.len() > 0 {
        let e = d.drop_last();
        lemma_stable_partition(e, j);
        assert(index_seq(d.len() as int).drop_last() =~= index_seq(d.len() as int - 1));
        assert(index_seq(d.len() as int).last() == d.len() - 1);
        if d.last() == j {
            assert(original_indices(d, j) == original_indices(e, j).push(d.len() - 1));
        } else {
            assert(original_indices(d, j) == original_indices(e, j));
        }
        assert forall|m: int| 0 <= m < original_indices(d, j).len() implies 0 <= #[trigger]
        original_indices(d, j)[m] < d.len() && d[original_indices(d, j)[m]] == j by {
            if m < original_indices(e, j).len() {
                assert(original_indices(d, j)[m] == original_indices(e, j)[m]);
                assert(0 <= original_indices(e, j)[m] < e.len());
                assert(d[original_indices(e, j)[m]] == e[original_indices(e, j)[m]]);
            }
        }
    }
}

/// Row fidelity: a row assigned to bucket `j` appears there, unchanged
/// (null flag and value alike, since a cell carries both), at the
/// position given by how many earlier rows share its destination. That
/// position depends on the destination sequence alone, never on the
/// values: scattering every column of a row batch with one and the same
/// destination sequence lands row `i`'s fragments in the same bucket at
/// the same position in every column.
pub proof fn lemma_scatter_position<A>(s: Seq<A>, d: Seq<int>, i: int, j: int)
    requires
        s.len() == d.len(),
        0 <= i < s.len(),
        d[i] == j,
    ensures
        count_dest(d.take(i), j) < bucket(s, d, j).len(),
        bucket(s, d, j)[count_dest(d.take(i), j) as int] == s[i],
    decreases s.len(),
{
    if i == s.len() - 1 {
        lemma_bucket_len(s.drop_last(), d.drop_last(), j);
        assert(d.take(i) =~= d.drop_last());
    } else {
        lemma_scatter_position(s.drop_last(), d.drop_last(), i, j);
        assert(d.drop_last().take(i) =~= d.take(i));
    }
}

/// Buckets `0 .. k`, concatenated in ascending destination order: the
/// reassembled column.
pub open spec fn reassembled<A>(s: Seq<A>, d: Seq<int>, k: int) -> Seq<A>
    decreases k,
{
    if k <= 0 {
        Seq::empty()
    } else {
        reassembled(s, d, k - 1) + bucket(s, d, k - 1)
    }
}

proof fn lemma_reassembled_empty<A>(s: Seq<A>, d: Seq<int>, k: int)
    requires
        s.len() == 0,
        d.len() == 0,
    ensures
        reassembled(s, d, k).len() == 0,
    decreases k,
{
    if k > 0 {
        lemma_reassembled_empty(s, d, k - 1);
    }
}

proof fn lemma_reassembled_drop_last<A>(s: Seq<A>, d: Seq<int>, k: int)
    requires
        s.len() == d.len(),
        s.len() > 0,
        0 <= d.last() < k,
    ensures
        reassembled(s, d, k).to_multiset() == reassembled(
            s.drop_last(),
            d.drop_last(),
            k,
        ).to_multiset().insert(s.last()),
    decreases k,
{
    broadcast use vstd::seq_lib::group_to_multiset_ensures;

    let t = s.drop_last();
    let e = d.drop_last();
    if k > 0 {
        lemma_multiset_commutative(reassembled(s, d, k - 1), bucket(s, d, k - 1));
        lemma_multiset_commutative(reassembled(t, e, k - 1), bucket(t, e, k - 1));
        if d.last() == k - 1 {
            assert(bucket(s, d, k - 1) == bucket(t, e, k - 1).push(s.last()));
            assert(reassembled(s, d, k - 1) == reassembled(t, e, k - 1)) by {
                lemma_reassembled_same(s, d, k - 1);
            }
            assert(reassembled(s, d, k).to_multiset() =~= reassembled(t, e, k)
                .to_multiset()
                .insert(s.last()));
        } else {
            lemma_reassembled_drop_last(s, d, k - 1);
            assert(bucket(s, d, k - 1) == bucket(t, e, k - 1));
            assert(reassembled(s, d, k).to_multiset() =~= reassembled(t, e, k)
                .to_multiset()
                .insert(s.last()));
        }
    }
}

/// Below the last row's own destination, dropping that row changes no
/// bucket, hence not the partial reassembly either.
proof fn lemma_reassembled_same<A>(s: Seq<A>, d: Seq<int>, k: int)
    requires
        s.len() == d.len(),
        s.len() > 0,
        !(d.last() < k),
    ensures
        reassembled(s, d, k) == reassembled(s.drop_last(), d.drop_last(), k),
    decreases k,
{
    if k > 0 {
        lemma_reassembled_same(s, d, k - 1);
    }
}

/// Round-trip reconstruction: concatenating all `k` outputs by ascending
/// destination yields a permutation of the input (together with
/// `lemma_stable_partition`, exactly a stable sort of the input by
/// destination id).
pub proof fn lemma_round_trip<A>(s: Seq<A>, d: Seq<int>, k: int)
    requires
        s.len() == d.len(),
        forall|i: int| 0 <= i < d.len() ==> 0 <= #[trigger] d[i] < k,
    ensures
        reassembled(s, d, k).to_multiset() == s.to_multiset(),
    decreases s.len(),
{
    broadcast use vstd::seq_lib::group_to_multiset_ensures;

    if s.len() == 0 {
        lemma_reassembled_empty(s, d, k);
        assert(reassembled(s, d, k) =~= Seq::<A>::empty());
        assert(s =~= Seq::<A>::empty());
    } else {
        lemma_round_trip(s.drop_last(), d.drop_last(), k);
        lemma_reassembled_drop_last(s, d, k);
        assert(s =~= s.drop_last().push(s.last()));
        assert(s.to_multiset() == s.drop_last().to_multiset().insert(s.last()));
    }
}

proof fn lemma_reassembled_len<A>(s: Seq<A>, d: Seq<int>, k: int)
    ensures
        reassembled(s, d, k).len() == total_scattered_len(s, d, k),
    decreases k,
{
    if k > 0 {
        lemma_reassembled_len(s, d, k - 1);
    }
}

proof fn lemma_reassembled_index<A>(s: Seq<A>, d: Seq<int>, k: int, j: int, m: int)
    requires
        0 <= j < k,
        0 <= m < bucket(s, d, j).len(),
    ensures
        total_scattered_len(s, d, j) + m < reassembled(s, d, k).len(),
        reassembled(s, d, k)[total_scattered_len(s, d, j) + m] == bucket(s, d, j)[m],
    decreases k,
{
    lemma_reassembled_len(s, d, j);
    if j == k - 1 {
        lemma_reassembled_len(s, d, k - 1);
    } else {
        lemma_reassembled_index(s, d, k - 1, j, m);
    }
}

/// The exact place of every row after reassembly: row `i` stands at the
/// start of its destination's bucket plus the number of earlier rows
/// sharing that destination. Together with `lemma_round_trip` this says
/// the reassembled column is precisely the stable sort of the input by
/// destination id.
pub proof fn lemma_reassembled_position<A>(s: Seq<A>, d: Seq<int>, k: int, i: int)
    requires
        s.len() == d.len(),
        forall|i2: int| 0 <= i2 < d.len() ==> 0 <= #[trigger] d[i2] < k,
        0 <= i < s.len(),
    ensures
        total_scattered_len(s, d, d[i]) + count_dest(d.take(i), d[i]) < reassembled(
            s,
            d,
            k,
        ).len(),
        reassembled(s, d, k)[total_scattered_len(s, d, d[i]) + count_dest(d.take(i), d[i])
            as int] == s[i],
{
    lemma_scatter_position(s, d, i, d[i]);
    lemma_reassembled_index(s, d, k, d[i], count_dest(d.take(i), d[i]) as int);
}

/// A single partition is the identity: when every row is assigned to
/// destination zero, bucket zero is the input itself, content and order.
pub proof fn lemma_single_partition_identity<A>(s: Seq<A>, d: Seq<int>)
    requires
        s.len() == d.len(),
        forall|i: int| 0 <= i < d.len() ==> #[trigger] d[i] == 0,
    ensures
        bucket(s, d, 0) == s,
    decreases s.len(),
{
    if s.len() > 0 {
        lemma_single_partition_identity(s.drop_last(), d.drop_last());
        assert(bucket(s, d, 0) =~= s);
    }
}

} // verus!
