//! The specification of a stable partition.
//!
//! `bucket(s, d, j)` is the subsequence of `s` made of exactly those
//! elements whose destination in `d` is `j`, in their original order.
//! The scatter engine's contracts say that output `j` holds
//! `bucket(input, destinations, j)`; the laws in `laws` are proved of
//! `bucket` once and therefore hold for every encoding.

use vstd::prelude::*;

verus! {

/// The elements of `s` whose destination is `j`, in original order.
pub open spec fn bucket<A>(s: Seq<A>, d: Seq<int>, j: int) -> Seq<A>
    recommends
        s.len() == d.len(),
    decreases s.len(),
{
    if s.len() == 0 {
        Seq::empty()
    } else if d.last() == j {
        bucket(s.drop_last(), d.drop_last(), j).push(s.last())
    } else {
        bucket(s.drop_last(), d.drop_last(), j)
    }
}

/// How many entries of `d` equal `j`.
pub open spec fn count_dest(d: Seq<int>, j: int) -> nat
    decreases d.len(),
{
    if d.len() == 0 {
        0
    } else if d.last() == j {
        count_dest(d.drop_last(), j) + 1
    } else {
        count_dest(d.drop_last(), j)
    }
}

/// The destination sequence as mathematical integers.
pub open spec fn dests_view(d: Seq<usize>) -> Seq<int> {
    d.map_values(|x: usize| x as int)
}

/// Growing the processed prefix by one row extends exactly one bucket,
/// the row's own destination, by that row.
pub proof fn lemma_bucket_snoc<A>(s: Seq<A>, d: Seq<int>, i: int, j: int)
    requires
        s.len() == d.len(),
        0 <= i < s.len(),
    ensures
        bucket(s.take(i + 1), d.take(i + 1), j) == if d[i] == j {
            bucket(s.take(i), d.take(i), j).push(s[i])
        } else {
            bucket(s.take(i), d.take(i), j)
        },
{
    assert(s.take(i + 1).drop_last() =~= s.take(i));
    assert(d.take(i + 1).drop_last() =~= d.take(i));
    assert(s.take(i + 1).last() == s[i]);
    assert(d.take(i + 1).last() == d[i]);
}

/// The counting analogue of `lemma_bucket_snoc`.
pub proof fn lemma_count_snoc(d: Seq<int>, i: int, j: int)
    requires
        0 <= i < d.len(),
    ensures
        count_dest(d.take(i + 1), j) == count_dest(d.take(i), j) + if d[i] == j {
            1nat
        } else {
            0nat
        },
{
    assert(d.take(i + 1).drop_last() =~= d.take(i));
    assert(d.take(i + 1).last() == d[i]);
}

/// Taking the whole sequence changes nothing.
pub proof fn lemma_take_all<A>(s: Seq<A>)
    ensures
        s.take(s.len() as int) == s,
{
    assert(s.take(s.len() as int) =~= s);
}

/// No destination is named more often than there are rows.
pub proof fn lemma_count_le_len(d: Seq<int>, j: int)
    ensures
        count_dest(d, j) <= d.len(),
    decreases d.len(),
{
    if d.len() > 0 {
        lemma_count_le_len(d.drop_last(), j);
    }
}

/// A bucket holds exactly as many rows as have its destination.
pub proof fn lemma_bucket_len<A>(s: Seq<A>, d: Seq<int>, j: int)
    requires
        s.len() == d.len(),
    ensures
        bucket(s, d, j).len() == count_dest(d, j),
    decreases s.len(),
{
    if s.len() > 0 {
        lemma_bucket_len(s.drop_last(), d.drop_last(), j);
    }
}

} // verus!
