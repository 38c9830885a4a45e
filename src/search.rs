//! Scores every candidate center by the slime chunks around it and ranks them.

use vstd::prelude::*;
use rayon::prelude::{IndexedParallelIterator, IntoParallelRefIterator, ParallelIterator};
use crate::chunk::{is_slime_chunk, slime_chunk, wrap32};

verus! {

/// A candidate center and the number of slime chunks around it.
pub type Candidate = ((i32, i32), usize);

/// The chunk at `offset` from `center`, coordinates wrapped to 32 bits.
pub open spec fn neighbour(center: (i32, i32), offset: (i32, i32)) -> (i32, i32) {
    (wrap32(center.0 + offset.0) as i32, wrap32(center.1 + offset.1) as i32)
}

/// The slime chunks at the given offsets from `center`, in the order of the offsets.
pub open spec fn slime_around(seed: i64, center: (i32, i32), offsets: Seq<(i32, i32)>) -> Seq<
    (i32, i32),
>
    decreases offsets.len(),
{
    if offsets.len() == 0 {
        seq![]
    } else {
        let prev = slime_around(seed, center, offsets.drop_last());
        let p = neighbour(center, offsets.last());
        if slime_chunk(seed, p.0, p.1) {
            prev.push(p)
        } else {
            prev
        }
    }
}

/// Each center with its count of slime chunks around it, in the order of the centers.
pub open spec fn scored(seed: i64, centers: Seq<(i32, i32)>, offsets: Seq<(i32, i32)>) -> Seq<
    Candidate,
> {
    Seq::new(
        centers.len(),
        |i: int| (centers[i], slime_around(seed, centers[i], offsets).len() as usize),
    )
}

/// Counts never go up along the list.
pub open spec fn ranked_by_count(v: Seq<Candidate>) -> bool {
    forall|i: int, j: int| 0 <= i < j < v.len() ==> v[i].1 >= v[j].1
}

proof fn lemma_slime_around_len(seed: i64, center: (i32, i32), offsets: Seq<(i32, i32)>)
    ensures
        slime_around(seed, center, offsets).len() <= offsets.len(),
    decreases offsets.len(),
{
    if offsets.len() > 0 {
        lemma_slime_around_len(seed, center, offsets.drop_last());
    }
}

proof fn lemma_wrapping_add(a: i32, b: i32)
    ensures
        a.wrapping_add(b) as int == wrap32(a + b),
{
    crate::chunk::lemma_i32_ops(a, b);
}

/// Whether the chunk at `offset` from `center` is a slime chunk.
pub fn is_slime_neighbour(seed: i64, center: (i32, i32), offset: (i32, i32)) -> (r: bool)
    ensures
        r == slime_chunk(seed, neighbour(center, offset).0, neighbour(center, offset).1),
{
    proof {
        lemma_wrapping_add(center.0, offset.0);
        lemma_wrapping_add(center.1, offset.1);
    }
    is_slime_chunk(seed, center.0.wrapping_add(offset.0), center.1.wrapping_add(offset.1))
}

/// The slime chunks at the given offsets from `center`.
pub fn slime_chunks_around(seed: i64, center: (i32, i32), offsets: &Vec<(i32, i32)>) -> (found: Vec<
    (i32, i32),
>)
    ensures
        found@ == slime_around(seed, center, offsets@),
{
    let mut found: Vec<(i32, i32)> = Vec::new();
    let mut i: usize = 0;
    while i < offsets.len()
        invariant
            0 <= i <= offsets.len(),
            found@ == slime_around(seed, center, offsets@.subrange(0, i as int)),
        decreases offsets.len() - i,
    {
        let o = offsets[i];
        assert(offsets@.subrange(0, i + 1).drop_last() == offsets@.subrange(0, i as int));
        if is_slime_neighbour(seed, center, o) {
            proof {
                lemma_wrapping_add(center.0, o.0);
                lemma_wrapping_add(center.1, o.1);
            }
            found.push((center.0.wrapping_add(o.0), center.1.wrapping_add(o.1)));
        }
        i = i + 1;
    }
    assert(offsets@.subrange(0, offsets@.len() as int) == offsets@);
    found
}

/// The number of slime chunks at the given offsets from `center`.
pub fn count_slime_chunks(seed: i64, center: (i32, i32), offsets: &Vec<(i32, i32)>) -> (count:
    usize)
    ensures
        count == slime_around(seed, center, offsets@).len(),
        count <= offsets.len(),
{
    let mut count: usize = 0;
    let mut i: usize = 0;
    while i < offsets.len()
        invariant
            0 <= i <= offsets.len(),
            count == slime_around(seed, center, offsets@.subrange(0, i as int)).len(),
        decreases offsets.len() - i,
    {
        proof {
            lemma_slime_around_len(seed, center, offsets@.subrange(0, i as int));
        }
        assert(offsets@.subrange(0, i + 1).drop_last() == offsets@.subrange(0, i as int));
        if is_slime_neighbour(seed, center, offsets[i]) {
            count = count + 1;
        }
        i = i + 1;
    }
    assert(offsets@.subrange(0, offsets@.len() as int) == offsets@);
    proof {
        lemma_slime_around_len(seed, center, offsets@);
    }
    count
}

/// Relies on rayon's `par_iter().map(..).collect_into_vec(..)`: the results of
/// the map, one per center, in the order of the centers. The map only calls
/// `count_slime_chunks`.
#[verifier::external_body]
fn score_in_parallel(seed: i64, centers: &Vec<(i32, i32)>, offsets: &Vec<(i32, i32)>) -> (r: Vec<
    Candidate,
>)
    ensures
        r@.len() == centers@.len(),
        forall|i: int|
            0 <= i < centers@.len() ==> r@[i] == (centers@[i], slime_around(
                seed,
                centers@[i],
                offsets@,
            ).len() as usize),
{
    let mut r = Vec::new();
    centers.par_iter().map(|&c| (c, count_slime_chunks(seed, c, offsets))).collect_into_vec(&mut r);
    r
}

/// Relies on `slice::sort_by_key` on the count: the same items, counts not
/// going down.
#[verifier::external_body]
fn sort_by_count(v: &mut Vec<Candidate>)
    ensures
        final(v)@.to_multiset() == old(v)@.to_multiset(),
        forall|i: int, j: int| 0 <= i < j < final(v)@.len() ==> final(v)@[i].1 <= final(v)@[j].1,
{
    v.sort_by_key(|&(_, count)| count);
}

/// The candidates ordered by count, highest first.
pub fn rank_candidates(candidates: Vec<Candidate>) -> (ranked: Vec<Candidate>)
    ensures
        ranked@.to_multiset() == candidates@.to_multiset(),
        ranked_by_count(ranked@),
{
    let mut sorted = candidates;
    sort_by_count(&mut sorted);
    let mut ranked: Vec<Candidate> = Vec::new();
    let mut i: usize = sorted.len();
    while i > 0
        invariant
            0 <= i <= sorted.len(),
            ranked@ == sorted@.subrange(i as int, sorted@.len() as int).reverse(),
        decreases i,
    {
        i = i - 1;
        ranked.push(sorted[i]);
        assert(ranked@ == sorted@.subrange(i as int, sorted@.len() as int).reverse());
    }
    proof {
        assert(sorted@.subrange(0, sorted@.len() as int) == sorted@);
        sorted@.lemma_reverse_to_multiset();
    }
    ranked
}

/// Every center scored by the slime chunks at the offsets around it, highest
/// count first.
pub fn search(seed: i64, centers: &Vec<(i32, i32)>, offsets: &Vec<(i32, i32)>) -> (ranked: Vec<
    Candidate,
>)
    ensures
        ranked@.to_multiset() == scored(seed, centers@, offsets@).to_multiset(),
        ranked_by_count(ranked@),
{
    let scores = score_in_parallel(seed, centers, offsets);
    assert(scores@ =~= scored(seed, centers@, offsets@));
    rank_candidates(scores)
}

/// The candidate with the highest count; among equal ones, the last.
pub fn best_candidate(candidates: &Vec<Candidate>) -> (best: Option<Candidate>)
    ensures
        candidates@.len() == 0 <==> best is None,
        best matches Some(b) ==> exists|i: int|
            0 <= i < candidates@.len() && candidates@[i] == b && (forall|j: int|
                0 <= j < candidates@.len() ==> candidates@[j].1 <= b.1) && (forall|j: int|
                i < j < candidates@.len() ==> candidates@[j].1 < b.1),
{
    if candidates.len() == 0 {
        return None;
    }
    let mut k: usize = 0;
    let mut i: usize = 1;
    while i < candidates.len()
        invariant
            1 <= i <= candidates.len(),
            0 <= k < i,
            forall|j: int| 0 <= j < i ==> candidates@[j].1 <= candidates@[k as int].1,
            forall|j: int| k < j < i ==> candidates@[j].1 < candidates@[k as int].1,
        decreases candidates.len() - i,
    {
        if candidates[i].1 >= candidates[k].1 {
            k = i;
        }
        i = i + 1;
    }
    Some(candidates[k])
}

} // verus!
