//! Splitting the group list into contiguous chunks, one per worker, so
//! that the workers share the load and between them handle every group
//! exactly once.

use vstd::prelude::*;

verus! {

/// All chunks joined back together, in order.
pub open spec fn concat_all<T>(chunks: Seq<Seq<T>>) -> Seq<T>
    decreases chunks.len(),
{
    if chunks.len() == 0 {
        Seq::empty()
    } else {
        concat_all(chunks.drop_last()) + chunks.last()
    }
}

/// The number of entries over all chunks.
pub open spec fn total_len<T>(chunks: Seq<Seq<T>>) -> nat
    decreases chunks.len(),
{
    if chunks.len() == 0 {
        0
    } else {
        total_len(chunks.drop_last()) + chunks.last().len()
    }
}

/// One progress event is owed per group, and a worker emits one per entry
/// of its chunk: over any chunking that joins back to the group list, the
/// events add up to exactly the number of groups.
pub proof fn lemma_one_event_per_group<T>(chunks: Seq<Seq<T>>)
    ensures
        total_len(chunks) == concat_all(chunks).len(),
    decreases chunks.len(),
{
    if chunks.len() > 0 {
        lemma_one_event_per_group(chunks.drop_last());
    }
}

/// The chunk size for `total` groups over `workers` workers.
pub open spec fn chunk_size_spec(total: int, workers: int) -> int {
    if total == 0 {
        0
    } else {
        (total - 1) / workers + 1
    }
}

/// The chunk size is the group count divided by the worker count, rounded
/// up; with no groups it is zero.
pub proof fn lemma_chunk_size_is_ceil(total: int, workers: int)
    requires
        workers >= 1,
        total >= 0,
    ensures
        total == 0 ==> chunk_size_spec(total, workers) == 0,
        total > 0 ==> 1 <= chunk_size_spec(total, workers),
        total > 0 ==> (chunk_size_spec(total, workers) - 1) * workers < total <= chunk_size_spec(
            total,
            workers,
        ) * workers,
{
    if total > 0 {
        let x = total - 1;
        vstd::arithmetic::div_mod::lemma_fundamental_div_mod(x, workers);
        vstd::arithmetic::div_mod::lemma_mod_bound(x, workers);
        let q = x / workers;
        let r = x % workers;
        assert(x == workers * q + r);
        assert(q >= 0) by (nonlinear_arith)
            requires
                x == workers * q + r,
                0 <= r < workers,
                x >= 0,
        ;
        assert((q + 1 - 1) * workers < total) by (nonlinear_arith)
            requires
                x == workers * q + r,
                0 <= r < workers,
                total == x + 1,
        ;
        assert(total <= (q + 1) * workers) by (nonlinear_arith)
            requires
                x == workers * q + r,
                0 <= r < workers,
                total == x + 1,
        ;
    }
}

/// The chunk size, as the orchestrator computes it.
pub fn chunk_size(total: usize, workers: usize) -> (cs: usize)
    requires
        workers >= 1,
    ensures
        cs == chunk_size_spec(total as int, workers as int),
{
    if total == 0 {
        0
    } else {
        (total - 1) / workers + 1
    }
}

proof fn lemma_full_total<T>(chunks: Seq<Seq<T>>, cs: int)
    requires
        cs >= 0,
        forall|c: int| 0 <= c < chunks.len() ==> #[trigger] chunks[c].len() == cs,
    ensures
        total_len(chunks) == cs * chunks.len(),
    decreases chunks.len(),
{
    if chunks.len() == 0 {
    } else {
        assert(forall|c: int|
            0 <= c < chunks.len() - 1 ==> #[trigger] chunks.drop_last()[c].len()
                == chunks[c].len());
        lemma_full_total(chunks.drop_last(), cs);
        assert(cs * (chunks.len() - 1) + cs == cs * chunks.len()) by (nonlinear_arith);
    }
}

proof fn lemma_concat_push<T>(chunks: Seq<Seq<T>>, more: Seq<T>)
    ensures
        concat_all(chunks.push(more)) == concat_all(chunks) + more,
        total_len(chunks.push(more)) == total_len(chunks) + more.len(),
{
    assert(chunks.push(more).drop_last() =~~= chunks);
    assert(chunks.push(more).last() == more);
}

/// Splits the group list into contiguous chunks of at most the computed
/// chunk size; every chunk but the last is full, none is empty, and joined
/// back together the chunks are exactly the group list.
pub fn partition(groups: Vec<(Vec<u8>, usize)>, workers: usize) -> (chunks: Vec<
    Vec<(Vec<u8>, usize)>,
>)
    requires
        workers >= 1,
    ensures
        concat_all(chunks@.map_values(|c: Vec<(Vec<u8>, usize)>| c@)) == groups@,
        total_len(chunks@.map_values(|c: Vec<(Vec<u8>, usize)>| c@)) == groups@.len(),
        forall|c: int|
            0 <= c < chunks@.len() ==> 1 <= #[trigger] chunks@[c]@.len() <= chunk_size_spec(
                groups@.len() as int,
                workers as int,
            ),
        forall|c: int|
            0 <= c < chunks@.len() - 1 ==> #[trigger] chunks@[c]@.len() == chunk_size_spec(
                groups@.len() as int,
                workers as int,
            ),
        chunks@.len() <= workers,
{
    let ghost all = groups@;
    let cs = chunk_size(groups.len(), workers);
    let mut chunks: Vec<Vec<(Vec<u8>, usize)>> = Vec::new();
    if groups.len() == 0 {
        proof {
            assert(chunks@.map_values(|c: Vec<(Vec<u8>, usize)>| c@) =~= Seq::<
                Seq<(Vec<u8>, usize)>,
            >::empty());
            assert(concat_all(chunks@.map_values(|c: Vec<(Vec<u8>, usize)>| c@)) =~= all);
        }
        return chunks;
    }
    let mut rest = groups;
    while rest.len() > cs
        invariant
            1 <= cs,
            cs == chunk_size_spec(all.len() as int, workers as int),
            1 <= rest@.len(),
            concat_all(chunks@.map_values(|c: Vec<(Vec<u8>, usize)>| c@)) + rest@ =~= all,
            forall|c: int|
                0 <= c < chunks@.len() ==> #[trigger] chunks@[c]@.len() == cs,
        decreases rest@.len(),
    {
        let ghost prev_chunks = chunks@.map_values(|c: Vec<(Vec<u8>, usize)>| c@);
        let ghost whole = rest@;
        let tail = rest.split_off(cs);
        proof {
            assert(rest@ + tail@ =~= whole);
        }
        chunks.push(rest);
        proof {
            assert(chunks@.map_values(|c: Vec<(Vec<u8>, usize)>| c@) =~~= prev_chunks.push(
                whole.subrange(0, cs as int),
            ));
            lemma_concat_push(prev_chunks, whole.subrange(0, cs as int));
            assert(concat_all(prev_chunks.push(whole.subrange(0, cs as int))) + tail@ =~= all);
        }
        rest = tail;
    }
    let ghost prev_chunks = chunks@.map_values(|c: Vec<(Vec<u8>, usize)>| c@);
    let ghost last = rest@;
    chunks.push(rest);
    proof {
        assert(chunks@.map_values(|c: Vec<(Vec<u8>, usize)>| c@) =~~= prev_chunks.push(last));
        lemma_concat_push(prev_chunks, last);
        assert(concat_all(prev_chunks.push(last)) =~= all);
        lemma_one_event_per_group(chunks@.map_values(|c: Vec<(Vec<u8>, usize)>| c@));
        lemma_full_total(prev_chunks, cs as int);
        lemma_chunk_size_is_ceil(all.len() as int, workers as int);
        assert(cs as int * prev_chunks.len() + last.len() == all.len());
        assert(prev_chunks.len() + 1 <= workers as int) by (nonlinear_arith)
            requires
                cs as int * prev_chunks.len() + last.len() == all.len(),
                all.len() <= cs as int * workers as int,
                last.len() >= 1,
                cs >= 1,
        ;
    }
    chunks
}

} // verus!
