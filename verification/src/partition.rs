//! Static partitioning of the candidate list across workers.
//!
//! The candidate files are split into contiguous, near-equal chunks, one
//! per worker. The effective worker count is the requested degree of
//! parallelism capped at the number of candidates, so no chunk is empty;
//! the remainder of the division is spread one item per worker over the
//! first workers. Every candidate lands in exactly one chunk.

use vstd::prelude::*;

verus! {

/// Number of workers actually used: the requested degree of parallelism,
/// capped at the number of candidates.
pub open spec fn worker_count(len: nat, dop: nat) -> nat {
    if len < dop {
        len
    } else {
        dop
    }
}

/// Start offset of chunk `k` when `len` items are split over `w` workers:
/// the first `len % w` chunks hold one extra item.
pub open spec fn chunk_start(len: int, w: int, k: int) -> int {
    let base = len / w;
    let rem = len % w;
    k * base + if k < rem {
        k
    } else {
        rem
    }
}

/// The half-open index ranges `[start, end)` of the chunks, one per worker.
///
/// The ranges are non-empty, contiguous, begin at zero and end at `len`,
/// and their sizes follow the remainder rule: `len / w` items each, plus
/// one for the first `len % w` chunks, where `w` is the effective worker
/// count.
pub fn partition_bounds(len: usize, dop: usize) -> (r: Vec<(usize, usize)>)
    requires
        dop >= 1,
    ensures
        r@.len() == worker_count(len as nat, dop as nat),
        forall|k: int| 0 <= k < r@.len() ==> (#[trigger] r@[k]).0 < r@[k].1 <= len,
        r@.len() > 0 ==> r@[0].0 == 0 && r@[r@.len() - 1].1 == len,
        forall|k: int| 0 <= k < r@.len() - 1 ==> (#[trigger] r@[k]).1 == r@[k + 1].0,
        forall|k: int| 0 <= k < r@.len() ==> (#[trigger] r@[k]).0 == chunk_start(
            len as int,
            r@.len() as int,
            k,
        ) && r@[k].1 == chunk_start(len as int, r@.len() as int, k + 1),
{
    let mut r: Vec<(usize, usize)> = Vec::new();
    if len == 0 {
        return r;
    }
    let w = if dop < len {
        dop
    } else {
        len
    };
    let base = len / w;
    let rem = len % w;
    proof {
        vstd::arithmetic::div_mod::lemma_fundamental_div_mod(len as int, w as int);
        assert(base >= 1) by (nonlinear_arith)
            requires
                len == w * base + rem,
                0 <= rem < w,
                w <= len,
                base >= 0,
        ;
    }
    let mut start: usize = 0;
    let mut k: usize = 0;
    while k < w
        invariant
            1 <= w <= len,
            base == len as int / w as int,
            rem == len as int % w as int,
            len == w * base + rem,
            0 <= rem < w,
            base >= 1,
            k <= w,
            r@.len() == k,
            start == chunk_start(len as int, w as int, k as int),
            start <= len,
            forall|j: int| 0 <= j < k ==> (#[trigger] r@[j]).0 == chunk_start(
                len as int,
                w as int,
                j,
            ) && r@[j].1 == chunk_start(len as int, w as int, j + 1),
            forall|j: int| 0 <= j < k ==> (#[trigger] r@[j]).0 < r@[j].1 <= len,
            forall|j: int| 0 <= j < k - 1 ==> (#[trigger] r@[j]).1 == r@[j + 1].0,
        decreases w - k,
    {
        proof {
            if k < rem {
                assert(base + 1 <= len) by (nonlinear_arith)
                    requires
                        len == w * base + rem,
                        0 <= rem < w,
                        base >= 1,
                        0 <= k < rem,
                ;
            }
        }
        let size = if k < rem {
            base + 1
        } else {
            base
        };
        proof {
            assert((k + 1) * base == k * base + base) by (nonlinear_arith);
            assert(chunk_start(len as int, w as int, k + 1) == start + size);
            assert(start + size <= len) by {
                lemma_chunk_start_le(len as int, w as int, k + 1);
            }
        }
        let end = start + size;
        r.push((start, end));
        start = end;
        k = k + 1;
    }
    proof {
        assert(start == chunk_start(len as int, w as int, w as int));
        assert(w as int * base == w * base) by (nonlinear_arith);
        assert(start == len);
    }
    r
}

/// Split the candidate list into per-worker chunks.
///
/// Concatenating the chunks in order gives back exactly the input list:
/// every candidate appears in exactly one chunk, none is duplicated and
/// none dropped. Each chunk is non-empty, and there are as many chunks
/// as effective workers.
/// Contiguous slices laid end to end flatten back to the sliced list:
/// chunks that cover `[0, end)` of `files` without gap or overlap
/// concatenate to exactly that prefix.
proof fn lemma_chunks_flatten(
    chunks: Seq<Seq<String>>,
    files: Seq<String>,
    bounds: Seq<(usize, usize)>,
)
    requires
        chunks.len() == bounds.len(),
        forall|j: int| 0 <= j < bounds.len() ==> (#[trigger] bounds[j]).0 <= bounds[j].1
            <= files.len(),
        forall|j: int| 0 <= j < chunks.len() ==> #[trigger] chunks[j] == files.subrange(
            bounds[j].0 as int,
            bounds[j].1 as int,
        ),
        bounds.len() > 0 ==> bounds[0].0 == 0,
        forall|j: int| 0 <= j < bounds.len() - 1 ==> (#[trigger] bounds[j]).1 == bounds[j + 1].0,
    ensures
        chunks.len() == 0 ==> chunks.flatten() == Seq::<String>::empty(),
        chunks.len() > 0 ==> chunks.flatten() == files.subrange(
            0,
            bounds[bounds.len() - 1].1 as int,
        ),
    decreases chunks.len(),
{
    chunks.lemma_flatten_and_flatten_alt_are_equivalent();
    if chunks.len() == 0 {
        assert(chunks.flatten() =~= Seq::<String>::empty());
    } else {
        let ch = chunks.drop_last();
        let bh = bounds.drop_last();
        lemma_chunks_flatten(ch, files, bh);
        ch.lemma_flatten_and_flatten_alt_are_equivalent();
        assert(chunks.flatten_alt() == ch.flatten_alt() + chunks.last());
        let end = bounds[bounds.len() - 1].1 as int;
        if ch.len() == 0 {
            assert(chunks.flatten_alt() =~= files.subrange(0, end));
        } else {
            assert(bh[bh.len() - 1].1 == bounds[bounds.len() - 1].0);
            assert(chunks.flatten_alt() =~= files.subrange(0, end));
        }
    }
}

/// Split the candidate list into per-worker chunks.
///
/// Concatenating the chunks in order gives back exactly the input list:
/// every candidate appears in exactly one chunk, none is duplicated and
/// none dropped. Each chunk is non-empty, and there are as many chunks
/// as effective workers.
pub fn chunks_of(files: &Vec<String>, dop: usize) -> (r: Vec<Vec<String>>)
    requires
        dop >= 1,
    ensures
        r@.len() == worker_count(files@.len(), dop as nat),
        r@.map_values(|c: Vec<String>| c@).flatten() == files@,
        forall|k: int| 0 <= k < r@.len() ==> (#[trigger] r@[k])@.len() >= 1,
{
    let bounds = partition_bounds(files.len(), dop);
    let mut r: Vec<Vec<String>> = Vec::new();
    let mut k: usize = 0;
    while k < bounds.len()
        invariant
            k <= bounds@.len(),
            r@.len() == k,
            forall|j: int| 0 <= j < bounds@.len() ==> (#[trigger] bounds@[j]).0 < bounds@[j].1
                <= files@.len(),
            forall|j: int| 0 <= j < k ==> (#[trigger] r@[j])@ == files@.subrange(
                bounds@[j].0 as int,
                bounds@[j].1 as int,
            ),
        decreases bounds@.len() - k,
    {
        let (s, e) = bounds[k];
        let mut chunk: Vec<String> = Vec::new();
        let mut i = s;
        while i < e
            invariant
                s <= i <= e,
                e <= files@.len(),
                chunk@ == files@.subrange(s as int, i as int),
            decreases e - i,
        {
            chunk.push(files[i].clone());
            assert(chunk@ =~= files@.subrange(s as int, i + 1));
            i = i + 1;
        }
        r.push(chunk);
        k = k + 1;
    }
    proof {
        let chunks = r@.map_values(|c: Vec<String>| c@);
        assert(forall|j: int| 0 <= j < r@.len() ==> #[trigger] chunks[j] == r@[j]@);
        lemma_chunks_flatten(chunks, files@, bounds@);
        if bounds@.len() == 0 {
            assert(chunks.flatten() =~= files@);
        } else {
            assert(files@.subrange(0, files@.len() as int) =~= files@);
        }
        assert(forall|j: int| 0 <= j < r@.len() ==> (#[trigger] r@[j])@.len() >= 1);
    }
    r
}

/// Work done file by file is indifferent to the partition: mapping a
/// per-file function over every chunk and concatenating the outcomes
/// gives the same sequence as mapping it over the whole candidate list.
/// Workers that each scan one chunk therefore produce, between them,
/// exactly the results of one sequential scan, whatever the order the
/// aggregator happens to receive them in.
pub proof fn lemma_partition_indifferent<B>(
    chunks: Seq<Seq<String>>,
    files: Seq<String>,
    f: spec_fn(String) -> B,
)
    requires
        chunks.flatten() == files,
    ensures
        chunks.map_values(|c: Seq<String>| c.map_values(f)).flatten() == files.map_values(f),
    decreases chunks.len(),
{
    let g = |c: Seq<String>| c.map_values(f);
    if chunks.len() == 0 {
        assert(chunks.map_values(g).flatten() =~= files.map_values(f));
    } else {
        let rest = chunks.drop_first();
        lemma_partition_indifferent(rest, rest.flatten(), f);
        assert(chunks.map_values(g).drop_first() =~= rest.map_values(g));
        assert(chunks.map_values(g).first() == g(chunks.first()));
        assert(chunks.map_values(g).flatten() == g(chunks.first())
            + rest.map_values(g).flatten());
        assert(files == chunks.first() + rest.flatten());
        assert(g(chunks.first()) + rest.flatten().map_values(f) =~= files.map_values(f));
    }
}

/// Every chunk boundary lies within the list: `chunk_start` never passes
/// `len`.
proof fn lemma_chunk_start_le(len: int, w: int, k: int)
    requires
        1 <= w <= len,
        0 <= k <= w,
    ensures
        chunk_start(len, w, k) <= len,
{
    let base = len / w;
    let rem = len % w;
    vstd::arithmetic::div_mod::lemma_fundamental_div_mod(len, w);
    assert(base >= 0) by {
        vstd::arithmetic::div_mod::lemma_div_pos_is_pos(len, w);
    }
    assert(k * base <= w * base) by (nonlinear_arith)
        requires
            0 <= k <= w,
            base >= 0,
    ;
}

} // verus!
