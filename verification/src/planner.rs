use vstd::prelude::*;

use crate::error::ReadError;

verus! {

/// One planned chunk: the `index`-th range read covers the bytes
/// `[offset, offset + length)` of the object.
#[derive(Clone, Copy, Debug, PartialEq, Eq, Structural)]
pub struct ChunkPlan {
    pub index: usize,
    pub offset: u64,
    pub length: u64,
}

/// The length the `i`-th chunk must have: a full `chunk_size`, except that
/// the final chunk is truncated to the bytes that remain before `object_size`.
pub open spec fn chunk_len_at(object_size: int, start_offset: int, chunk_size: int, i: int) -> int {
    let off = start_offset + i * chunk_size;
    if object_size - off < chunk_size {
        object_size - off
    } else {
        chunk_size
    }
}

/// How many chunks a plan over `[start_offset, object_size)` must hold:
/// the span divided by `chunk_size`, rounded up.
pub open spec fn chunk_count(object_size: int, start_offset: int, chunk_size: int) -> int {
    (object_size - start_offset + chunk_size - 1) / chunk_size
}

/// The `i`-th entry of a plan: densely indexed, placed at `start_offset`
/// plus `i` full chunks, of the prescribed positive length.
pub open spec fn entry_is(
    e: ChunkPlan,
    object_size: int,
    start_offset: int,
    chunk_size: int,
    i: int,
) -> bool {
    &&& e.index == i
    &&& e.offset == start_offset + i * chunk_size
    &&& e.length == chunk_len_at(object_size, start_offset, chunk_size, i)
    &&& e.length >= 1
}

/// What it means for `p` to be the chunk plan of `[start_offset, object_size)`
/// with chunks of `chunk_size` bytes: every entry is in its prescribed place,
/// and the plan ends exactly at `object_size`.
pub open spec fn is_plan_for(
    p: Seq<ChunkPlan>,
    object_size: int,
    start_offset: int,
    chunk_size: int,
) -> bool {
    &&& forall|i: int|
        0 <= i < p.len() ==> entry_is(
            #[trigger] p[i],
            object_size,
            start_offset,
            chunk_size,
            i,
        )
    &&& (p.len() == 0 ==> start_offset == object_size)
    &&& (p.len() > 0 ==> p[p.len() - 1].offset + p[p.len() - 1].length == object_size)
}

/// Range Planner: split `[start_offset, object_size)` into consecutive
/// non-overlapping chunks of `chunk_size` bytes, the final chunk truncated
/// to the remaining span. `start_offset == object_size` yields an empty
/// plan; a start beyond the object is rejected as `InvalidRange`.
pub fn plan(object_size: u64, start_offset: u64, chunk_size: u64) -> (r: Result<
    Vec<ChunkPlan>,
    ReadError,
>)
    requires
        chunk_size >= 1,
    ensures
        match r {
            Ok(p) => start_offset <= object_size && is_plan_for(
                p@,
                object_size as int,
                start_offset as int,
                chunk_size as int,
            ),
            Err(e) => start_offset > object_size && e == ReadError::InvalidRange,
        },
{
    if start_offset > object_size {
        return Err(ReadError::InvalidRange);
    }
    let mut entries: Vec<ChunkPlan> = Vec::new();
    let mut offset: u64 = start_offset;
    while offset < object_size
        invariant
            chunk_size >= 1,
            start_offset <= offset <= object_size,
            forall|i: int|
                0 <= i < entries@.len() ==> entry_is(
                    #[trigger] entries@[i],
                    object_size as int,
                    start_offset as int,
                    chunk_size as int,
                    i,
                ),
            entries@.len() == 0 ==> offset == start_offset,
            entries@.len() > 0 ==> offset == entries@[entries@.len() - 1].offset
                + entries@[entries@.len() - 1].length,
            offset < object_size ==> offset == start_offset + entries@.len() * chunk_size,
        decreases object_size - offset,
    {
        let remaining: u64 = object_size - offset;
        let length: u64 = if remaining < chunk_size {
            remaining
        } else {
            chunk_size
        };
        let ghost l: int = entries@.len() as int;
        let ghost c: int = chunk_size as int;
        entries.push(ChunkPlan { index: entries.len(), offset, length });
        proof {
            assert((l + 1) * c == l * c + c) by (nonlinear_arith);
        }
        offset = offset + length;
    }
    Ok(entries)
}

/// The Range Planner's guarantees: a plan for `[start_offset, object_size)`
/// starts at `start_offset`, its chunks lie inside the span, are contiguous,
/// non-overlapping and increasing, each between one byte and `chunk_size`
/// bytes long, the last ends exactly at `object_size`, and there are as many
/// chunks as the span divided by `chunk_size`, rounded up.
pub proof fn lemma_plan_properties(
    p: Seq<ChunkPlan>,
    object_size: int,
    start_offset: int,
    chunk_size: int,
)
    requires
        chunk_size >= 1,
        0 <= start_offset <= object_size,
        is_plan_for(p, object_size, start_offset, chunk_size),
    ensures
        p.len() == chunk_count(object_size, start_offset, chunk_size),
        p.len() > 0 ==> p[0].offset == start_offset,
        forall|i: int| 0 <= i < p.len() ==> 1 <= #[trigger] p[i].length <= chunk_size,
        forall|i: int|
            0 <= i < p.len() ==> start_offset <= #[trigger] p[i].offset && p[i].offset + p[i].length
                <= object_size,
        forall|i: int, j: int|
            0 <= i < j < p.len() ==> #[trigger] p[i].offset + p[i].length <= #[trigger] p[j].offset,
        forall|i: int|
            0 <= i && i + 1 < p.len() ==> #[trigger] p[i].offset + p[i].length == p[i + 1].offset,
        p.len() > 0 ==> p[p.len() - 1].offset + p[p.len() - 1].length == object_size,
{
    assert forall|i: int| 0 <= i < p.len() implies 1 <= #[trigger] p[i].length <= chunk_size by {
        assert(entry_is(p[i], object_size, start_offset, chunk_size, i));
    }
    assert forall|i: int|
        0 <= i < p.len() implies start_offset <= #[trigger] p[i].offset && p[i].offset + p[i].length
        <= object_size by {
        assert(entry_is(p[i], object_size, start_offset, chunk_size, i));
        assert(i * chunk_size >= 0) by (nonlinear_arith)
            requires
                i >= 0 && chunk_size >= 1,
        ;
    }
    assert forall|i: int, j: int|
        0 <= i < j < p.len() implies #[trigger] p[i].offset + p[i].length
        <= #[trigger] p[j].offset by {
        assert(entry_is(p[i], object_size, start_offset, chunk_size, i));
        assert(entry_is(p[j], object_size, start_offset, chunk_size, j));
        assert((i + 1) * chunk_size <= j * chunk_size) by (nonlinear_arith)
            requires
                i + 1 <= j && chunk_size >= 1,
        ;
        assert((i + 1) * chunk_size == i * chunk_size + chunk_size) by (nonlinear_arith);
    }
    assert forall|i: int|
        0 <= i && i + 1 < p.len() implies #[trigger] p[i].offset + p[i].length == p[i
        + 1].offset by {
        assert(entry_is(p[i], object_size, start_offset, chunk_size, i));
        assert(entry_is(p[i + 1], object_size, start_offset, chunk_size, i + 1));
        assert((i + 1) * chunk_size == i * chunk_size + chunk_size) by (nonlinear_arith);
        // The successor chunk has at least one byte, so chunk `i` cannot yet
        // have been truncated: it is a full `chunk_size` bytes.
        assert(object_size - p[i + 1].offset >= 1);
        assert(p[i].length == chunk_size);
    }
    let n = p.len() as int;
    let span = object_size - start_offset;
    if n == 0 {
        assert(span == 0);
        vstd::arithmetic::div_mod::lemma_fundamental_div_mod_converse(
            chunk_size - 1,
            chunk_size,
            0,
            chunk_size - 1,
        );
    } else {
        assert(entry_is(p[n - 1], object_size, start_offset, chunk_size, n - 1));
        assert(n * chunk_size == (n - 1) * chunk_size + chunk_size) by (nonlinear_arith);
        // The last chunk starts after `n - 1` full chunks and ends at the
        // object's end, so the span lies strictly between `(n - 1)` and `n`
        // whole chunks (inclusive above).
        assert((n - 1) * chunk_size < span <= n * chunk_size);
        vstd::arithmetic::div_mod::lemma_fundamental_div_mod_converse(
            span + chunk_size - 1,
            chunk_size,
            n,
            span + chunk_size - 1 - n * chunk_size,
        );
    }
}

/// The Range Planner is deterministic: two plans for the same object span
/// and the same chunk size are equal entry for entry.
pub proof fn lemma_plan_deterministic(
    p1: Seq<ChunkPlan>,
    p2: Seq<ChunkPlan>,
    object_size: int,
    start_offset: int,
    chunk_size: int,
)
    requires
        chunk_size >= 1,
        0 <= start_offset <= object_size,
        is_plan_for(p1, object_size, start_offset, chunk_size),
        is_plan_for(p2, object_size, start_offset, chunk_size),
    ensures
        p1 == p2,
{
    lemma_plan_properties(p1, object_size, start_offset, chunk_size);
    lemma_plan_properties(p2, object_size, start_offset, chunk_size);
    assert forall|i: int| 0 <= i < p1.len() implies p1[i] == p2[i] by {
        assert(entry_is(p1[i], object_size, start_offset, chunk_size, i));
        assert(entry_is(p2[i], object_size, start_offset, chunk_size, i));
    }
    assert(p1 =~= p2);
}

} // verus!
