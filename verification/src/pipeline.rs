use vstd::prelude::*;

use crate::error::ReadError;
use crate::fetch::collect_results;
use crate::fetch::concat_fetched;
use crate::fetch::fetched_bytes;
use crate::fetch::problem_at;
use crate::fetch::error_at;
use crate::fetch::FetchOutcome;
use crate::planner::is_plan_for;
use crate::planner::lemma_plan_properties;
use crate::planner::ChunkPlan;
use crate::reassemble::assemble_upto;
use crate::reassemble::count_index;
use crate::reassemble::covers_exactly;
use crate::reassemble::lemma_chunk_bytes_at;
use crate::reassemble::reassemble;
use crate::reassemble::ChunkResult;

verus! {

proof fn lemma_count_zero(rs: Seq<ChunkResult>, k: int)
    requires
        forall|j: int| 0 <= j < rs.len() ==> #[trigger] rs[j].index != k,
    ensures
        count_index(rs, k) == 0,
    decreases rs.len(),
{
    if rs.len() > 0 {
        let d = rs.drop_last();
        assert forall|j: int| 0 <= j < d.len() implies #[trigger] d[j].index != k by {
            assert(d[j] == rs[j]);
        }
        lemma_count_zero(d, k);
    }
}

proof fn lemma_dense_count_one(rs: Seq<ChunkResult>, k: int)
    requires
        forall|j: int| 0 <= j < rs.len() ==> #[trigger] rs[j].index == j,
        0 <= k < rs.len(),
    ensures
        count_index(rs, k) == 1,
    decreases rs.len(),
{
    let d = rs.drop_last();
    assert(rs[rs.len() - 1].index == rs.len() - 1);
    if k == rs.len() - 1 {
        assert forall|j: int| 0 <= j < d.len() implies #[trigger] d[j].index != k by {
            assert(d[j] == rs[j]);
        }
        lemma_count_zero(d, k);
    } else {
        assert forall|j: int| 0 <= j < d.len() implies #[trigger] d[j].index == j by {
            assert(d[j] == rs[j]);
        }
        lemma_dense_count_one(d, k);
    }
}

/// Results indexed densely in plan order cover the planned indices exactly.
proof fn lemma_dense_covers(rs: Seq<ChunkResult>)
    requires
        forall|j: int| 0 <= j < rs.len() ==> #[trigger] rs[j].index == j,
    ensures
        covers_exactly(rs),
{
    assert forall|k: int| 0 <= k < rs.len() implies count_index(rs, k) == 1 by {
        lemma_dense_count_one(rs, k);
    }
}

proof fn lemma_assemble_dense(rs: Seq<ChunkResult>, outcomes: Seq<FetchOutcome>, k: int)
    requires
        rs.len() == outcomes.len(),
        forall|j: int| 0 <= j < rs.len() ==> #[trigger] rs[j].index == j,
        forall|j: int| 0 <= j < rs.len() ==> #[trigger] rs[j].bytes@ == fetched_bytes(outcomes[j]),
        0 <= k <= rs.len(),
    ensures
        assemble_upto(rs, k) == concat_fetched(outcomes, k),
    decreases k,
{
    if k > 0 {
        lemma_assemble_dense(rs, outcomes, k - 1);
        lemma_dense_count_one(rs, k - 1);
        lemma_chunk_bytes_at(rs, k - 1, k - 1);
    }
}

/// The full pure tail of a run: pair the outcomes up with the plan, check
/// them, and reassemble the object buffer. The plan's entries must be
/// densely indexed in plan order, as the Range Planner produces them. On
/// success the buffer is the plan-order concatenation of the fetched
/// payloads and has the expected length; otherwise the first failed or
/// ill-sized chunk decides the error, and no partial buffer is returned.
pub fn assemble_object(
    plan: &Vec<ChunkPlan>,
    outcomes: &Vec<FetchOutcome>,
    expected_total_length: usize,
) -> (r: Result<Vec<u8>, ReadError>)
    requires
        forall|j: int| 0 <= j < plan@.len() ==> #[trigger] plan@[j].index == j,
    ensures
        match r {
            Ok(buf) => {
                &&& outcomes@.len() == plan@.len()
                &&& forall|j: int|
                    0 <= j < plan@.len() ==> !(#[trigger] problem_at(plan@, outcomes@, j))
                &&& buf@ == concat_fetched(outcomes@, outcomes@.len() as int)
                &&& buf@.len() == expected_total_length
            },
            Err(e) => {
                ||| (outcomes@.len() != plan@.len() && e == ReadError::IncompleteResult)
                ||| (outcomes@.len() == plan@.len() && exists|j: int|
                    {
                        &&& 0 <= j < plan@.len()
                        &&& #[trigger] problem_at(plan@, outcomes@, j)
                        &&& forall|i: int| 0 <= i < j ==> !problem_at(plan@, outcomes@, i)
                        &&& e == error_at(plan@, outcomes@, j)
                    })
                ||| {
                    &&& outcomes@.len() == plan@.len()
                    &&& forall|j: int|
                        0 <= j < plan@.len() ==> !(#[trigger] problem_at(plan@, outcomes@, j))
                    &&& e matches ReadError::LengthMismatch { expected, actual }
                        && expected == expected_total_length as u64 && actual as int
                        == concat_fetched(outcomes@, outcomes@.len() as int).len() && actual
                        != expected
                }
            },
        },
{
    let rs = match collect_results(plan, outcomes) {
        Ok(rs) => rs,
        Err(e) => {
            return Err(e);
        },
    };
    proof {
        lemma_dense_covers(rs@);
        lemma_assemble_dense(rs@, outcomes@, rs@.len() as int);
    }
    reassemble(&rs, expected_total_length)
}

/// Where the first `k` chunks of a plan end: at `start_offset` for none, at
/// the `k`-th entry's end otherwise.
spec fn plan_end(p: Seq<ChunkPlan>, start_offset: int, k: int) -> int {
    if k <= 0 {
        start_offset
    } else {
        p[k - 1].offset + p[k - 1].length
    }
}

proof fn lemma_fetched_prefix(
    object: Seq<u8>,
    p: Seq<ChunkPlan>,
    outcomes: Seq<FetchOutcome>,
    start_offset: int,
    chunk_size: int,
    k: int,
)
    requires
        chunk_size >= 1,
        0 <= start_offset <= object.len(),
        is_plan_for(p, object.len() as int, start_offset, chunk_size),
        outcomes.len() == p.len(),
        forall|j: int|
            0 <= j < p.len() ==> fetched_bytes(#[trigger] outcomes[j]) == object.subrange(
                p[j].offset as int,
                p[j].offset + p[j].length,
            ),
        0 <= k <= p.len(),
    ensures
        start_offset <= plan_end(p, start_offset, k) <= object.len(),
        concat_fetched(outcomes, k) == object.subrange(start_offset, plan_end(p, start_offset, k)),
    decreases k,
{
    lemma_plan_properties(p, object.len() as int, start_offset, chunk_size);
    if k == 0 {
        assert(object.subrange(start_offset, start_offset) =~= Seq::<u8>::empty());
    } else {
        lemma_fetched_prefix(object, p, outcomes, start_offset, chunk_size, k - 1);
        let prev = plan_end(p, start_offset, k - 1);
        let next = plan_end(p, start_offset, k);
        assert(prev == p[k - 1].offset);
        assert(next <= object.len());
        assert(object.subrange(start_offset, prev) + object.subrange(prev, next)
            =~= object.subrange(start_offset, next));
    }
}

/// Round trip: when every chunk's range read returned exactly the object's
/// bytes for its planned range, the plan-order concatenation of the payloads
/// is exactly the object's bytes over `[start_offset, object.len())` — the
/// full pipeline reproduces the remote object's contents.
pub proof fn lemma_round_trip(
    object: Seq<u8>,
    p: Seq<ChunkPlan>,
    outcomes: Seq<FetchOutcome>,
    start_offset: int,
    chunk_size: int,
)
    requires
        chunk_size >= 1,
        0 <= start_offset <= object.len(),
        is_plan_for(p, object.len() as int, start_offset, chunk_size),
        outcomes.len() == p.len(),
        forall|j: int|
            0 <= j < p.len() ==> fetched_bytes(#[trigger] outcomes[j]) == object.subrange(
                p[j].offset as int,
                p[j].offset + p[j].length,
            ),
    ensures
        concat_fetched(outcomes, outcomes.len() as int) == object.subrange(
            start_offset,
            object.len() as int,
        ),
{
    lemma_fetched_prefix(object, p, outcomes, start_offset, chunk_size, p.len() as int);
    if p.len() == 0 {
        assert(object.subrange(start_offset, object.len() as int) =~= Seq::<u8>::empty());
    }
}

/// Concurrency-discipline equivalence: two runs over the same object and
/// the same plan — one per sharing discipline, or any two completion
/// orders — whose range reads each returned the planned bytes, concatenate
/// to identical object buffers.
pub proof fn lemma_discipline_equivalence(
    object: Seq<u8>,
    p: Seq<ChunkPlan>,
    outcomes_shared: Seq<FetchOutcome>,
    outcomes_locked: Seq<FetchOutcome>,
    start_offset: int,
    chunk_size: int,
)
    requires
        chunk_size >= 1,
        0 <= start_offset <= object.len(),
        is_plan_for(p, object.len() as int, start_offset, chunk_size),
        outcomes_shared.len() == p.len(),
        outcomes_locked.len() == p.len(),
        forall|j: int|
            0 <= j < p.len() ==> fetched_bytes(#[trigger] outcomes_shared[j]) == object.subrange(
                p[j].offset as int,
                p[j].offset + p[j].length,
            ),
        forall|j: int|
            0 <= j < p.len() ==> fetched_bytes(#[trigger] outcomes_locked[j]) == object.subrange(
                p[j].offset as int,
                p[j].offset + p[j].length,
            ),
    ensures
        concat_fetched(outcomes_shared, outcomes_shared.len() as int) == concat_fetched(
            outcomes_locked,
            outcomes_locked.len() as int,
        ),
{
    lemma_round_trip(object, p, outcomes_shared, start_offset, chunk_size);
    lemma_round_trip(object, p, outcomes_locked, start_offset, chunk_size);
}

} // verus!
