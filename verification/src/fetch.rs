use vstd::prelude::*;

use crate::error::ReadError;
use crate::planner::ChunkPlan;
use crate::reassemble::ChunkResult;

verus! {

/// What one unit of concurrent work reported back for its chunk: the bytes
/// its range read returned, or the cause of the failure. The driver that
/// performs the remote reads hands one outcome per plan entry, in plan
/// order, whatever order the units completed in.
#[derive(Debug, Clone, PartialEq, Eq)]
pub enum FetchOutcome {
    Fetched(Vec<u8>),
    Failed(String),
}

pub open spec fn is_failed(o: FetchOutcome) -> bool {
    match o {
        FetchOutcome::Failed(_) => true,
        FetchOutcome::Fetched(_) => false,
    }
}

pub open spec fn fetched_bytes(o: FetchOutcome) -> Seq<u8> {
    match o {
        FetchOutcome::Fetched(b) => b@,
        FetchOutcome::Failed(_) => Seq::empty(),
    }
}

/// The concatenation, in plan order, of the payloads of the first `k`
/// outcomes.
pub open spec fn concat_fetched(outcomes: Seq<FetchOutcome>, k: int) -> Seq<u8>
    decreases k,
{
    if k <= 0 {
        Seq::empty()
    } else {
        concat_fetched(outcomes, k - 1) + fetched_bytes(outcomes[k - 1])
    }
}

/// Chunk `j` went wrong: its range read failed, or returned a payload of a
/// length other than the planned one (a data-integrity violation).
pub open spec fn problem_at(plan: Seq<ChunkPlan>, outcomes: Seq<FetchOutcome>, j: int) -> bool {
    is_failed(outcomes[j]) || fetched_bytes(outcomes[j]).len() != plan[j].length
}

/// The error that chunk `j`'s outcome is reported as.
pub open spec fn error_at(plan: Seq<ChunkPlan>, outcomes: Seq<FetchOutcome>, j: int) -> ReadError {
    match outcomes[j] {
        FetchOutcome::Failed(m) => ReadError::RemoteFetchError { index: plan[j].index, cause: m },
        FetchOutcome::Fetched(b) => ReadError::LengthMismatch {
            expected: plan[j].length,
            actual: b@.len() as u64,
        },
    }
}

/// Copy `src` into a fresh buffer.
fn copy_bytes(src: &Vec<u8>) -> (out: Vec<u8>)
    ensures
        out@ == src@,
{
    let mut out: Vec<u8> = Vec::new();
    let mut i: usize = 0;
    while i < src.len()
        invariant
            i <= src@.len(),
            out@ == src@.take(i as int),
        decreases src@.len() - i,
    {
        out.push(src[i]);
        proof {
            assert(src@.take(i as int) + seq![src@[i as int]] =~= src@.take(i as int + 1));
        }
        i = i + 1;
    }
    proof {
        assert(src@.take(src@.len() as int) =~= src@);
    }
    out
}

/// Fetch collection: turn the per-chunk outcomes into chunk results, one per
/// plan entry. The first chunk (in plan order) that failed or came back with
/// the wrong number of bytes decides the error of the whole run; partial
/// results are never returned. An outcome list that does not pair up with
/// the plan is a coordinator contract violation, `IncompleteResult`.
pub fn collect_results(plan: &Vec<ChunkPlan>, outcomes: &Vec<FetchOutcome>) -> (r: Result<
    Vec<ChunkResult>,
    ReadError,
>)
    ensures
        match r {
            Ok(rs) => {
                &&& outcomes@.len() == plan@.len()
                &&& forall|j: int|
                    0 <= j < plan@.len() ==> !(#[trigger] problem_at(plan@, outcomes@, j))
                &&& rs@.len() == plan@.len()
                &&& forall|j: int| 0 <= j < rs@.len() ==> #[trigger] rs@[j].index == plan@[j].index
                &&& forall|j: int|
                    0 <= j < rs@.len() ==> #[trigger] rs@[j].bytes@ == fetched_bytes(outcomes@[j])
            },
            Err(e) => {
                ||| (outcomes@.len() != plan@.len() && e == ReadError::IncompleteResult)
                ||| (outcomes@.len() == plan@.len() && exists|j: int|
                    {
                        &&& 0 <= j < plan@.len()
                        &&& #[trigger] problem_at(plan@, outcomes@, j)
                        &&& forall|i: int| 0 <= i < j ==> !problem_at(plan@, outcomes@, i)
                        &&& e == error_at(plan@, outcomes@, j)
                    })
            },
        },
{
    let n: usize = plan.len();
    if outcomes.len() != n {
        return Err(ReadError::IncompleteResult);
    }
    let mut rs: Vec<ChunkResult> = Vec::new();
    let mut j: usize = 0;
    while j < n
        invariant
            plan@.len() == n,
            outcomes@.len() == n,
            j <= n,
            rs@.len() == j,
            forall|i: int| 0 <= i < j ==> !(#[trigger] problem_at(plan@, outcomes@, i)),
            forall|i: int| 0 <= i < j ==> #[trigger] rs@[i].index == plan@[i].index,
            forall|i: int| 0 <= i < j ==> #[trigger] rs@[i].bytes@ == fetched_bytes(outcomes@[i]),
        decreases n - j,
    {
        match &outcomes[j] {
            FetchOutcome::Failed(m) => {
                let e = ReadError::RemoteFetchError { index: plan[j].index, cause: m.clone() };
                proof {
                    assert(problem_at(plan@, outcomes@, j as int));
                    assert(e == error_at(plan@, outcomes@, j as int));
                }
                return Err(e);
            },
            FetchOutcome::Fetched(b) => {
                if b.len() as u64 != plan[j].length {
                    let e = ReadError::LengthMismatch {
                        expected: plan[j].length,
                        actual: b.len() as u64,
                    };
                    proof {
                        assert(problem_at(plan@, outcomes@, j as int));
                        assert(e == error_at(plan@, outcomes@, j as int));
                    }
                    return Err(e);
                }
                let ghost old_rs = rs@;
                rs.push(ChunkResult { index: plan[j].index, bytes: copy_bytes(b) });
                proof {
                    assert(outcomes@[j as int] == FetchOutcome::Fetched(*b));
                    assert forall|i: int|
                        0 <= i < j + 1 implies #[trigger] rs@[i].bytes@ == fetched_bytes(
                        outcomes@[i],
                    ) by {
                        if i < j {
                            assert(rs@[i] == old_rs[i]);
                            assert(old_rs[i].bytes@ == fetched_bytes(outcomes@[i]));
                        } else {
                            assert(rs@[i].bytes@ == b@);
                        }
                    }
                }
            },
        }
        j = j + 1;
    }
    Ok(rs)
}

} // verus!
