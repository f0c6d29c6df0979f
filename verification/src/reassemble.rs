use vstd::prelude::*;

use crate::error::ReadError;

verus! {

/// One completed fetch: the payload that the chunk at position `index` of
/// the plan asked for. Completion order is not assembly order; `index` is
/// the single source of truth for where the bytes belong.
#[derive(Debug, Clone, PartialEq, Eq)]
pub struct ChunkResult {
    pub index: usize,
    pub bytes: Vec<u8>,
}

/// How many results in `rs` carry the chunk index `k`.
pub open spec fn count_index(rs: Seq<ChunkResult>, k: int) -> nat
    decreases rs.len(),
{
    if rs.len() == 0 {
        0
    } else {
        count_index(rs.drop_last(), k) + (if rs.last().index == k {
            1nat
        } else {
            0nat
        })
    }
}

/// The results cover the planned indices exactly: every index is in range
/// and every index in range appears exactly once.
pub open spec fn covers_exactly(rs: Seq<ChunkResult>) -> bool {
    &&& forall|j: int| 0 <= j < rs.len() ==> #[trigger] rs[j].index < rs.len()
    &&& forall|k: int| 0 <= k < rs.len() ==> count_index(rs, k) == 1
}

/// The payload of the result that carries chunk index `k` (meaningful when
/// exactly one result does).
pub open spec fn chunk_bytes_at(rs: Seq<ChunkResult>, k: int) -> Seq<u8> {
    let j = choose|j: int| 0 <= j < rs.len() && #[trigger] rs[j].index == k;
    rs[j].bytes@
}

/// The concatenation, in chunk-index order, of the payloads for chunk
/// indices `0 .. k`.
pub open spec fn assemble_upto(rs: Seq<ChunkResult>, k: int) -> Seq<u8>
    decreases k,
{
    if k <= 0 {
        Seq::empty()
    } else {
        assemble_upto(rs, k - 1) + chunk_bytes_at(rs, k - 1)
    }
}

/// The whole object buffer: every chunk's payload, in chunk-index order.
pub open spec fn assembled(rs: Seq<ChunkResult>) -> Seq<u8> {
    assemble_upto(rs, rs.len() as int)
}

proof fn lemma_count_ge_one(rs: Seq<ChunkResult>, k: int, j: int)
    requires
        0 <= j < rs.len(),
        rs[j].index == k,
    ensures
        count_index(rs, k) >= 1,
    decreases rs.len(),
{
    if j == rs.len() - 1 {
    } else {
        assert(rs.drop_last()[j] == rs[j]);
        lemma_count_ge_one(rs.drop_last(), k, j);
    }
}

proof fn lemma_count_two(rs: Seq<ChunkResult>, k: int, j1: int, j2: int)
    requires
        0 <= j1 < j2 < rs.len(),
        rs[j1].index == k,
        rs[j2].index == k,
    ensures
        count_index(rs, k) >= 2,
    decreases rs.len(),
{
    if j2 == rs.len() - 1 {
        assert(rs.drop_last()[j1] == rs[j1]);
        lemma_count_ge_one(rs.drop_last(), k, j1);
    } else {
        assert(rs.drop_last()[j1] == rs[j1]);
        assert(rs.drop_last()[j2] == rs[j2]);
        lemma_count_two(rs.drop_last(), k, j1, j2);
    }
}

/// A chunk index counted once is carried by one result only.
proof fn lemma_count_unique(rs: Seq<ChunkResult>, k: int, j1: int, j2: int)
    requires
        count_index(rs, k) == 1,
        0 <= j1 < rs.len(),
        0 <= j2 < rs.len(),
        rs[j1].index == k,
        rs[j2].index == k,
    ensures
        j1 == j2,
{
    if j1 < j2 {
        lemma_count_two(rs, k, j1, j2);
    } else if j2 < j1 {
        lemma_count_two(rs, k, j2, j1);
    }
}

/// When chunk index `k` is carried exactly once and `rs[j]` carries it, the
/// payload at `k` is `rs[j]`'s.
pub(crate) proof fn lemma_chunk_bytes_at(rs: Seq<ChunkResult>, k: int, j: int)
    requires
        count_index(rs, k) == 1,
        0 <= j < rs.len(),
        rs[j].index == k,
    ensures
        chunk_bytes_at(rs, k) == rs[j].bytes@,
{
    assert(0 <= j < rs.len() && rs[j].index == k);
    let jc = choose|j: int| 0 <= j < rs.len() && #[trigger] rs[j].index == k;
    assert(0 <= jc < rs.len() && rs[jc].index == k);
    lemma_count_unique(rs, k, j, jc);
}

/// Extending a prefix by one result raises the count of exactly that
/// result's index.
proof fn lemma_count_take_succ(rs: Seq<ChunkResult>, j: int, k: int)
    requires
        0 <= j < rs.len(),
    ensures
        count_index(rs.take(j + 1), k) == count_index(rs.take(j), k) + (if rs[j].index == k {
            1nat
        } else {
            0nat
        }),
{
    assert(rs.take(j + 1).drop_last() =~= rs.take(j));
    assert(rs.take(j + 1).last() == rs[j]);
}

proof fn lemma_count_take_le(rs: Seq<ChunkResult>, j: int, k: int)
    requires
        0 <= j <= rs.len(),
    ensures
        count_index(rs.take(j), k) <= count_index(rs, k),
    decreases rs.len() - j,
{
    if j == rs.len() {
        assert(rs.take(j) =~= rs);
    } else {
        lemma_count_take_succ(rs, j, k);
        lemma_count_take_le(rs, j + 1, k);
    }
}

/// Append a copy of `src` to `dst`.
fn append_bytes(dst: &mut Vec<u8>, src: &Vec<u8>)
    ensures
        final(dst)@ == old(dst)@ + src@,
{
    let ghost dst0 = old(dst)@;
    let mut i: usize = 0;
    while i < src.len()
        invariant
            i <= src@.len(),
            dst@ == dst0 + src@.take(i as int),
        decreases src@.len() - i,
    {
        dst.push(src[i]);
        proof {
            assert(dst0 + src@.take(i as int) + seq![src@[i as int]] =~= dst0 + src@.take(
                i as int + 1,
            ));
        }
        i = i + 1;
    }
    proof {
        assert(src@.take(src@.len() as int) =~= src@);
    }
}

/// Reassembler: order the completed chunks by their plan index and
/// concatenate them into the object buffer. Fails with `IncompleteResult`
/// when the indices present are not exactly `0 .. results.len()`, and with
/// `LengthMismatch` when the concatenation does not have the expected
/// length. No partial buffer is ever returned.
pub fn reassemble(results: &Vec<ChunkResult>, expected_total_length: usize) -> (r: Result<
    Vec<u8>,
    ReadError,
>)
    ensures
        match r {
            Ok(buf) => {
                &&& covers_exactly(results@)
                &&& buf@ == assembled(results@)
                &&& buf@.len() == expected_total_length
            },
            Err(e) => match e {
                ReadError::IncompleteResult => !covers_exactly(results@),
                ReadError::LengthMismatch { expected, actual } => {
                    &&& covers_exactly(results@)
                    &&& expected == expected_total_length as u64
                    &&& actual as int == assembled(results@).len()
                    &&& actual != expected
                },
                _ => false,
            },
        },
{
    let n: usize = results.len();
    let mut slots: Vec<Option<Vec<u8>>> = Vec::new();
    while slots.len() < n
        invariant
            slots@.len() <= n,
            forall|k: int| 0 <= k < slots@.len() ==> (#[trigger] slots@[k]) is None,
        decreases n - slots@.len(),
    {
        slots.push(None);
    }
    let ghost rs = results@;
    let mut j: usize = 0;
    while j < n
        invariant
            rs == results@,
            n == rs.len(),
            slots@.len() == n,
            j <= n,
            forall|j2: int| 0 <= j2 < j ==> #[trigger] rs[j2].index < n,
            forall|k: int|
                0 <= k < n ==> match #[trigger] slots@[k] {
                    Some(b) => count_index(rs.take(j as int), k) == 1 && (exists|j2: int|
                        0 <= j2 < j && #[trigger] rs[j2].index == k && rs[j2].bytes@ == b@),
                    None => count_index(rs.take(j as int), k) == 0,
                },
        decreases n - j,
    {
        let idx: usize = results[j].index;
        if idx >= n {
            proof {
                assert(rs[j as int].index >= n);
            }
            return Err(ReadError::IncompleteResult);
        }
        if slots[idx].is_some() {
            proof {
                lemma_count_take_succ(rs, j as int, idx as int);
                lemma_count_take_le(rs, j as int + 1, idx as int);
                assert(count_index(rs, idx as int) >= 2);
            }
            return Err(ReadError::IncompleteResult);
        }
        let mut payload: Vec<u8> = Vec::new();
        append_bytes(&mut payload, &results[j].bytes);
        let ghost old_slots = slots@;
        slots.set(idx, Some(payload));
        proof {
            assert forall|k: int|
                0 <= k < n implies match #[trigger] slots@[k] {
                Some(b) => count_index(rs.take(j as int + 1), k) == 1 && (exists|j2: int|
                    0 <= j2 < j + 1 && #[trigger] rs[j2].index == k && rs[j2].bytes@ == b@),
                None => count_index(rs.take(j as int + 1), k) == 0,
            } by {
                lemma_count_take_succ(rs, j as int, k);
                if k == idx as int {
                    assert(rs[j as int].index == k);
                } else {
                    assert(slots@[k] == old_slots[k]);
                }
            }
        }
        j = j + 1;
    }
    proof {
        assert(rs.take(n as int) =~= rs);
    }
    let mut buf: Vec<u8> = Vec::new();
    let mut k: usize = 0;
    while k < n
        invariant
            rs == results@,
            n == rs.len(),
            slots@.len() == n,
            k <= n,
            forall|j2: int| 0 <= j2 < n ==> #[trigger] rs[j2].index < n,
            forall|k2: int|
                0 <= k2 < n ==> match #[trigger] slots@[k2] {
                    Some(b) => count_index(rs, k2) == 1 && (exists|j2: int|
                        0 <= j2 < n && #[trigger] rs[j2].index == k2 && rs[j2].bytes@ == b@),
                    None => count_index(rs, k2) == 0,
                },
            forall|k2: int| 0 <= k2 < k ==> count_index(rs, k2) == 1,
            buf@ == assemble_upto(rs, k as int),
        decreases n - k,
    {
        match &slots[k] {
            Some(b) => {
                proof {
                    let j2 = choose|j2: int|
                        0 <= j2 < n && #[trigger] rs[j2].index == k as int && rs[j2].bytes@ == b@;
                    lemma_chunk_bytes_at(rs, k as int, j2);
                }
                append_bytes(&mut buf, b);
            },
            None => {
                proof {
                    assert(count_index(rs, k as int) == 0);
                }
                return Err(ReadError::IncompleteResult);
            },
        }
        k = k + 1;
    }
    if buf.len() != expected_total_length {
        return Err(
            ReadError::LengthMismatch {
                expected: expected_total_length as u64,
                actual: buf.len() as u64,
            },
        );
    }
    Ok(buf)
}

} // verus!
