use vstd::prelude::*;

use crate::codec::{be64_bytes, clip, push_be64, push_clip};
use crate::signature::{ChunkModel, Signature};
use crate::VERSION;

verus! {

/// One step of a patch: `Copy` reuses bytes of the source file, `Insert`
/// takes bytes of the target file.
#[derive(Clone, Copy, Debug, PartialEq, Eq, Structural)]
pub enum Operation {
    Copy,
    Insert,
}

/// The wire tag of an operation.
pub open spec fn op_tag(o: Operation) -> u8 {
    match o {
        Operation::Copy => 0,
        Operation::Insert => 1,
    }
}

impl Operation {
    pub fn to_u8(&self) -> (r: u8)
        ensures
            r == op_tag(*self),
    {
        match self {
            Operation::Copy => 0,
            Operation::Insert => 1,
        }
    }

    /// The operation named by a wire tag; only the two known tags are
    /// accepted.
    pub fn from_u8(operation: u8) -> (r: Self)
        requires
            operation == 0 || operation == 1,
        ensures
            op_tag(r) == operation,
    {
        if operation == 0 {
            Operation::Copy
        } else {
            Operation::Insert
        }
    }
}

/// Chunk identity: hash and length agree; offsets play no part.
pub open spec fn chunk_match(x: ChunkModel, y: ChunkModel) -> bool {
    x.hash == y.hash && x.length == y.length
}

/// The first index of `a` holding a chunk identical to `c`, if any.
pub open spec fn find_match(a: Seq<ChunkModel>, c: ChunkModel) -> Option<int>
    decreases a.len(),
{
    if a.len() == 0 {
        None
    } else if chunk_match(a[0], c) {
        Some(0)
    } else {
        match find_match(a.skip(1), c) {
            Some(i) => Some(i + 1),
            None => None,
        }
    }
}

/// `find_match` returns the least matching index, or `None` when no chunk
/// matches.
pub proof fn lemma_find_match(a: Seq<ChunkModel>, c: ChunkModel)
    ensures
        match find_match(a, c) {
            Some(i) => 0 <= i < a.len() && chunk_match(a[i], c) && (forall|j: int|
                0 <= j < i ==> !chunk_match(a[j], c)),
            None => forall|j: int| 0 <= j < a.len() ==> !chunk_match(a[j], c),
        },
    decreases a.len(),
{
    if a.len() == 0 {
    } else if chunk_match(a[0], c) {
    } else {
        lemma_find_match(a.skip(1), c);
        assert(forall|j: int| 0 <= j < a.skip(1).len() ==> a.skip(1)[j] == a[j + 1]);
        match find_match(a.skip(1), c) {
            Some(i) => {
                assert(find_match(a, c) == Some(i + 1));
                assert(chunk_match(a[i + 1], c));
                assert forall|j: int| 0 <= j < i + 1 implies !chunk_match(a[j], c) by {
                    if j > 0 {
                        assert(a[j] == a.skip(1)[j - 1]);
                    }
                }
            },
            None => {
                assert(find_match(a, c) is None);
                assert forall|j: int| 0 <= j < a.len() implies !chunk_match(a[j], c) by {
                    if j > 0 {
                        assert(a[j] == a.skip(1)[j - 1]);
                    }
                }
            },
        }
    }
}

/// The planner's walking state: the runs already emitted, and the kind,
/// start and length of the run being grown. A zero length means no run is
/// open.
#[verifier::ext_equal]
pub ghost struct PlanState {
    pub ops: Seq<(Operation, u64, u64)>,
    pub op: Operation,
    pub off: u64,
    pub len: u64,
}

/// The state before any target chunk has been seen.
pub open spec fn plan_init() -> PlanState {
    PlanState { ops: Seq::empty(), op: Operation::Copy, off: 0, len: 0 }
}

/// The emitted runs with the open run, if any, appended.
pub open spec fn flush(st: PlanState) -> Seq<(Operation, u64, u64)> {
    if st.len > 0 {
        st.ops.push((st.op, st.off, st.len))
    } else {
        st.ops
    }
}

/// One planner step for the target chunk `c`: a chunk found in `a` extends a
/// contiguous `Copy` run or opens a new one at its source offset; a chunk
/// not found extends a contiguous `Insert` run or opens a new one at the
/// chunk's target offset.
pub open spec fn plan_step(a: Seq<ChunkModel>, st: PlanState, c: ChunkModel) -> PlanState {
    match find_match(a, c) {
        Some(i) => {
            let s = a[i].offset;
            if st.op == Operation::Copy && st.len > 0 && st.off + st.len == s {
                PlanState { ops: st.ops, op: st.op, off: st.off, len: (st.len + c.length) as u64 }
            } else {
                PlanState { ops: flush(st), op: Operation::Copy, off: s, len: c.length }
            }
        },
        None => {
            if st.op == Operation::Insert && st.len > 0 && st.off + st.len == c.offset {
                PlanState { ops: st.ops, op: st.op, off: st.off, len: (st.len + c.length) as u64 }
            } else {
                PlanState { ops: flush(st), op: Operation::Insert, off: c.offset, len: c.length }
            }
        },
    }
}

/// The planner's state after walking the first `n` chunks of `b`.
pub open spec fn plan_fold(a: Seq<ChunkModel>, b: Seq<ChunkModel>, n: int) -> PlanState
    decreases n,
{
    if n <= 0 {
        plan_init()
    } else {
        plan_step(a, plan_fold(a, b, n - 1), b[n - 1])
    }
}

/// The ordered operation list that turns the file summarized by `a` into the
/// file summarized by `b`.
pub open spec fn plan_ops(a: Seq<ChunkModel>, b: Seq<ChunkModel>) -> Seq<(Operation, u64, u64)> {
    flush(plan_fold(a, b, b.len() as int))
}

/// No chunk's end lies beyond the `u64` range.
pub open spec fn chunks_wf(cs: Seq<ChunkModel>) -> bool {
    forall|i: int| 0 <= i < cs.len() ==> (#[trigger] cs[i]).offset + cs[i].length <= u64::MAX
}

/// Whether every chunk's end stays within the `u64` range.
pub fn chunks_wf_check(chunks: &Vec<crate::signature::Chunk>) -> (r: bool)
    ensures
        r == chunks_wf(chunks@.map_values(|c: crate::signature::Chunk| c@)),
{
    let ghost ms = chunks@.map_values(|c: crate::signature::Chunk| c@);
    let n = chunks.len();
    let mut i: usize = 0;
    while i < n
        invariant
            i <= n,
            n == chunks@.len(),
            ms == chunks@.map_values(|c: crate::signature::Chunk| c@),
            forall|j: int| 0 <= j < i ==> (#[trigger] ms[j]).offset + ms[j].length <= u64::MAX,
        decreases n - i,
    {
        if chunks[i].length > u64::MAX - chunks[i].offset {
            proof {
                assert(ms[i as int].offset + ms[i as int].length > u64::MAX);
            }
            return false;
        }
        i = i + 1;
    }
    true
}

/// The first chunk of `chunks` identical to `c`, by hash and length.
fn find_first(chunks: &Vec<crate::signature::Chunk>, c: &crate::signature::Chunk) -> (r: Option<
    usize,
>)
    ensures
        r matches Some(i) ==> find_match(chunks@.map_values(|x: crate::signature::Chunk| x@), c@)
            == Some(i as int) && i < chunks@.len(),
        r is None ==> find_match(chunks@.map_values(|x: crate::signature::Chunk| x@), c@)
            is None,
{
    let ghost ms = chunks@.map_values(|x: crate::signature::Chunk| x@);
    let n = chunks.len();
    let mut i: usize = 0;
    while i < n
        invariant
            i <= n,
            n == chunks@.len(),
            ms == chunks@.map_values(|x: crate::signature::Chunk| x@),
            forall|j: int| 0 <= j < i ==> !chunk_match(ms[j], c@),
        decreases n - i,
    {
        if crate::codec::bytes_eq(&chunks[i].hash, &c.hash) && chunks[i].length == c.length {
            proof {
                assert(chunk_match(ms[i as int], c@));
                lemma_find_match(ms, c@);
                match find_match(ms, c@) {
                    Some(k) => {
                        if k < i as int {
                            assert(!chunk_match(ms[k], c@));
                        }
                        if k > i as int {
                            assert(!chunk_match(ms[i as int], c@));
                        }
                        assert(k == i as int);
                    },
                    None => {
                        assert(!chunk_match(ms[i as int], c@));
                    },
                }
            }
            return Some(i);
        }
        i = i + 1;
    }
    proof {
        lemma_find_match(ms, c@);
        match find_match(ms, c@) {
            Some(k) => {
                assert(!chunk_match(ms[k], c@));
            },
            None => {},
        }
    }
    None
}

/// Compares two signatures and returns the ordered `(operation, offset,
/// size)` runs that rebuild the target: `Copy` offsets address the source
/// file, `Insert` offsets address the target file.
#[verifier::loop_isolation(false)]
pub fn diff_signatures(a: &Signature, b: &Signature) -> (diff: Vec<(Operation, u64, u64)>)
    requires
        chunks_wf(a@.chunks),
        chunks_wf(b@.chunks),
    ensures
        diff@ == plan_ops(a@.chunks, b@.chunks),
{
    let ghost am = a@.chunks;
    let ghost bm = b@.chunks;
    let mut diff: Vec<(Operation, u64, u64)> = Vec::new();
    let mut current_op: Operation = Operation::Copy;
    let mut current_offset: u64 = 0;
    let mut current_length: u64 = 0;
    let n = b.chunks.len();
    let mut i: usize = 0;
    proof {
        assert(plan_fold(am, bm, 0) =~= PlanState {
            ops: diff@,
            op: current_op,
            off: current_offset,
            len: current_length,
        });
    }
    while i < n
        invariant
            i <= n,
            plan_fold(am, bm, i as int) == (PlanState {
                ops: diff@,
                op: current_op,
                off: current_offset,
                len: current_length,
            }),
        decreases n - i,
    {
        let ghost st = plan_fold(am, bm, i as int);
        let new_chunk = &b.chunks[i];
        proof {
            assert(bm[i as int] == new_chunk@);
        }
        match find_first(&a.chunks, new_chunk) {
            Some(idx) => {
                proof {
                    lemma_find_match(am, new_chunk@);
                }
                let s = a.chunks[idx].offset;
                if current_op == Operation::Copy && current_length > 0 && s >= current_offset && s
                    - current_offset == current_length {
                    proof {
                        assert(chunk_match(am[idx as int], new_chunk@));
                        assert(am[idx as int].offset + am[idx as int].length <= u64::MAX);
                    }
                    current_length = current_length + new_chunk.length;
                } else {
                    if current_length > 0 {
                        diff.push((current_op, current_offset, current_length));
                    }
                    current_op = Operation::Copy;
                    current_offset = s;
                    current_length = new_chunk.length;
                }
            },
            None => {
                if current_op == Operation::Insert && current_length > 0 && new_chunk.offset
                    >= current_offset && new_chunk.offset - current_offset == current_length {
                    proof {
                        assert(bm[i as int].offset + bm[i as int].length <= u64::MAX);
                    }
                    current_length = current_length + new_chunk.length;
                } else {
                    if current_length > 0 {
                        diff.push((current_op, current_offset, current_length));
                    }
                    current_op = Operation::Insert;
                    current_offset = new_chunk.offset;
                    current_length = new_chunk.length;
                }
            },
        }
        proof {
            assert(plan_fold(am, bm, i as int + 1) == plan_step(am, st, bm[i as int]));
            assert(plan_fold(am, bm, i as int + 1) =~= PlanState {
                ops: diff@,
                op: current_op,
                off: current_offset,
                len: current_length,
            });
        }
        i = i + 1;
    }
    if current_length > 0 {
        diff.push((current_op, current_offset, current_length));
    }
    proof {
        assert(diff@ =~= plan_ops(am, bm));
    }
    diff
}

// ---------------------------------------------------------------------------
// Patch bytes
// ---------------------------------------------------------------------------
/// The serialized record of one run: tag, then for `Copy` the source offset
/// and size big-endian, for `Insert` the size big-endian followed by the
/// payload bytes taken from the target.
pub open spec fn op_patch(o: (Operation, u64, u64), tgt: Seq<u8>) -> Seq<u8> {
    if o.0 == Operation::Copy {
        seq![0u8] + be64_bytes(o.1) + be64_bytes(o.2)
    } else {
        seq![1u8] + be64_bytes(o.2) + clip(tgt, o.1 as int, o.2 as int)
    }
}

/// The concatenated records of all runs, in order.
pub open spec fn ops_patch(ops: Seq<(Operation, u64, u64)>, tgt: Seq<u8>) -> Seq<u8>
    decreases ops.len(),
{
    if ops.len() == 0 {
        Seq::empty()
    } else {
        op_patch(ops[0], tgt) + ops_patch(ops.skip(1), tgt)
    }
}

/// The full patch: the version byte, then the records.
pub open spec fn patch_ser(ops: Seq<(Operation, u64, u64)>, tgt: Seq<u8>) -> Seq<u8> {
    seq![VERSION] + ops_patch(ops, tgt)
}

/// Appending a run appends its record.
pub proof fn lemma_ops_patch_push(ops: Seq<(Operation, u64, u64)>, o: (Operation, u64, u64), tgt: Seq<u8>)
    ensures
        ops_patch(ops.push(o), tgt) == ops_patch(ops, tgt) + op_patch(o, tgt),
    decreases ops.len(),
{
    if ops.len() == 0 {
        assert(ops.push(o)[0] == o);
        assert(ops.push(o).skip(1) =~= Seq::<(Operation, u64, u64)>::empty());
        assert(ops_patch(ops.push(o), tgt) == op_patch(o, tgt) + ops_patch(
            Seq::<(Operation, u64, u64)>::empty(),
            tgt,
        ));
        assert(op_patch(o, tgt) + Seq::<u8>::empty() =~= Seq::<u8>::empty() + op_patch(o, tgt));
    } else {
        assert(ops.push(o).skip(1) =~= ops.skip(1).push(o));
        lemma_ops_patch_push(ops.skip(1), o, tgt);
        assert(ops.push(o)[0] == ops[0]);
        assert(ops_patch(ops.push(o), tgt) == op_patch(ops[0], tgt) + (ops_patch(ops.skip(1), tgt)
            + op_patch(o, tgt)));
        assert(op_patch(ops[0], tgt) + (ops_patch(ops.skip(1), tgt) + op_patch(o, tgt)) =~= (
        op_patch(ops[0], tgt) + ops_patch(ops.skip(1), tgt)) + op_patch(o, tgt));
    }
}

/// Appends the record of a `Copy` run to `dest`.
pub fn serialize_copy(offset: u64, size: u64, dest: &mut Vec<u8>)
    ensures
        final(dest)@ == old(dest)@ + seq![0u8] + be64_bytes(offset) + be64_bytes(size),
{
    dest.push(0);
    push_be64(dest, offset);
    push_be64(dest, size);
    assert(dest@ =~= old(dest)@ + seq![0u8] + be64_bytes(offset) + be64_bytes(size));
}

/// Appends the record of an `Insert` run to `dest`: the size, then the run's
/// bytes read from `source` at the target offset.
pub fn serialize_insert(offset: u64, size: u64, source: &[u8], dest: &mut Vec<u8>)
    ensures
        final(dest)@ == old(dest)@ + seq![1u8] + be64_bytes(size) + clip(
            source@,
            offset as int,
            size as int,
        ),
{
    dest.push(1);
    push_be64(dest, size);
    push_clip(dest, source, offset, size);
    assert(dest@ =~= old(dest)@ + seq![1u8] + be64_bytes(size) + clip(
        source@,
        offset as int,
        size as int,
    ));
}

/// Serializes the runs between `a` and `b` as a patch: the version byte,
/// then each run's record, with `Insert` payloads read from the target's
/// bytes.
#[verifier::loop_isolation(false)]
pub fn write_diff_between(a: &Signature, b: &Signature, b_data: &[u8]) -> (patch: Vec<u8>)
    requires
        chunks_wf(a@.chunks),
        chunks_wf(b@.chunks),
    ensures
        patch@ == patch_ser(plan_ops(a@.chunks, b@.chunks), b_data@),
{
    let ops = diff_signatures(a, b);
    let mut patch: Vec<u8> = Vec::new();
    patch.push(VERSION);
    proof {
        assert(ops@.take(0) =~= Seq::<(Operation, u64, u64)>::empty());
        assert(patch@ =~= seq![VERSION] + ops_patch(ops@.take(0), b_data@));
    }
    let n = ops.len();
    let mut i: usize = 0;
    while i < n
        invariant
            i <= n,
            patch@ == seq![VERSION] + ops_patch(ops@.take(i as int), b_data@),
        decreases n - i,
    {
        let op = ops[i];
        match op.0 {
            Operation::Copy => {
                serialize_copy(op.1, op.2, &mut patch);
            },
            Operation::Insert => {
                serialize_insert(op.1, op.2, b_data, &mut patch);
            },
        }
        proof {
            lemma_ops_patch_push(ops@.take(i as int), ops@[i as int], b_data@);
            assert(ops@.take(i as int + 1) =~= ops@.take(i as int).push(ops@[i as int]));
            assert(patch@ =~= seq![VERSION] + ops_patch(ops@.take(i as int + 1), b_data@));
        }
        i = i + 1;
    }
    proof {
        assert(ops@.take(n as int) =~= ops@);
    }
    patch
}

} // verus!
