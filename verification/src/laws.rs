use vstd::prelude::*;

use crate::apply::{apply_patch, apply_records, scratch_apply};
use crate::codec::{be64_bytes, clip, lemma_be64_roundtrip};
use crate::diff::{
    chunk_match, find_match, flush, lemma_find_match, ops_patch, patch_ser, plan_fold, plan_init,
    plan_ops, plan_step, Operation, PlanState,
};
use crate::errors::DeltaError;
use crate::signature::{chunk_adjacent, chunks_cover, lemma_chunk_end_bound, ChunkModel};
use crate::VERSION;

verus! {

/// The bytes one run contributes: a `Copy` run's range of the source, or an
/// `Insert` run's range of the target.
pub open spec fn op_bytes(o: (Operation, u64, u64), src: Seq<u8>, tgt: Seq<u8>) -> Seq<u8> {
    if o.0 == Operation::Copy {
        clip(src, o.1 as int, o.2 as int)
    } else {
        clip(tgt, o.1 as int, o.2 as int)
    }
}

/// The bytes a whole plan produces, each run's contribution in order.
pub open spec fn plan_bytes(ops: Seq<(Operation, u64, u64)>, src: Seq<u8>, tgt: Seq<u8>) -> Seq<
    u8,
>
    decreases ops.len(),
{
    if ops.len() == 0 {
        Seq::empty()
    } else {
        op_bytes(ops[0], src, tgt) + plan_bytes(ops.skip(1), src, tgt)
    }
}

/// Appending a run appends its bytes.
pub proof fn lemma_plan_bytes_push(
    ops: Seq<(Operation, u64, u64)>,
    o: (Operation, u64, u64),
    src: Seq<u8>,
    tgt: Seq<u8>,
)
    ensures
        plan_bytes(ops.push(o), src, tgt) == plan_bytes(ops, src, tgt) + op_bytes(o, src, tgt),
    decreases ops.len(),
{
    if ops.len() == 0 {
        assert(ops.push(o)[0] == o);
        assert(ops.push(o).skip(1) =~= Seq::<(Operation, u64, u64)>::empty());
        assert(plan_bytes(ops.push(o).skip(1), src, tgt) == Seq::<u8>::empty());
        assert(plan_bytes(ops.push(o), src, tgt) == op_bytes(o, src, tgt) + Seq::<u8>::empty());
        assert(op_bytes(o, src, tgt) + Seq::<u8>::empty() =~= Seq::<u8>::empty() + op_bytes(
            o,
            src,
            tgt,
        ));
    } else {
        assert(ops.push(o).skip(1) =~= ops.skip(1).push(o));
        lemma_plan_bytes_push(ops.skip(1), o, src, tgt);
        assert(ops.push(o)[0] == ops[0]);
        assert(plan_bytes(ops.push(o), src, tgt) == op_bytes(ops[0], src, tgt) + (plan_bytes(
            ops.skip(1),
            src,
            tgt,
        ) + op_bytes(o, src, tgt)));
        assert(op_bytes(ops[0], src, tgt) + (plan_bytes(ops.skip(1), src, tgt) + op_bytes(
            o,
            src,
            tgt,
        )) =~= (op_bytes(ops[0], src, tgt) + plan_bytes(ops.skip(1), src, tgt)) + op_bytes(
            o,
            src,
            tgt,
        ));
    }
}

/// A run that stays inside its file: `Copy` within the source, `Insert`
/// within the target, and never empty.
pub open spec fn op_wf(o: (Operation, u64, u64), src_len: int, tgt_len: int) -> bool {
    &&& o.2 >= 1
    &&& (o.0 == Operation::Copy ==> o.1 + o.2 <= src_len)
    &&& (o.0 == Operation::Insert ==> o.1 + o.2 <= tgt_len)
}

/// Every run of the plan stays inside its file.
pub open spec fn ops_wf(ops: Seq<(Operation, u64, u64)>, src_len: int, tgt_len: int) -> bool {
    forall|k: int| 0 <= k < ops.len() ==> op_wf(#[trigger] ops[k], src_len, tgt_len)
}

/// The open run, when there is one, stays inside its file.
pub open spec fn run_wf(st: PlanState, src_len: int, tgt_len: int) -> bool {
    st.len > 0 ==> {
        &&& (st.op == Operation::Copy ==> st.off + st.len <= src_len)
        &&& (st.op == Operation::Insert ==> st.off + st.len <= tgt_len)
    }
}

/// The bytes of the open run, if any.
pub open spec fn run_bytes(st: PlanState, src: Seq<u8>, tgt: Seq<u8>) -> Seq<u8> {
    if st.len == 0 {
        Seq::empty()
    } else if st.op == Operation::Copy {
        clip(src, st.off as int, st.len as int)
    } else {
        clip(tgt, st.off as int, st.len as int)
    }
}

/// The target bytes covered by the first `n` chunks of `b`.
pub open spec fn covered(b: Seq<ChunkModel>, n: int) -> int {
    if n <= 0 {
        0
    } else {
        b[n - 1].offset + b[n - 1].length
    }
}

/// Chunks that match between the two files span equal bytes. The digests
/// are trusted to be collision-free; this hypothesis is where that trust is
/// spelled out.
pub open spec fn collision_free(
    a: Seq<ChunkModel>,
    b: Seq<ChunkModel>,
    s: Seq<u8>,
    t: Seq<u8>,
) -> bool {
    forall|i: int, j: int|
        0 <= i < a.len() && 0 <= j < b.len() && chunk_match(#[trigger] a[i], #[trigger] b[j])
            ==> s.subrange(a[i].offset as int, a[i].offset + a[i].length) == t.subrange(
            b[j].offset as int,
            b[j].offset + b[j].length,
        )
}

/// Every chunk ends at or before `total`.
pub open spec fn ends_bounded(cs: Seq<ChunkModel>, total: int) -> bool {
    forall|i: int| 0 <= i < cs.len() ==> (#[trigger] cs[i]).offset + cs[i].length <= total
}

/// A covering chunk list has all its ends within `total`.
pub proof fn lemma_ends_bounded(cs: Seq<ChunkModel>, total: int)
    requires
        chunks_cover(cs, total),
    ensures
        ends_bounded(cs, total),
{
    assert forall|i: int| 0 <= i < cs.len() implies (#[trigger] cs[i]).offset + cs[i].length
        <= total by {
        lemma_chunk_end_bound(cs, total, i);
    }
}

/// Flushing turns the open run's bytes into emitted bytes.
pub proof fn lemma_flush_bytes(st: PlanState, src: Seq<u8>, tgt: Seq<u8>)
    ensures
        plan_bytes(flush(st), src, tgt) == plan_bytes(st.ops, src, tgt) + run_bytes(st, src, tgt),
{
    if st.len > 0 {
        lemma_plan_bytes_push(st.ops, (st.op, st.off, st.len), src, tgt);
    } else {
        assert(plan_bytes(st.ops, src, tgt) + Seq::<u8>::empty() =~= plan_bytes(
            st.ops,
            src,
            tgt,
        ));
    }
}

/// Flushing keeps every emitted run inside its file.
pub proof fn lemma_flush_wf(st: PlanState, src_len: int, tgt_len: int)
    requires
        ops_wf(st.ops, src_len, tgt_len),
        run_wf(st, src_len, tgt_len),
    ensures
        ops_wf(flush(st), src_len, tgt_len),
{
    if st.len > 0 {
        assert forall|k: int| 0 <= k < flush(st).len() implies op_wf(
            #[trigger] flush(st)[k],
            src_len,
            tgt_len,
        ) by {
            if k < st.ops.len() {
                assert(flush(st)[k] == st.ops[k]);
            } else {
                assert(flush(st)[k] == (st.op, st.off, st.len));
            }
        }
    }
}

/// One planner step keeps the walking invariant: after the step, the
/// emitted runs followed by the open run spell out the covered prefix.
#[verifier::spinoff_prover]
#[verifier::rlimit(100)]
pub proof fn lemma_plan_step_invariant(
    a: Seq<ChunkModel>,
    b: Seq<ChunkModel>,
    s: Seq<u8>,
    t: Seq<u8>,
    n: int,
)
    requires
        ends_bounded(a, s.len() as int),
        ends_bounded(b, t.len() as int),
        collision_free(a, b, s, t),
        s.len() <= u64::MAX,
        t.len() <= u64::MAX,
        1 <= n <= b.len(),
        b[n - 1].offset == covered(b, n - 1),
        plan_bytes(plan_fold(a, b, n - 1).ops, s, t) + run_bytes(plan_fold(a, b, n - 1), s, t)
            == t.subrange(0, covered(b, n - 1)),
        ops_wf(plan_fold(a, b, n - 1).ops, s.len() as int, t.len() as int),
        run_wf(plan_fold(a, b, n - 1), s.len() as int, t.len() as int),
        0 <= covered(b, n - 1) <= t.len(),
    ensures
        ({
            let st = plan_fold(a, b, n);
            &&& plan_bytes(st.ops, s, t) + run_bytes(st, s, t) == t.subrange(0, covered(b, n))
            &&& ops_wf(st.ops, s.len() as int, t.len() as int)
            &&& run_wf(st, s.len() as int, t.len() as int)
            &&& 0 <= covered(b, n) <= t.len()
        }),
{
    let sl = s.len() as int;
    let tl = t.len() as int;
    let st0 = plan_fold(a, b, n - 1);
    let c = b[n - 1];
    let st = plan_fold(a, b, n);
    assert(st == plan_step(a, st0, c));
    assert(c.offset + c.length <= tl);
    assert(covered(b, n) == c.offset + c.length);
    let tchunk = t.subrange(c.offset as int, c.offset + c.length);
    let prefix = t.subrange(0, covered(b, n - 1));
    assert(prefix + tchunk =~= t.subrange(0, covered(b, n)));
    lemma_find_match(a, c);
    match find_match(a, c) {
        Some(i) => {
                assert(chunk_match(a[i], c));
                assert(a[i].offset + a[i].length <= sl);
                let schunk = s.subrange(a[i].offset as int, a[i].offset + a[i].length);
                assert(schunk == tchunk);
                assert(a[i].length == c.length);
                if st0.op == Operation::Copy && st0.len > 0 && st0.off + st0.len == a[i].offset {
                    // the open Copy run is extended by the matched source range
                    assert(st.ops == st0.ops);
                    assert(st.off == st0.off && st.op == Operation::Copy);
                    assert(st.len == st0.len + c.length);
                    assert(run_bytes(st, s, t) == s.subrange(
                        st0.off as int,
                        st0.off + st0.len + c.length,
                    ));
                    assert(run_bytes(st0, s, t) == s.subrange(st0.off as int, st0.off + st0.len));
                    assert(s.subrange(st0.off as int, st0.off + st0.len + c.length) =~= s.subrange(
                        st0.off as int,
                        st0.off + st0.len,
                    ) + schunk);
                    assert(plan_bytes(st.ops, s, t) + (run_bytes(st0, s, t) + tchunk) =~= (
                    plan_bytes(st.ops, s, t) + run_bytes(st0, s, t)) + tchunk);
                } else {
                    // the open run is flushed and a new Copy run starts
                    assert(st.ops == flush(st0));
                    assert(st.op == Operation::Copy && st.off == a[i].offset && st.len
                        == c.length);
                    lemma_flush_bytes(st0, s, t);
                    lemma_flush_wf(st0, sl, tl);
                    assert(run_bytes(st, s, t) == schunk);
                    assert((plan_bytes(st0.ops, s, t) + run_bytes(st0, s, t)) + tchunk =~=
                    plan_bytes(st.ops, s, t) + run_bytes(st, s, t));
                }
            },
            None => {
                if st0.op == Operation::Insert && st0.len > 0 && st0.off + st0.len == c.offset {
                    // the open Insert run is extended by this target chunk
                    assert(st.ops == st0.ops);
                    assert(st.off == st0.off && st.op == Operation::Insert);
                    assert(st.len == st0.len + c.length);
                    assert(run_bytes(st, s, t) == t.subrange(
                        st0.off as int,
                        st0.off + st0.len + c.length,
                    ));
                    assert(run_bytes(st0, s, t) == t.subrange(st0.off as int, st0.off + st0.len));
                    assert(t.subrange(st0.off as int, st0.off + st0.len + c.length) =~= t.subrange(
                        st0.off as int,
                        st0.off + st0.len,
                    ) + tchunk);
                    assert(plan_bytes(st.ops, s, t) + (run_bytes(st0, s, t) + tchunk) =~= (
                    plan_bytes(st.ops, s, t) + run_bytes(st0, s, t)) + tchunk);
                } else {
                    // the open run is flushed and a new Insert run starts
                    assert(st.ops == flush(st0));
                    assert(st.op == Operation::Insert && st.off == c.offset && st.len
                        == c.length);
                    lemma_flush_bytes(st0, s, t);
                    lemma_flush_wf(st0, sl, tl);
                    assert(run_bytes(st, s, t) == tchunk);
                    assert((plan_bytes(st0.ops, s, t) + run_bytes(st0, s, t)) + tchunk =~=
                    plan_bytes(st.ops, s, t) + run_bytes(st, s, t));
                }
            },
        }
}

/// After walking `n` chunks of the target, the emitted runs followed by the
/// open run spell out exactly the covered prefix of the target, and every
/// run stays inside its file.
pub proof fn lemma_plan_fold_invariant(
    a: Seq<ChunkModel>,
    b: Seq<ChunkModel>,
    s: Seq<u8>,
    t: Seq<u8>,
    n: int,
)
    requires
        chunks_cover(a, s.len() as int),
        chunks_cover(b, t.len() as int),
        collision_free(a, b, s, t),
        s.len() <= u64::MAX,
        t.len() <= u64::MAX,
        0 <= n <= b.len(),
    ensures
        ({
            let st = plan_fold(a, b, n);
            &&& plan_bytes(st.ops, s, t) + run_bytes(st, s, t) == t.subrange(0, covered(b, n))
            &&& ops_wf(st.ops, s.len() as int, t.len() as int)
            &&& run_wf(st, s.len() as int, t.len() as int)
            &&& 0 <= covered(b, n) <= t.len()
        }),
    decreases n,
{
    if n == 0 {
        let st = plan_fold(a, b, 0);
        assert(st == plan_init());
        assert(plan_bytes(st.ops, s, t) + run_bytes(st, s, t) =~= t.subrange(0, 0));
    } else {
        lemma_plan_fold_invariant(a, b, s, t, n - 1);
        lemma_ends_bounded(a, s.len() as int);
        lemma_ends_bounded(b, t.len() as int);
        if n > 1 {
            assert(chunk_adjacent(b, n - 1));
        }
        assert(b[n - 1].offset == covered(b, n - 1));
        lemma_plan_step_invariant(a, b, s, t, n);
    }
}

/// Reconstruction correctness at the plan level: the runs the planner emits
/// for `(a, b)` spell out the target exactly, and each run stays inside its
/// file.
pub proof fn lemma_plan_reconstructs(a: Seq<ChunkModel>, b: Seq<ChunkModel>, s: Seq<u8>, t: Seq<
    u8,
>)
    requires
        chunks_cover(a, s.len() as int),
        chunks_cover(b, t.len() as int),
        collision_free(a, b, s, t),
        s.len() <= u64::MAX,
        t.len() <= u64::MAX,
    ensures
        plan_bytes(plan_ops(a, b), s, t) == t,
        ops_wf(plan_ops(a, b), s.len() as int, t.len() as int),
{
    let n = b.len() as int;
    lemma_plan_fold_invariant(a, b, s, t, n);
    let st = plan_fold(a, b, n);
    lemma_flush_bytes(st, s, t);
    lemma_flush_wf(st, s.len() as int, t.len() as int);
    if b.len() == 0 {
        assert(t.len() == 0);
        assert(t.subrange(0, 0) =~= t);
    } else {
        assert(covered(b, n) == t.len());
        assert(t.subrange(0, t.len() as int) =~= t);
    }
}

/// Serializing a plan and executing the records gives back exactly the
/// bytes the plan produces.
pub proof fn lemma_records_roundtrip(ops: Seq<(Operation, u64, u64)>, s: Seq<u8>, t: Seq<u8>)
    requires
        forall|k: int|
            0 <= k < ops.len() && (#[trigger] ops[k]).0 == Operation::Insert ==> ops[k].1
                + ops[k].2 <= t.len(),
    ensures
        apply_records(ops_patch(ops, t), s) == Ok::<Seq<u8>, DeltaError>(plan_bytes(ops, s, t)),
    decreases ops.len(),
{
    let p = ops_patch(ops, t);
    if ops.len() == 0 {
        assert(p.len() == 0);
    } else {
        let o = ops[0];
        assert(forall|k: int| 0 <= k < ops.skip(1).len() ==> ops.skip(1)[k] == ops[k + 1]);
        lemma_records_roundtrip(ops.skip(1), s, t);
        let rest_p = ops_patch(ops.skip(1), t);
        if o.0 == Operation::Copy {
            let rec = seq![0u8] + be64_bytes(o.1) + be64_bytes(o.2);
            assert(p == rec + rest_p);
            assert(rec.len() == 17);
            assert(p[0] == 0);
            assert(p.subrange(1, 9) =~= be64_bytes(o.1));
            assert(p.subrange(9, 17) =~= be64_bytes(o.2));
            lemma_be64_roundtrip(o.1);
            lemma_be64_roundtrip(o.2);
            assert(p.skip(17) =~= rest_p);
            assert(apply_records(p, s) == Ok::<Seq<u8>, DeltaError>(
                clip(s, o.1 as int, o.2 as int) + plan_bytes(ops.skip(1), s, t),
            ));
        } else {
            let payload = clip(t, o.1 as int, o.2 as int);
            assert(payload.len() == o.2);
            let rec = seq![1u8] + be64_bytes(o.2) + payload;
            assert(p == rec + rest_p);
            assert(rec.len() == 9 + o.2);
            assert(p[0] == 1);
            assert(p.subrange(1, 9) =~= be64_bytes(o.2));
            lemma_be64_roundtrip(o.2);
            assert(p.len() - 9 >= o.2);
            assert(p.subrange(9, 9 + o.2 as int) =~= payload);
            assert(p.skip(9 + o.2 as int) =~= rest_p);
            assert(apply_records(p, s) == Ok::<Seq<u8>, DeltaError>(
                payload + plan_bytes(ops.skip(1), s, t),
            ));
        }
    }
}

/// Reconstruction correctness: applying the serialized diff of `(a, b)` to
/// the source gives back the target, byte for byte.
pub proof fn lemma_apply_diff_rebuilds(a: Seq<ChunkModel>, b: Seq<ChunkModel>, s: Seq<u8>, t: Seq<
    u8,
>)
    requires
        chunks_cover(a, s.len() as int),
        chunks_cover(b, t.len() as int),
        collision_free(a, b, s, t),
        s.len() <= u64::MAX,
        t.len() <= u64::MAX,
    ensures
        apply_patch(patch_ser(plan_ops(a, b), t), s) == Ok::<Seq<u8>, DeltaError>(t),
{
    lemma_plan_reconstructs(a, b, s, t);
    let ops = plan_ops(a, b);
    lemma_records_roundtrip(ops, s, t);
    let p = patch_ser(ops, t);
    assert(p[0] == VERSION);
    assert(p.skip(1) =~= ops_patch(ops, t));
}

/// No two chunks of the list are identical.
pub open spec fn chunks_distinct(a: Seq<ChunkModel>) -> bool {
    forall|i: int, j: int| 0 <= i < j < a.len() ==> !chunk_match(#[trigger] a[i], #[trigger] a[j])
}

/// Diffing a file against itself walks every chunk into one growing `Copy`
/// run.
proof fn lemma_self_fold(a: Seq<ChunkModel>, flen: int, n: int)
    requires
        chunks_cover(a, flen),
        chunks_distinct(a),
        flen <= u64::MAX,
        0 <= n <= a.len(),
    ensures
        plan_fold(a, a, n) == (PlanState {
            ops: Seq::empty(),
            op: Operation::Copy,
            off: 0u64,
            len: covered(a, n) as u64,
        }),
        0 <= covered(a, n) <= flen,
    decreases n,
{
    if n == 0 {
        assert(plan_fold(a, a, 0) =~= PlanState {
            ops: Seq::empty(),
            op: Operation::Copy,
            off: 0u64,
            len: 0u64,
        });
    } else {
        lemma_self_fold(a, flen, n - 1);
        let st0 = plan_fold(a, a, n - 1);
        let c = a[n - 1];
        lemma_chunk_end_bound(a, flen, n - 1);
        if n > 1 {
            assert(chunk_adjacent(a, n - 1));
        }
        assert(c.offset == covered(a, n - 1));
        assert(covered(a, n) == c.offset + c.length);
        lemma_find_match(a, c);
        match find_match(a, c) {
            Some(k) => {
                if k < n - 1 {
                    assert(!chunk_match(a[k], a[n - 1]));
                    assert(false);
                }
                if k > n - 1 {
                    assert(!chunk_match(a[n - 1], c));
                    assert(false);
                }
                assert(k == n - 1);
                assert(plan_fold(a, a, n) == plan_step(a, st0, c));
                if st0.len > 0 {
                    assert(st0.off + st0.len == c.offset);
                    assert(plan_fold(a, a, n) =~= PlanState {
                        ops: Seq::empty(),
                        op: Operation::Copy,
                        off: 0u64,
                        len: covered(a, n) as u64,
                    });
                } else {
                    assert(covered(a, n - 1) == 0);
                    assert(c.offset == 0);
                    assert(flush(st0) == st0.ops);
                    assert(plan_fold(a, a, n) =~= PlanState {
                        ops: Seq::empty(),
                        op: Operation::Copy,
                        off: 0u64,
                        len: covered(a, n) as u64,
                    });
                }
            },
            None => {
                assert(chunk_match(a[n - 1], c));
                assert(false);
            },
        }
    }
}

/// Diffing a file with pairwise distinct chunks against itself yields one
/// `Copy` run spanning the whole file.
pub proof fn lemma_self_diff_single_copy(a: Seq<ChunkModel>, flen: int)
    requires
        chunks_cover(a, flen),
        chunks_distinct(a),
        0 < flen <= u64::MAX,
    ensures
        plan_ops(a, a) == seq![(Operation::Copy, 0u64, flen as u64)],
{
    let n = a.len() as int;
    assert(n > 0);
    lemma_self_fold(a, flen, n);
    let st = plan_fold(a, a, n);
    assert(covered(a, n) == flen);
    assert(st.len == flen as u64);
    assert(flush(st) == Seq::<(Operation, u64, u64)>::empty().push(
        (Operation::Copy, 0u64, flen as u64),
    ));
    assert(Seq::<(Operation, u64, u64)>::empty().push((Operation::Copy, 0u64, flen as u64)) =~=
    seq![(Operation::Copy, 0u64, flen as u64)]);
}

/// Round-trip identity: the diff of a file against itself is one whole-file
/// `Copy`, and applying its patch to the file gives the file back.
pub proof fn lemma_round_trip_identity(a: Seq<ChunkModel>, f: Seq<u8>)
    requires
        chunks_cover(a, f.len() as int),
        chunks_distinct(a),
        0 < f.len() <= u64::MAX,
    ensures
        plan_ops(a, a) == seq![(Operation::Copy, 0u64, f.len() as u64)],
        apply_patch(patch_ser(plan_ops(a, a), f), f) == Ok::<Seq<u8>, DeltaError>(f),
{
    lemma_self_diff_single_copy(a, f.len() as int);
    assert forall|i: int, j: int|
        0 <= i < a.len() && 0 <= j < a.len() && chunk_match(#[trigger] a[i], #[trigger] a[j])
        implies f.subrange(a[i].offset as int, a[i].offset + a[i].length) == f.subrange(
        a[j].offset as int,
        a[j].offset + a[j].length,
    ) by {
        if i < j {
            assert(!chunk_match(a[i], a[j]));
        }
        if j < i {
            assert(!chunk_match(a[j], a[i]));
            assert(chunk_match(a[j], a[i]));
        }
    }
    lemma_apply_diff_rebuilds(a, a, f, f);
}

/// When no target chunk occurs in the source, the walk grows one `Insert`
/// run over the whole target.
proof fn lemma_disjoint_fold(a: Seq<ChunkModel>, b: Seq<ChunkModel>, tlen: int, n: int)
    requires
        chunks_cover(b, tlen),
        tlen <= u64::MAX,
        forall|i: int, j: int|
            0 <= i < a.len() && 0 <= j < b.len() ==> !chunk_match(#[trigger] a[i], #[trigger] b[j]),
        0 < n <= b.len(),
    ensures
        plan_fold(a, b, n) == (PlanState {
            ops: Seq::empty(),
            op: Operation::Insert,
            off: 0u64,
            len: covered(b, n) as u64,
        }),
        0 <= covered(b, n) <= tlen,
    decreases n,
{
    let c = b[n - 1];
    lemma_chunk_end_bound(b, tlen, n - 1);
    if n > 1 {
        assert(chunk_adjacent(b, n - 1));
    }
    assert(c.offset == covered(b, n - 1));
    lemma_find_match(b, c);
    lemma_find_match(a, c);
    match find_match(a, c) {
        Some(k) => {
            assert(!chunk_match(a[k], b[n - 1]));
            assert(false);
        },
        None => {},
    }
    if n == 1 {
        let st0 = plan_fold(a, b, 0);
        assert(st0 == plan_init());
        assert(plan_fold(a, b, 1) == plan_step(a, st0, c));
        assert(flush(st0) == st0.ops);
        assert(c.offset == 0);
        assert(plan_fold(a, b, 1) =~= PlanState {
            ops: Seq::empty(),
            op: Operation::Insert,
            off: 0u64,
            len: covered(b, 1) as u64,
        });
    } else {
        lemma_disjoint_fold(a, b, tlen, n - 1);
        let st0 = plan_fold(a, b, n - 1);
        assert(plan_fold(a, b, n) == plan_step(a, st0, c));
        if st0.len > 0 {
            assert(st0.off + st0.len == c.offset);
            assert(plan_fold(a, b, n) =~= PlanState {
                ops: Seq::empty(),
                op: Operation::Insert,
                off: 0u64,
                len: covered(b, n) as u64,
            });
        } else {
            assert(covered(b, n - 1) == 0);
            assert(c.offset == 0);
            assert(flush(st0) == st0.ops);
            assert(plan_fold(a, b, n) =~= PlanState {
                ops: Seq::empty(),
                op: Operation::Insert,
                off: 0u64,
                len: covered(b, n) as u64,
            });
        }
    }
}

/// Fully disjoint files: when no chunk of the target occurs in the source,
/// the plan is one `Insert` run covering the whole target.
pub proof fn lemma_disjoint_single_insert(a: Seq<ChunkModel>, b: Seq<ChunkModel>, tlen: int)
    requires
        chunks_cover(b, tlen),
        0 < tlen <= u64::MAX,
        forall|i: int, j: int|
            0 <= i < a.len() && 0 <= j < b.len() ==> !chunk_match(#[trigger] a[i], #[trigger] b[j]),
    ensures
        plan_ops(a, b) == seq![(Operation::Insert, 0u64, tlen as u64)],
{
    let n = b.len() as int;
    assert(n > 0);
    lemma_disjoint_fold(a, b, tlen, n);
    let st = plan_fold(a, b, n);
    assert(covered(b, n) == tlen);
    assert(flush(st) == Seq::<(Operation, u64, u64)>::empty().push(
        (Operation::Insert, 0u64, tlen as u64),
    ));
    assert(Seq::<(Operation, u64, u64)>::empty().push((Operation::Insert, 0u64, tlen as u64)) =~=
    seq![(Operation::Insert, 0u64, tlen as u64)]);
}

/// Diffing against an empty target yields an empty plan.
pub proof fn lemma_diff_empty_target(a: Seq<ChunkModel>)
    ensures
        plan_ops(a, Seq::<ChunkModel>::empty()) == Seq::<(Operation, u64, u64)>::empty(),
{
    assert(plan_fold(a, Seq::<ChunkModel>::empty(), 0) == plan_init());
}

/// Applying a patch that holds only the version byte produces no bytes.
pub proof fn lemma_apply_empty_patch(s: Seq<u8>)
    ensures
        apply_patch(seq![VERSION], s) == Ok::<Seq<u8>, DeltaError>(Seq::<u8>::empty()),
{
    let p = seq![VERSION];
    assert(p.skip(1) =~= Seq::<u8>::empty());
    assert(apply_records(p.skip(1), s) == Ok::<Seq<u8>, DeltaError>(Seq::<u8>::empty()));
}

/// The `Insert` payloads a plan reads from the target, concatenated in run
/// order: what pull mode's fetch phase gathers.
pub open spec fn insert_payloads(ops: Seq<(Operation, u64, u64)>, t: Seq<u8>) -> Seq<u8>
    decreases ops.len(),
{
    if ops.len() == 0 {
        Seq::empty()
    } else {
        (if ops[0].0 == Operation::Insert {
            clip(t, ops[0].1 as int, ops[0].2 as int)
        } else {
            Seq::empty()
        }) + insert_payloads(ops.skip(1), t)
    }
}

/// Executing a plan against a scratch store that already holds the fetched
/// payloads, starting after a prefix, gives the plan's bytes.
proof fn lemma_scratch_general(
    ops: Seq<(Operation, u64, u64)>,
    s: Seq<u8>,
    t: Seq<u8>,
    pre: Seq<u8>,
)
    requires
        forall|k: int|
            0 <= k < ops.len() && (#[trigger] ops[k]).0 == Operation::Insert ==> ops[k].1
                + ops[k].2 <= t.len(),
    ensures
        scratch_apply(ops, s, pre + insert_payloads(ops, t), pre.len() as int) == plan_bytes(
            ops,
            s,
            t,
        ),
    decreases ops.len(),
{
    let scratch = pre + insert_payloads(ops, t);
    if ops.len() == 0 {
    } else {
        let o = ops[0];
        assert(forall|k: int| 0 <= k < ops.skip(1).len() ==> ops.skip(1)[k] == ops[k + 1]);
        if o.0 == Operation::Copy {
            lemma_scratch_general(ops.skip(1), s, t, pre);
            assert(scratch =~= pre + insert_payloads(ops.skip(1), t));
            assert(scratch_apply(ops, s, scratch, pre.len() as int) == clip(
                s,
                o.1 as int,
                o.2 as int,
            ) + scratch_apply(ops.skip(1), s, scratch, pre.len() as int));
        } else {
            let payload = clip(t, o.1 as int, o.2 as int);
            assert(payload.len() == o.2);
            let pre2 = pre + payload;
            lemma_scratch_general(ops.skip(1), s, t, pre2);
            assert(scratch =~= pre2 + insert_payloads(ops.skip(1), t));
            assert(clip(scratch, pre.len() as int, o.2 as int) =~= payload);
            assert(scratch_apply(ops, s, scratch, pre.len() as int) == clip(
                scratch,
                pre.len() as int,
                o.2 as int,
            ) + scratch_apply(ops.skip(1), s, scratch, pre.len() + o.2 as int));
        }
    }
}

/// Pull equals local: executing a plan with its `Insert` payloads fetched
/// from the target, in run order, produces the same bytes as executing the
/// plan against the target directly.
pub proof fn lemma_pull_matches_local(ops: Seq<(Operation, u64, u64)>, s: Seq<u8>, t: Seq<u8>)
    requires
        forall|k: int|
            0 <= k < ops.len() && (#[trigger] ops[k]).0 == Operation::Insert ==> ops[k].1
                + ops[k].2 <= t.len(),
    ensures
        scratch_apply(ops, s, insert_payloads(ops, t), 0) == plan_bytes(ops, s, t),
{
    lemma_scratch_general(ops, s, t, Seq::empty());
    assert(Seq::<u8>::empty() + insert_payloads(ops, t) =~= insert_payloads(ops, t));
}

} // verus!
