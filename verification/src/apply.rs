use vstd::prelude::*;

use crate::codec::{be64_val, clip, push_clip, push_slice_range, read_be64};
use crate::diff::Operation;
use crate::errors::DeltaError;
use crate::VERSION;

verus! {

/// What executing the records after the version byte yields: the
/// reconstructed bytes, or the first framing fault. A `Copy` record reads
/// sixteen bytes of offset and size and takes that range of the source; an
/// `Insert` record reads eight bytes of size and takes that many payload
/// bytes that follow; an unknown tag or a record cut short by the end of the
/// patch is a framing error; ending exactly at a record boundary terminates.
pub open spec fn apply_records(p: Seq<u8>, src: Seq<u8>) -> Result<Seq<u8>, DeltaError>
    decreases p.len(),
{
    if p.len() == 0 {
        Ok(Seq::empty())
    } else if p[0] == 0 {
        if p.len() < 17 {
            Err(DeltaError::Framing)
        } else {
            let off = be64_val(p.subrange(1, 9));
            let sz = be64_val(p.subrange(9, 17));
            match apply_records(p.skip(17), src) {
                Ok(rest) => Ok(clip(src, off as int, sz as int) + rest),
                Err(e) => Err(e),
            }
        }
    } else if p[0] == 1 {
        if p.len() < 9 {
            Err(DeltaError::Framing)
        } else {
            let sz = be64_val(p.subrange(1, 9));
            if p.len() - 9 < sz {
                Err(DeltaError::Framing)
            } else {
                match apply_records(p.skip(9 + sz as int), src) {
                    Ok(rest) => Ok(p.subrange(9, 9 + sz as int) + rest),
                    Err(e) => Err(e),
                }
            }
        }
    } else {
        Err(DeltaError::Framing)
    }
}

/// What applying a whole patch to a source yields: an empty patch is a
/// framing error, a wrong version byte is a version mismatch, and otherwise
/// the records are executed.
pub open spec fn apply_patch(p: Seq<u8>, src: Seq<u8>) -> Result<Seq<u8>, DeltaError> {
    if p.len() == 0 {
        Err(DeltaError::Framing)
    } else if p[0] != VERSION {
        Err(DeltaError::VersionMismatch { got: p[0], want: VERSION })
    } else {
        apply_records(p.skip(1), src)
    }
}

/// Applies a serialized patch to the source bytes, returning the
/// reconstructed target bytes.
#[verifier::loop_isolation(false)]
#[verifier::rlimit(60)]
pub fn apply(patch: &[u8], source: &[u8]) -> (r: Result<Vec<u8>, DeltaError>)
    ensures
        r matches Ok(v) ==> apply_patch(patch@, source@) == Ok::<Seq<u8>, DeltaError>(v@),
        r matches Err(e) ==> apply_patch(patch@, source@) == Err::<Seq<u8>, DeltaError>(e),
{
    if patch.len() == 0 {
        return Err(DeltaError::Framing);
    }
    if patch[0] != VERSION {
        return Err(DeltaError::VersionMismatch { got: patch[0], want: VERSION });
    }
    let n = patch.len();
    let mut out: Vec<u8> = Vec::new();
    let mut pos: usize = 1;
    while pos < n
        invariant
            1 <= pos <= n,
            match apply_records(patch@.skip(pos as int), source@) {
                Ok(t) => apply_records(patch@.skip(1), source@) == Ok::<Seq<u8>, DeltaError>(
                    out@ + t,
                ),
                Err(e) => apply_records(patch@.skip(1), source@) == Err::<Seq<u8>, DeltaError>(e),
            },
        decreases n - pos,
    {
        let ghost rest = patch@.skip(pos as int);
        let ghost out0 = out@;
        proof {
            assert(rest[0] == patch@[pos as int]);
        }
        let tag = patch[pos];
        if tag == 0 {
            if n - pos < 17 {
                return Err(DeltaError::Framing);
            }
            let off = read_be64(patch, pos + 1);
            let sz = read_be64(patch, pos + 9);
            proof {
                assert(rest.subrange(1, 9) =~= patch@.subrange(pos + 1, pos + 9));
                assert(rest.subrange(9, 17) =~= patch@.subrange(pos + 9, pos + 17));
            }
            push_clip(&mut out, source, off, sz);
            proof {
                let piece = clip(source@, off as int, sz as int);
                assert(rest.skip(17) =~= patch@.skip(pos + 17));
                match apply_records(patch@.skip(pos as int + 17), source@) {
                    Ok(t) => {
                        assert(apply_records(rest, source@) == Ok::<Seq<u8>, DeltaError>(
                            piece + t,
                        ));
                        assert(out0 + (piece + t) =~= (out0 + piece) + t);
                    },
                    Err(_) => {},
                }
            }
            pos = pos + 17;
        } else if tag == 1 {
            if n - pos < 9 {
                return Err(DeltaError::Framing);
            }
            let sz = read_be64(patch, pos + 1);
            proof {
                assert(rest.subrange(1, 9) =~= patch@.subrange(pos + 1, pos + 9));
            }
            let remaining = (n - pos - 9) as u64;
            if sz > remaining {
                return Err(DeltaError::Framing);
            }
            let szu = sz as usize;
            push_slice_range(&mut out, patch, pos + 9, pos + 9 + szu);
            proof {
                let piece = rest.subrange(9, 9 + sz as int);
                assert(piece =~= patch@.subrange(pos + 9, pos + 9 + sz as int));
                assert(rest.skip(9 + sz as int) =~= patch@.skip(pos + 9 + sz as int));
                match apply_records(patch@.skip(pos as int + 9 + sz as int), source@) {
                    Ok(t) => {
                        assert(apply_records(rest, source@) == Ok::<Seq<u8>, DeltaError>(
                            piece + t,
                        ));
                        assert(out0 + (piece + t) =~= (out0 + piece) + t);
                    },
                    Err(_) => {},
                }
            }
            pos = pos + 9 + szu;
        } else {
            return Err(DeltaError::Framing);
        }
    }
    proof {
        assert(patch@.skip(pos as int) =~= Seq::<u8>::empty());
        assert(out@ + Seq::<u8>::empty() =~= out@);
    }
    Ok(out)
}

// ---------------------------------------------------------------------------
// Pull mode: applying a plan whose Insert payloads were fetched separately
// ---------------------------------------------------------------------------
/// The total size of the `Insert` runs among the first `n` runs.
pub open spec fn insert_prefix(ops: Seq<(Operation, u64, u64)>, n: int) -> int
    decreases n,
{
    if n <= 0 {
        0
    } else {
        insert_prefix(ops, n - 1) + (if ops[n - 1].0 == Operation::Insert {
            ops[n - 1].2 as int
        } else {
            0
        })
    }
}

/// The insert totals grow with the prefix.
pub proof fn lemma_insert_prefix_mono(ops: Seq<(Operation, u64, u64)>, i: int, j: int)
    requires
        0 <= i <= j,
    ensures
        insert_prefix(ops, i) <= insert_prefix(ops, j),
    decreases j,
{
    if i < j {
        lemma_insert_prefix_mono(ops, i, j - 1);
    }
}

/// What executing a plan yields when every `Insert` run's bytes are read,
/// in run order, from a scratch store starting at `pos`: `Copy` runs take
/// their range of the source, `Insert` runs take the next bytes of the
/// scratch store.
pub open spec fn scratch_apply(
    ops: Seq<(Operation, u64, u64)>,
    src: Seq<u8>,
    scratch: Seq<u8>,
    pos: int,
) -> Seq<u8>
    decreases ops.len(),
{
    if ops.len() == 0 {
        Seq::empty()
    } else {
        let o = ops[0];
        if o.0 == Operation::Copy {
            clip(src, o.1 as int, o.2 as int) + scratch_apply(ops.skip(1), src, scratch, pos)
        } else {
            clip(scratch, pos, o.2 as int) + scratch_apply(
                ops.skip(1),
                src,
                scratch,
                pos + o.2 as int,
            )
        }
    }
}

/// Executes a plan against the source bytes, reading the `Insert` payloads,
/// in run order, from `fetched`.
#[verifier::loop_isolation(false)]
pub fn apply_with_inserts(ops: &Vec<(Operation, u64, u64)>, source: &[u8], fetched: &[u8]) -> (out:
    Vec<u8>)
    requires
        insert_prefix(ops@, ops@.len() as int) <= u64::MAX,
    ensures
        out@ == scratch_apply(ops@, source@, fetched@, 0),
{
    let mut out: Vec<u8> = Vec::new();
    let mut pos: u64 = 0;
    let n = ops.len();
    let mut i: usize = 0;
    proof {
        assert(ops@.skip(0) =~= ops@);
    }
    while i < n
        invariant
            i <= n,
            pos == insert_prefix(ops@, i as int),
            scratch_apply(ops@, source@, fetched@, 0) == out@ + scratch_apply(
                ops@.skip(i as int),
                source@,
                fetched@,
                pos as int,
            ),
        decreases n - i,
    {
        let ghost rest = ops@.skip(i as int);
        let ghost out0 = out@;
        let ghost pos0 = pos as int;
        proof {
            assert(rest[0] == ops@[i as int]);
            assert(rest.skip(1) =~= ops@.skip(i as int + 1));
            lemma_insert_prefix_mono(ops@, i as int + 1, n as int);
        }
        let o = ops[i];
        match o.0 {
            Operation::Copy => {
                push_clip(&mut out, source, o.1, o.2);
            },
            Operation::Insert => {
                push_clip(&mut out, fetched, pos, o.2);
                pos = pos + o.2;
            },
        }
        proof {
            let piece = if ops@[i as int].0 == Operation::Copy {
                clip(source@, ops@[i as int].1 as int, ops@[i as int].2 as int)
            } else {
                clip(fetched@, pos0, ops@[i as int].2 as int)
            };
            assert(scratch_apply(rest, source@, fetched@, pos0) == piece + scratch_apply(
                ops@.skip(i as int + 1),
                source@,
                fetched@,
                pos as int,
            ));
            assert(out0 + (piece + scratch_apply(
                ops@.skip(i as int + 1),
                source@,
                fetched@,
                pos as int,
            )) =~= (out0 + piece) + scratch_apply(
                ops@.skip(i as int + 1),
                source@,
                fetched@,
                pos as int,
            ));
        }
        i = i + 1;
    }
    proof {
        assert(ops@.skip(n as int) =~= Seq::<(Operation, u64, u64)>::empty());
        assert(out@ + Seq::<u8>::empty() =~= out@);
    }
    out
}

/// The inclusive HTTP byte range of each `Insert` run, in run order.
pub open spec fn insert_ranges(ops: Seq<(Operation, u64, u64)>) -> Seq<(u64, u64)>
    decreases ops.len(),
{
    if ops.len() == 0 {
        Seq::empty()
    } else {
        let rest = insert_ranges(ops.skip(1));
        if ops[0].0 == Operation::Insert {
            seq![(ops[0].1, (ops[0].1 + ops[0].2 - 1) as u64)] + rest
        } else {
            rest
        }
    }
}

/// Appending a run appends its range, if it is an `Insert`.
pub proof fn lemma_insert_ranges_push(ops: Seq<(Operation, u64, u64)>, o: (Operation, u64, u64))
    ensures
        insert_ranges(ops.push(o)) == insert_ranges(ops) + (if o.0 == Operation::Insert {
            seq![(o.1, (o.1 + o.2 - 1) as u64)]
        } else {
            Seq::<(u64, u64)>::empty()
        }),
    decreases ops.len(),
{
    let tail = if o.0 == Operation::Insert {
        seq![(o.1, (o.1 + o.2 - 1) as u64)]
    } else {
        Seq::<(u64, u64)>::empty()
    };
    if ops.len() == 0 {
        assert(ops.push(o)[0] == o);
        assert(ops.push(o).skip(1) =~= Seq::<(Operation, u64, u64)>::empty());
        assert(insert_ranges(ops.push(o).skip(1)) == Seq::<(u64, u64)>::empty());
        assert(insert_ranges(ops) == Seq::<(u64, u64)>::empty());
        if o.0 == Operation::Insert {
            assert(insert_ranges(ops.push(o)) == seq![(o.1, (o.1 + o.2 - 1) as u64)] + Seq::<
                (u64, u64),
            >::empty());
            assert(seq![(o.1, (o.1 + o.2 - 1) as u64)] + Seq::<(u64, u64)>::empty() =~= Seq::<
                (u64, u64),
            >::empty() + seq![(o.1, (o.1 + o.2 - 1) as u64)]);
        } else {
            assert(insert_ranges(ops.push(o)) == Seq::<(u64, u64)>::empty());
            assert(Seq::<(u64, u64)>::empty() + Seq::<(u64, u64)>::empty() =~= Seq::<
                (u64, u64),
            >::empty());
        }
    } else {
        assert(ops.push(o).skip(1) =~= ops.skip(1).push(o));
        lemma_insert_ranges_push(ops.skip(1), o);
        assert(ops.push(o)[0] == ops[0]);
        if ops[0].0 == Operation::Insert {
            let head = seq![(ops[0].1, (ops[0].1 + ops[0].2 - 1) as u64)];
            assert(insert_ranges(ops.push(o)) == head + (insert_ranges(ops.skip(1)) + tail));
            assert(head + (insert_ranges(ops.skip(1)) + tail) =~= (head + insert_ranges(
                ops.skip(1),
            )) + tail);
        } else {
            assert(insert_ranges(ops.push(o)) == insert_ranges(ops.skip(1)) + tail);
        }
    }
}

/// The inclusive byte range each `Insert` run asks of the origin, in run
/// order: `(offset, offset + size - 1)`.
#[verifier::loop_isolation(false)]
pub fn plan_insert_ranges(ops: &Vec<(Operation, u64, u64)>) -> (ranges: Vec<(u64, u64)>)
    requires
        forall|k: int|
            0 <= k < ops@.len() && (#[trigger] ops@[k]).0 == Operation::Insert ==> 1 <= ops@[k].2
                && ops@[k].1 + ops@[k].2 - 1 <= u64::MAX,
    ensures
        ranges@ == insert_ranges(ops@),
{
    let mut ranges: Vec<(u64, u64)> = Vec::new();
    let n = ops.len();
    let mut i: usize = 0;
    proof {
        assert(ops@.take(0) =~= Seq::<(Operation, u64, u64)>::empty());
    }
    while i < n
        invariant
            i <= n,
            ranges@ == insert_ranges(ops@.take(i as int)),
        decreases n - i,
    {
        let o = ops[i];
        match o.0 {
            Operation::Copy => {},
            Operation::Insert => {
                ranges.push((o.1, o.1 + (o.2 - 1)));
            },
        }
        proof {
            lemma_insert_ranges_push(ops@.take(i as int), ops@[i as int]);
            assert(ops@.take(i as int + 1) =~= ops@.take(i as int).push(ops@[i as int]));
            assert(ranges@ =~= insert_ranges(ops@.take(i as int + 1)));
        }
        i = i + 1;
    }
    proof {
        assert(ops@.take(n as int) =~= ops@);
    }
    ranges
}

} // verus!
