use vstd::prelude::*;

pub mod apply;
pub mod chunker;
pub mod codec;
pub mod diff;
pub mod errors;
pub mod hasher;
pub mod laws;
pub mod signature;

pub use crate::apply::apply;

verus! {

use crate::chunker::{chunk_params_valid, params_valid};
use crate::diff::{chunks_wf_check, chunks_wf, plan_ops, write_diff_between, Operation};
use crate::errors::DeltaError;
use crate::laws::lemma_ends_bounded;
use crate::signature::{
    sig_parse, sig_ser, spec_signature, Signature, DEFAULT_AVG_SIZE, DEFAULT_MAX_SIZE,
    DEFAULT_MIN_SIZE,
};

/// Format version written as the first byte of both signatures and patches.
pub const VERSION: u8 = 0;

/// The three content-defined-chunking size parameters.
#[derive(Clone, Copy, Debug, PartialEq, Eq, Structural)]
pub struct SignatureOptions {
    pub min_size: u32,
    pub avg_size: u32,
    pub max_size: u32,
}

impl Default for SignatureOptions {
    /// The recommended chunk sizes.
    fn default() -> (r: Self)
        ensures
            r == default_options(),
    {
        SignatureOptions {
            min_size: DEFAULT_MIN_SIZE,
            avg_size: DEFAULT_AVG_SIZE,
            max_size: DEFAULT_MAX_SIZE,
        }
    }
}

/// The recommended chunk sizes.
pub open spec fn default_options() -> SignatureOptions {
    SignatureOptions {
        min_size: DEFAULT_MIN_SIZE,
        avg_size: DEFAULT_AVG_SIZE,
        max_size: DEFAULT_MAX_SIZE,
    }
}

/// The options that apply: the given ones, or the defaults.
pub open spec fn opts_of(options: Option<SignatureOptions>) -> SignatureOptions {
    match options {
        Some(o) => o,
        None => default_options(),
    }
}

/// Whether the applying options lie in the chunker's accepted ranges.
pub open spec fn opts_valid(options: Option<SignatureOptions>) -> bool {
    chunk_params_valid(opts_of(options).min_size, opts_of(options).avg_size, opts_of(options).max_size)
}

/// The serialized signature of `source` under the given options.
pub fn signature(source: &[u8], options: Option<SignatureOptions>) -> (out: Vec<u8>)
    requires
        opts_valid(options),
    ensures
        out@ == sig_ser(
            spec_signature(
                source@,
                opts_of(options).min_size,
                opts_of(options).avg_size,
                opts_of(options).max_size,
            ),
        ),
{
    let o = match options {
        Some(o) => o,
        None => SignatureOptions::default(),
    };
    let sig = Signature::calculate(source, o.min_size, o.avg_size, o.max_size);
    sig.write()
}

/// The serialized patch that turns `source` into `target`, with both files
/// chunked under the given options.
pub fn diff(source: &[u8], target: &[u8], options: Option<SignatureOptions>) -> (patch: Vec<u8>)
    requires
        opts_valid(options),
    ensures
        patch@ == crate::diff::patch_ser(
            plan_ops(
                spec_signature(
                    source@,
                    opts_of(options).min_size,
                    opts_of(options).avg_size,
                    opts_of(options).max_size,
                ).chunks,
                spec_signature(
                    target@,
                    opts_of(options).min_size,
                    opts_of(options).avg_size,
                    opts_of(options).max_size,
                ).chunks,
            ),
            target@,
        ),
{
    let o = match options {
        Some(o) => o,
        None => SignatureOptions::default(),
    };
    let source_len = source.len();
    let target_len = target.len();
    let source_signature = Signature::calculate(source, o.min_size, o.avg_size, o.max_size);
    let target_signature = Signature::calculate(target, o.min_size, o.avg_size, o.max_size);
    proof {
        lemma_ends_bounded(source_signature@.chunks, source_len as int);
        lemma_ends_bounded(target_signature@.chunks, target_len as int);
    }
    write_diff_between(&source_signature, &target_signature, target)
}

/// The serialized patch that turns the file summarized by a stored source
/// signature into `target`, chunking the target with the signature's own
/// parameters. The signature is rejected as it would be on loading; loaded
/// parameters outside the chunker's ranges, or chunk bounds past the `u64`
/// range, are rejected as a chunk invariant violation.
pub fn diff_using_source_signature(source_sig: &[u8], target: &[u8]) -> (r: Result<
    Vec<u8>,
    DeltaError,
>)
    ensures
        r matches Err(e) ==> match sig_parse(source_sig@) {
            Err(pe) => e == pe,
            Ok(m) => e == DeltaError::ChunkParamInvariant && !(chunk_params_valid(
                m.min_size,
                m.avg_size,
                m.max_size,
            ) && chunks_wf(m.chunks)),
        },
        r matches Ok(patch) ==> match sig_parse(source_sig@) {
            Err(_) => false,
            Ok(m) => chunk_params_valid(m.min_size, m.avg_size, m.max_size) && chunks_wf(m.chunks)
                && patch@ == crate::diff::patch_ser(
                plan_ops(
                    m.chunks,
                    spec_signature(target@, m.min_size, m.avg_size, m.max_size).chunks,
                ),
                target@,
            ),
        },
{
    let source_signature = match Signature::load(source_sig) {
        Ok(sig) => sig,
        Err(e) => {
            return Err(e);
        },
    };
    if !params_valid(
        source_signature.min_size,
        source_signature.avg_size,
        source_signature.max_size,
    ) {
        return Err(DeltaError::ChunkParamInvariant);
    }
    if !chunks_wf_check(&source_signature.chunks) {
        return Err(DeltaError::ChunkParamInvariant);
    }
    let target_len = target.len();
    let target_signature = Signature::calculate(
        target,
        source_signature.min_size,
        source_signature.avg_size,
        source_signature.max_size,
    );
    proof {
        lemma_ends_bounded(target_signature@.chunks, target_len as int);
    }
    Ok(write_diff_between(&source_signature, &target_signature, target))
}

/// The run list that pull mode executes: the source is chunked with the
/// stored target signature's parameters and compared against it. The stored
/// signature is rejected exactly as in [`diff_using_source_signature`].
pub fn pull_plan(source: &[u8], target_sig: &[u8]) -> (r: Result<
    Vec<(Operation, u64, u64)>,
    DeltaError,
>)
    ensures
        r matches Err(e) ==> match sig_parse(target_sig@) {
            Err(pe) => e == pe,
            Ok(m) => e == DeltaError::ChunkParamInvariant && !(chunk_params_valid(
                m.min_size,
                m.avg_size,
                m.max_size,
            ) && chunks_wf(m.chunks)),
        },
        r matches Ok(ops) ==> match sig_parse(target_sig@) {
            Err(_) => false,
            Ok(m) => chunk_params_valid(m.min_size, m.avg_size, m.max_size) && chunks_wf(m.chunks)
                && ops@ == plan_ops(
                spec_signature(source@, m.min_size, m.avg_size, m.max_size).chunks,
                m.chunks,
            ),
        },
{
    let target_signature = match Signature::load(target_sig) {
        Ok(sig) => sig,
        Err(e) => {
            return Err(e);
        },
    };
    if !params_valid(
        target_signature.min_size,
        target_signature.avg_size,
        target_signature.max_size,
    ) {
        return Err(DeltaError::ChunkParamInvariant);
    }
    if !chunks_wf_check(&target_signature.chunks) {
        return Err(DeltaError::ChunkParamInvariant);
    }
    let source_len = source.len();
    let source_signature = Signature::calculate(
        source,
        target_signature.min_size,
        target_signature.avg_size,
        target_signature.max_size,
    );
    proof {
        lemma_ends_bounded(source_signature@.chunks, source_len as int);
    }
    Ok(crate::diff::diff_signatures(&source_signature, &target_signature))
}

} // verus!
