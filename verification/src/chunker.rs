use vstd::prelude::*;

verus! {

/// The `(offset, length)` cut points that content-defined chunking places in
/// `data` for the given size parameters. The algorithm is a pure function of
/// the bytes and the parameters, so the result is named rather than spelled
/// out.
pub uninterp spec fn cuts_of(data: Seq<u8>, min_size: u32, avg_size: u32, max_size: u32) -> Seq<
    (u64, u64),
>;

/// The parameter ranges accepted by the chunker, together with the ordering
/// `min_size <= avg_size <= max_size` that the chunking contract assumes.
pub open spec fn chunk_params_valid(min_size: u32, avg_size: u32, max_size: u32) -> bool {
    &&& 64 <= min_size <= 1048576
    &&& 256 <= avg_size <= 4194304
    &&& 1024 <= max_size <= 16777216
    &&& min_size <= avg_size <= max_size
}

/// The cut list tiles `[0, total)` without gaps or overlaps: the first cut
/// starts at zero, each cut starts where the previous one ended, the last cut
/// ends at `total`, and every cut is between one byte and `max_size` bytes
/// long.
pub open spec fn cuts_partition(cuts: Seq<(u64, u64)>, total: int, max_size: u32) -> bool {
    &&& (cuts.len() == 0 <==> total == 0)
    &&& (cuts.len() > 0 ==> cuts[0].0 == 0)
    &&& (forall|i: int|
        0 < i < cuts.len() ==> (#[trigger] cuts[i]).0 == cuts[i - 1].0 + cuts[i - 1].1)
    &&& (cuts.len() > 0 ==> cuts.last().0 + cuts.last().1 == total)
    &&& (forall|i: int| 0 <= i < cuts.len() ==> 1 <= (#[trigger] cuts[i]).1 <= max_size)
}

/// Every cut of a partition ends at or before `total`.
pub proof fn lemma_cut_end_bound(cuts: Seq<(u64, u64)>, total: int, max_size: u32, i: int)
    requires
        cuts_partition(cuts, total, max_size),
        0 <= i < cuts.len(),
    ensures
        cuts[i].0 + cuts[i].1 <= total,
    decreases cuts.len() - i,
{
    if i == cuts.len() - 1 {
    } else {
        lemma_cut_end_bound(cuts, total, max_size, i + 1);
    }
}

/// Whether the three size parameters lie in the chunker's accepted ranges
/// and are ordered.
pub fn params_valid(min_size: u32, avg_size: u32, max_size: u32) -> (r: bool)
    ensures
        r == chunk_params_valid(min_size, avg_size, max_size),
{
    64 <= min_size && min_size <= 1048576 && 256 <= avg_size && avg_size <= 4194304 && 1024
        <= max_size && max_size <= 16777216 && min_size <= avg_size && avg_size <= max_size
}

/// Relies on fastcdc::v2020::FastCDC: splits `data` into content-defined
/// chunks. The iterator walks the whole slice, emitting consecutive chunks
/// that cover it exactly; each chunk is at most `max_size` bytes, and input
/// no longer than `min_size` comes back as one chunk.
#[verifier::external_body]
pub fn chunk_cuts(data: &[u8], min_size: u32, avg_size: u32, max_size: u32) -> (cuts: Vec<
    (u64, u64),
>)
    requires
        chunk_params_valid(min_size, avg_size, max_size),
    ensures
        cuts@ == cuts_of(data@, min_size, avg_size, max_size),
        cuts_partition(cuts@, data@.len() as int, max_size),
        data@.len() > 0 && data@.len() <= min_size ==> cuts@ == seq![
            (0u64, data@.len() as u64),
        ],
{
    fastcdc::v2020::FastCDC::new(data, min_size, avg_size, max_size)
        .map(|c| (c.offset as u64, c.length as u64))
        .collect()
}

} // verus!
