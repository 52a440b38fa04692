use vstd::prelude::*;

verus! {

/// The eight bytes of `x` in big-endian order.
pub open spec fn be64_bytes(x: u64) -> Seq<u8> {
    seq![
        (x >> 56) as u8,
        (x >> 48) as u8,
        (x >> 40) as u8,
        (x >> 32) as u8,
        (x >> 24) as u8,
        (x >> 16) as u8,
        (x >> 8) as u8,
        x as u8,
    ]
}

/// The value read big-endian from the first eight bytes of `s`.
pub open spec fn be64_val(s: Seq<u8>) -> u64
    recommends
        s.len() == 8,
{
    ((s[0] as u64) << 56) | ((s[1] as u64) << 48) | ((s[2] as u64) << 40) | ((s[3] as u64) << 32)
        | ((s[4] as u64) << 24) | ((s[5] as u64) << 16) | ((s[6] as u64) << 8) | (s[7] as u64)
}

/// The four bytes of `x` in big-endian order.
pub open spec fn be32_bytes(x: u32) -> Seq<u8> {
    seq![(x >> 24) as u8, (x >> 16) as u8, (x >> 8) as u8, x as u8]
}

/// The value read big-endian from the first four bytes of `s`.
pub open spec fn be32_val(s: Seq<u8>) -> u32
    recommends
        s.len() == 4,
{
    ((s[0] as u32) << 24) | ((s[1] as u32) << 16) | ((s[2] as u32) << 8) | (s[3] as u32)
}

/// Decoding the big-endian bytes of a `u64` gives the value back.
pub proof fn lemma_be64_roundtrip(x: u64)
    ensures
        be64_val(be64_bytes(x)) == x,
{
    assert(((((x >> 56) as u8) as u64) << 56) | ((((x >> 48) as u8) as u64) << 48) | ((((x >> 40)
        as u8) as u64) << 40) | ((((x >> 32) as u8) as u64) << 32) | ((((x >> 24) as u8) as u64)
        << 24) | ((((x >> 16) as u8) as u64) << 16) | ((((x >> 8) as u8) as u64) << 8) | ((x
        as u8) as u64) == x) by (bit_vector);
}

/// Decoding the big-endian bytes of a `u32` gives the value back.
pub proof fn lemma_be32_roundtrip(x: u32)
    ensures
        be32_val(be32_bytes(x)) == x,
{
    assert(((((x >> 24) as u8) as u32) << 24) | ((((x >> 16) as u8) as u32) << 16) | ((((x >> 8)
        as u8) as u32) << 8) | ((x as u8) as u32) == x) by (bit_vector);
}

/// Appends the big-endian bytes of `x` to `out`.
pub fn push_be64(out: &mut Vec<u8>, x: u64)
    ensures
        final(out)@ == old(out)@ + be64_bytes(x),
{
    out.push((x >> 56) as u8);
    out.push((x >> 48) as u8);
    out.push((x >> 40) as u8);
    out.push((x >> 32) as u8);
    out.push((x >> 24) as u8);
    out.push((x >> 16) as u8);
    out.push((x >> 8) as u8);
    out.push(x as u8);
    assert(out@ =~= old(out)@ + be64_bytes(x));
}

/// Appends the big-endian bytes of `x` to `out`.
pub fn push_be32(out: &mut Vec<u8>, x: u32)
    ensures
        final(out)@ == old(out)@ + be32_bytes(x),
{
    out.push((x >> 24) as u8);
    out.push((x >> 16) as u8);
    out.push((x >> 8) as u8);
    out.push(x as u8);
    assert(out@ =~= old(out)@ + be32_bytes(x));
}

/// Reads a big-endian `u64` from `s` at position `pos`.
pub fn read_be64(s: &[u8], pos: usize) -> (x: u64)
    requires
        pos + 8 <= s@.len(),
    ensures
        x == be64_val(s@.subrange(pos as int, pos as int + 8)),
{
    let x = ((s[pos] as u64) << 56) | ((s[pos + 1] as u64) << 48) | ((s[pos + 2] as u64) << 40) | (
    (s[pos + 3] as u64) << 32) | ((s[pos + 4] as u64) << 24) | ((s[pos + 5] as u64) << 16) | ((s[pos
        + 6] as u64) << 8) | (s[pos + 7] as u64);
    proof {
        let sub = s@.subrange(pos as int, pos as int + 8);
        assert(sub[0] == s@[pos as int]);
        assert(sub[1] == s@[pos as int + 1]);
        assert(sub[2] == s@[pos as int + 2]);
        assert(sub[3] == s@[pos as int + 3]);
        assert(sub[4] == s@[pos as int + 4]);
        assert(sub[5] == s@[pos as int + 5]);
        assert(sub[6] == s@[pos as int + 6]);
        assert(sub[7] == s@[pos as int + 7]);
    }
    x
}

/// Reads a big-endian `u32` from `s` at position `pos`.
pub fn read_be32(s: &[u8], pos: usize) -> (x: u32)
    requires
        pos + 4 <= s@.len(),
    ensures
        x == be32_val(s@.subrange(pos as int, pos as int + 4)),
{
    let x = ((s[pos] as u32) << 24) | ((s[pos + 1] as u32) << 16) | ((s[pos + 2] as u32) << 8) | (
    s[pos + 3] as u32);
    proof {
        let sub = s@.subrange(pos as int, pos as int + 4);
        assert(sub[0] == s@[pos as int]);
        assert(sub[1] == s@[pos as int + 1]);
        assert(sub[2] == s@[pos as int + 2]);
        assert(sub[3] == s@[pos as int + 3]);
    }
    x
}

/// Appends `src[start..end]` to `out`.
pub fn push_slice_range(out: &mut Vec<u8>, src: &[u8], start: usize, end: usize)
    requires
        start <= end <= src@.len(),
    ensures
        final(out)@ == old(out)@ + src@.subrange(start as int, end as int),
{
    let mut i: usize = start;
    while i < end
        invariant
            start <= i <= end <= src@.len(),
            out@ == old(out)@ + src@.subrange(start as int, i as int),
        decreases end - i,
    {
        out.push(src[i]);
        assert(out@ =~= old(out)@ + src@.subrange(start as int, i as int + 1));
        i = i + 1;
    }
}

/// Appends all of `src` to `out`.
pub fn push_bytes(out: &mut Vec<u8>, src: &Vec<u8>)
    ensures
        final(out)@ == old(out)@ + src@,
{
    let mut i: usize = 0;
    while i < src.len()
        invariant
            i <= src@.len(),
            out@ == old(out)@ + src@.subrange(0, i as int),
        decreases src@.len() - i,
    {
        out.push(src[i]);
        assert(out@ =~= old(out)@ + src@.subrange(0, i as int + 1));
        i = i + 1;
    }
    assert(out@ =~= old(out)@ + src@);
}

/// The bytes of `data` at `[off, off + len)`, cut short at the end of
/// `data`; empty when `off` lies beyond it or the bounds are negative.
pub open spec fn clip(data: Seq<u8>, off: int, len: int) -> Seq<u8> {
    if off < 0 || len < 0 || off > data.len() {
        Seq::empty()
    } else if off + len <= data.len() {
        data.subrange(off, off + len)
    } else {
        data.subrange(off, data.len() as int)
    }
}

/// Appends the bytes of `data` at `[off, off + len)`, cut short at the end
/// of `data`, to `out`.
pub fn push_clip(out: &mut Vec<u8>, data: &[u8], off: u64, len: u64)
    ensures
        final(out)@ == old(out)@ + clip(data@, off as int, len as int),
{
    let n = data.len();
    let start = if off >= n as u64 {
        n
    } else {
        off as usize
    };
    let avail = (n - start) as u64;
    let take = if len < avail {
        len as usize
    } else {
        n - start
    };
    push_slice_range(out, data, start, start + take);
    proof {
        assert(data@.subrange(start as int, start as int + take as int) =~= clip(
            data@,
            off as int,
            len as int,
        ));
    }
}

/// Whether two byte vectors hold the same bytes.
pub fn bytes_eq(a: &Vec<u8>, b: &Vec<u8>) -> (r: bool)
    ensures
        r <==> a@ == b@,
{
    if a.len() != b.len() {
        assert(a@ != b@);
        return false;
    }
    let mut i: usize = 0;
    while i < a.len()
        invariant
            i <= a@.len(),
            a@.len() == b@.len(),
            forall|j: int| 0 <= j < i ==> a@[j] == b@[j],
        decreases a@.len() - i,
    {
        if a[i] != b[i] {
            return false;
        }
        i = i + 1;
    }
    proof {
        assert(a@ =~= b@);
    }
    true
}

} // verus!
