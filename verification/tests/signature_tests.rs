use cdcsync::errors::DeltaError;
use cdcsync::signature::{
    Signature, DEFAULT_AVG_SIZE, DEFAULT_MAX_SIZE, DEFAULT_MIN_SIZE,
};

#[test]
fn test_signature_serialization() {
    let data: Vec<u8> = (0..100500).map(|_| rand::random::<u8>()).collect();
    let sig = Signature::calculate(&data, DEFAULT_MIN_SIZE, DEFAULT_AVG_SIZE, DEFAULT_MAX_SIZE);
    let serialized_data = sig.write();
    let sig_re = Signature::load(&serialized_data).expect("can't serialize the signature");
    assert_eq!(sig, sig_re);
}

#[test]
fn empty_input_has_empty_chunk_list() {
    let data: Vec<u8> = Vec::new();
    let sig = Signature::calculate(&data, DEFAULT_MIN_SIZE, DEFAULT_AVG_SIZE, DEFAULT_MAX_SIZE);
    assert_eq!(sig.chunks.len(), 0);
    let bytes = sig.write();
    // version, three u32 parameters, and an eight-byte zero count
    assert_eq!(bytes.len(), 21);
    let sig_re = Signature::load(&bytes).unwrap();
    assert_eq!(sig, sig_re);
}

#[test]
fn small_file_is_one_chunk() {
    let data: Vec<u8> = (0..100u32).map(|i| (i * 7 + 3) as u8).collect();
    let sig = Signature::calculate(&data, DEFAULT_MIN_SIZE, DEFAULT_AVG_SIZE, DEFAULT_MAX_SIZE);
    assert_eq!(sig.chunks.len(), 1);
    assert_eq!(sig.chunks[0].offset, 0);
    assert_eq!(sig.chunks[0].length, 100);
}

#[test]
fn chunk_hash_is_blake3() {
    let data = b"Hello, World!".to_vec();
    let sig = Signature::calculate(&data, DEFAULT_MIN_SIZE, DEFAULT_AVG_SIZE, DEFAULT_MAX_SIZE);
    assert_eq!(sig.chunks.len(), 1);
    let expected = blake3::hash(&data);
    assert_eq!(sig.chunks[0].hash.as_slice(), expected.as_bytes().as_slice());
}

#[test]
fn chunking_is_deterministic() {
    let mut state: u64 = 11;
    let data: Vec<u8> = (0..200_000)
        .map(|_| {
            state = state.wrapping_mul(6364136223846793005).wrapping_add(1442695040888963407);
            (state >> 56) as u8
        })
        .collect();
    let a = Signature::calculate(&data, DEFAULT_MIN_SIZE, DEFAULT_AVG_SIZE, DEFAULT_MAX_SIZE);
    let b = Signature::calculate(&data, DEFAULT_MIN_SIZE, DEFAULT_AVG_SIZE, DEFAULT_MAX_SIZE);
    assert!(a.chunks.len() > 1);
    assert_eq!(a, b);
    for (x, y) in a.chunks.iter().zip(b.chunks.iter()) {
        assert_eq!(x.offset, y.offset);
        assert_eq!(x.length, y.length);
    }
    for c in a.chunks.iter() {
        assert!(c.length <= DEFAULT_MAX_SIZE as u64);
    }
}

#[test]
fn load_rejects_empty_input() {
    assert_eq!(Signature::load(&[]), Err(DeltaError::Framing));
}

#[test]
fn load_rejects_unknown_version() {
    let mut bytes = Signature::calculate(b"abc", DEFAULT_MIN_SIZE, DEFAULT_AVG_SIZE, DEFAULT_MAX_SIZE)
        .write();
    bytes[0] = 0xFF;
    assert_eq!(
        Signature::load(&bytes),
        Err(DeltaError::VersionMismatch { got: 0xFF, want: 0 })
    );
}

#[test]
fn load_rejects_truncated_header() {
    let bytes = vec![0u8; 10];
    assert_eq!(Signature::load(&bytes), Err(DeltaError::Framing));
}

#[test]
fn load_rejects_short_chunk_table() {
    let data = b"some reasonably ordinary input".to_vec();
    let mut bytes = Signature::calculate(&data, DEFAULT_MIN_SIZE, DEFAULT_AVG_SIZE, DEFAULT_MAX_SIZE)
        .write();
    // advertise one chunk more than is present
    bytes[20] = bytes[20].wrapping_add(1);
    assert_eq!(Signature::load(&bytes), Err(DeltaError::Framing));
}

#[test]
fn load_rejects_overlong_chunk() {
    let data = b"some reasonably ordinary input".to_vec();
    let sig = Signature::calculate(&data, DEFAULT_MIN_SIZE, DEFAULT_AVG_SIZE, DEFAULT_MAX_SIZE);
    let mut bytes = sig.write();
    // the chunk length field is the last eight bytes of the only record;
    // make it exceed max_size
    let len_at = bytes.len() - 8;
    bytes[len_at] = 0xFF;
    assert_eq!(Signature::load(&bytes), Err(DeltaError::ChunkParamInvariant));
}

#[test]
fn load_rejects_decreasing_offsets() {
    let mut chunks_bytes = Vec::new();
    let mk = |offset: u64, length: u64, tag: u8| {
        let mut rec = vec![tag; 32];
        rec.extend_from_slice(&offset.to_be_bytes());
        rec.extend_from_slice(&length.to_be_bytes());
        rec
    };
    let mut bytes = vec![0u8];
    bytes.extend_from_slice(&4096u32.to_be_bytes());
    bytes.extend_from_slice(&16384u32.to_be_bytes());
    bytes.extend_from_slice(&65535u32.to_be_bytes());
    bytes.extend_from_slice(&2u64.to_be_bytes());
    chunks_bytes.extend_from_slice(&mk(500, 10, 1));
    chunks_bytes.extend_from_slice(&mk(400, 10, 2));
    bytes.extend_from_slice(&chunks_bytes);
    assert_eq!(Signature::load(&bytes), Err(DeltaError::ChunkParamInvariant));
}
