use cdcsync::diff::{diff_signatures, Operation};
use cdcsync::errors::DeltaError;
use cdcsync::signature::{
    Chunk, Signature, DEFAULT_AVG_SIZE, DEFAULT_MAX_SIZE, DEFAULT_MIN_SIZE,
};

fn lcg_bytes(seed: u64, n: usize) -> Vec<u8> {
    let mut state = seed;
    (0..n)
        .map(|_| {
            state = state.wrapping_mul(6364136223846793005).wrapping_add(1442695040888963407);
            (state >> 56) as u8
        })
        .collect()
}

#[test]
fn test_diff_signatures() {
    let chunks1 = vec![
        Chunk { hash: vec![4u8; 32], offset: 0, length: 16 },
        Chunk { hash: vec![0u8; 32], offset: 16, length: 256 },
        Chunk { hash: vec![2u8; 32], offset: 272, length: 18 },
    ];
    let sig1 = Signature {
        version: 0,
        min_size: 1024,
        avg_size: 1024,
        max_size: 2048,
        chunks: chunks1,
    };

    let chunks2 = vec![
        Chunk { hash: vec![0u8; 32], offset: 0, length: 256 },
        Chunk { hash: vec![4u8; 32], offset: 256, length: 16 },
        Chunk { hash: vec![5u8; 32], offset: 272, length: 28 },
        Chunk { hash: vec![6u8; 32], offset: 300, length: 12 },
        Chunk { hash: vec![2u8; 32], offset: 312, length: 18 },
        Chunk { hash: vec![17u8; 32], offset: 330, length: 10 },
    ];
    let sig2 = Signature {
        version: 0,
        min_size: 1024,
        avg_size: 1024,
        max_size: 2048,
        chunks: chunks2,
    };

    let res = diff_signatures(&sig1, &sig2);
    assert_eq!(
        res,
        vec![
            (Operation::Copy, 16, 256),
            (Operation::Copy, 0, 16),
            (Operation::Insert, 272, 40),
            (Operation::Copy, 272, 18),
            (Operation::Insert, 330, 10),
        ]
    )
}

#[test]
fn identity_diff_is_one_copy() {
    let data = b"Hello, World!".to_vec();
    let patch = cdcsync::diff(&data, &data, None);
    let mut expected = vec![0u8, 0u8];
    expected.extend_from_slice(&0u64.to_be_bytes());
    expected.extend_from_slice(&13u64.to_be_bytes());
    assert_eq!(patch, expected);
    let rebuilt = cdcsync::apply(&patch, &data).unwrap();
    assert_eq!(rebuilt, data);
}

#[test]
fn identical_files_give_one_copy_run() {
    let data = lcg_bytes(5, 300_000);
    let sig_a = Signature::calculate(&data, DEFAULT_MIN_SIZE, DEFAULT_AVG_SIZE, DEFAULT_MAX_SIZE);
    let sig_b = Signature::calculate(&data, DEFAULT_MIN_SIZE, DEFAULT_AVG_SIZE, DEFAULT_MAX_SIZE);
    let ops = diff_signatures(&sig_a, &sig_b);
    assert_eq!(ops, vec![(Operation::Copy, 0, 300_000)]);
}

#[test]
fn diff_against_empty_target_is_empty() {
    let data = lcg_bytes(9, 50_000);
    let patch = cdcsync::diff(&data, &[], None);
    assert_eq!(patch, vec![0u8]);
    let patch2 = cdcsync::diff(&[], &[], None);
    assert_eq!(patch2, vec![0u8]);
}

#[test]
fn pure_insert_from_empty_source() {
    let target = lcg_bytes(7, 1_048_576);
    let sig_a = Signature::calculate(&[], DEFAULT_MIN_SIZE, DEFAULT_AVG_SIZE, DEFAULT_MAX_SIZE);
    let sig_b =
        Signature::calculate(&target, DEFAULT_MIN_SIZE, DEFAULT_AVG_SIZE, DEFAULT_MAX_SIZE);
    let ops = diff_signatures(&sig_a, &sig_b);
    assert_eq!(ops, vec![(Operation::Insert, 0, 1_048_576)]);
    let patch = cdcsync::diff(&[], &target, None);
    assert_eq!(patch.len(), 1_048_576 + 10);
    let rebuilt = cdcsync::apply(&patch, &[]).unwrap();
    assert_eq!(rebuilt, target);
}

#[test]
fn reordered_halves_give_two_copies() {
    let half = 65_536u64;
    let sig_a = Signature {
        version: 0,
        min_size: 4096,
        avg_size: 16384,
        max_size: 65535,
        chunks: vec![
            Chunk { hash: vec![1u8; 32], offset: 0, length: half },
            Chunk { hash: vec![2u8; 32], offset: half, length: half },
        ],
    };
    let sig_b = Signature {
        version: 0,
        min_size: 4096,
        avg_size: 16384,
        max_size: 65535,
        chunks: vec![
            Chunk { hash: vec![2u8; 32], offset: 0, length: half },
            Chunk { hash: vec![1u8; 32], offset: half, length: half },
        ],
    };
    let ops = diff_signatures(&sig_a, &sig_b);
    assert_eq!(
        ops,
        vec![(Operation::Copy, half, half), (Operation::Copy, 0, half)]
    );
}

#[test]
fn shift_resistance_keeps_suffix_as_copy() {
    let prefix = lcg_bytes(21, 200_000);
    let suffix = lcg_bytes(22, 200_000);
    let x = lcg_bytes(23, 1_000);
    let y = lcg_bytes(24, 2_000);
    let mut t = prefix.clone();
    t.extend_from_slice(&x);
    t.extend_from_slice(&suffix);
    let mut t2 = prefix.clone();
    t2.extend_from_slice(&y);
    t2.extend_from_slice(&suffix);

    let sig_t = Signature::calculate(&t, DEFAULT_MIN_SIZE, DEFAULT_AVG_SIZE, DEFAULT_MAX_SIZE);
    let sig_t2 = Signature::calculate(&t2, DEFAULT_MIN_SIZE, DEFAULT_AVG_SIZE, DEFAULT_MAX_SIZE);
    let ops = diff_signatures(&sig_t, &sig_t2);

    // most of the suffix comes back as one Copy run, up to chunking-boundary
    // effects near the edit
    let window = 2 * DEFAULT_MAX_SIZE as u64;
    assert!(ops
        .iter()
        .any(|op| op.0 == Operation::Copy && op.2 >= 200_000 - window));

    let patch = cdcsync::diff(&t, &t2, None);
    let rebuilt = cdcsync::apply(&patch, &t).unwrap();
    assert_eq!(rebuilt, t2);
}

#[test]
fn overwrite_in_middle_is_copy_insert_copy() {
    let source = lcg_bytes(31, 262_144);
    let mut target = source.clone();
    let replacement = lcg_bytes(32, 100);
    let at = 131_072;
    target[at..at + 100].copy_from_slice(&replacement);

    let sig_s = Signature::calculate(&source, DEFAULT_MIN_SIZE, DEFAULT_AVG_SIZE, DEFAULT_MAX_SIZE);
    let sig_t = Signature::calculate(&target, DEFAULT_MIN_SIZE, DEFAULT_AVG_SIZE, DEFAULT_MAX_SIZE);
    let ops = diff_signatures(&sig_s, &sig_t);

    let inserts: Vec<_> = ops.iter().filter(|op| op.0 == Operation::Insert).collect();
    assert_eq!(inserts.len(), 1);
    let insert_total: u64 = inserts.iter().map(|op| op.2).sum();
    assert!(insert_total <= 2 * DEFAULT_MAX_SIZE as u64 + 100);
    assert_eq!(ops.first().map(|op| (op.0, op.1)), Some((Operation::Copy, 0)));
    assert_eq!(ops.last().map(|op| op.0), Some(Operation::Copy));

    let patch = cdcsync::diff(&source, &target, None);
    let rebuilt = cdcsync::apply(&patch, &source).unwrap();
    assert_eq!(rebuilt, target);
}

#[test]
fn single_byte_insert_in_middle() {
    let source = lcg_bytes(41, 262_144);
    let mut target = source.clone();
    target.insert(131_072, 0xAB);

    let sig_s = Signature::calculate(&source, DEFAULT_MIN_SIZE, DEFAULT_AVG_SIZE, DEFAULT_MAX_SIZE);
    let sig_t = Signature::calculate(&target, DEFAULT_MIN_SIZE, DEFAULT_AVG_SIZE, DEFAULT_MAX_SIZE);
    let ops = diff_signatures(&sig_s, &sig_t);

    let inserts: Vec<_> = ops.iter().filter(|op| op.0 == Operation::Insert).collect();
    assert_eq!(inserts.len(), 1);
    let insert_total: u64 = inserts.iter().map(|op| op.2).sum();
    assert!(insert_total <= 2 * DEFAULT_MAX_SIZE as u64 + 1);
    assert_eq!(ops.first().map(|op| (op.0, op.1)), Some((Operation::Copy, 0)));
    assert_eq!(ops.last().map(|op| op.0), Some(Operation::Copy));

    let patch = cdcsync::diff(&source, &target, None);
    let rebuilt = cdcsync::apply(&patch, &source).unwrap();
    assert_eq!(rebuilt, target);
}

#[test]
fn diff_using_stored_source_signature() {
    let source = lcg_bytes(51, 150_000);
    let mut target = source.clone();
    target.extend_from_slice(&lcg_bytes(52, 5_000));

    let sig_bytes = cdcsync::signature(&source, None);
    let patch = cdcsync::diff_using_source_signature(&sig_bytes, &target).unwrap();
    let direct = cdcsync::diff(&source, &target, None);
    assert_eq!(patch, direct);
    let rebuilt = cdcsync::apply(&patch, &source).unwrap();
    assert_eq!(rebuilt, target);
}

#[test]
fn diff_using_source_signature_rejects_bad_signature() {
    let target = b"whatever".to_vec();
    assert_eq!(
        cdcsync::diff_using_source_signature(&[], &target),
        Err(DeltaError::Framing)
    );
    let mut bytes = vec![0u8];
    bytes.extend_from_slice(&1u32.to_be_bytes());
    bytes.extend_from_slice(&1u32.to_be_bytes());
    bytes.extend_from_slice(&1u32.to_be_bytes());
    bytes.extend_from_slice(&0u64.to_be_bytes());
    // parameters outside the chunker's accepted ranges
    assert_eq!(
        cdcsync::diff_using_source_signature(&bytes, &target),
        Err(DeltaError::ChunkParamInvariant)
    );
}
