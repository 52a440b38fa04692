use cdcsync::apply::{apply_with_inserts, plan_insert_ranges};
use cdcsync::diff::Operation;
use cdcsync::errors::DeltaError;

fn lcg_bytes(seed: u64, n: usize) -> Vec<u8> {
    let mut state = seed;
    (0..n)
        .map(|_| {
            state = state.wrapping_mul(6364136223846793005).wrapping_add(1442695040888963407);
            (state >> 56) as u8
        })
        .collect()
}

#[test]
fn reconstruction_is_exact() {
    let source = lcg_bytes(61, 300_000);
    let mut target = lcg_bytes(62, 20_000);
    target.extend_from_slice(&source[50_000..250_000]);
    target.extend_from_slice(&lcg_bytes(63, 30_000));

    let patch = cdcsync::diff(&source, &target, None);
    let rebuilt = cdcsync::apply(&patch, &source).unwrap();
    assert_eq!(rebuilt, target);
}

#[test]
fn apply_rejects_version_mismatch() {
    let patch = vec![0xFFu8];
    assert_eq!(
        cdcsync::apply(&patch, b"source"),
        Err(DeltaError::VersionMismatch { got: 0xFF, want: 0 })
    );
}

#[test]
fn apply_rejects_empty_patch() {
    assert_eq!(cdcsync::apply(&[], b"source"), Err(DeltaError::Framing));
}

#[test]
fn apply_of_version_only_patch_is_empty() {
    let out = cdcsync::apply(&[0u8], b"any source at all").unwrap();
    assert_eq!(out.len(), 0);
}

#[test]
fn apply_rejects_unknown_tag() {
    let patch = vec![0u8, 2u8];
    assert_eq!(cdcsync::apply(&patch, b"source"), Err(DeltaError::Framing));
}

#[test]
fn apply_rejects_truncated_copy_record() {
    let mut patch = vec![0u8, 0u8];
    patch.extend_from_slice(&7u64.to_be_bytes());
    // the size field is missing
    assert_eq!(cdcsync::apply(&patch, b"source"), Err(DeltaError::Framing));
}

#[test]
fn apply_rejects_truncated_insert_payload() {
    let mut patch = vec![0u8, 1u8];
    patch.extend_from_slice(&100u64.to_be_bytes());
    patch.extend_from_slice(b"far too short");
    assert_eq!(cdcsync::apply(&patch, b"source"), Err(DeltaError::Framing));
}

#[test]
fn insert_ranges_match_insert_runs() {
    let source = lcg_bytes(71, 262_144);
    let mut target = source.clone();
    let replacement = lcg_bytes(72, 100);
    target[131_072..131_172].copy_from_slice(&replacement);

    let sig_bytes = cdcsync::signature(&target, None);
    let ops = cdcsync::pull_plan(&source, &sig_bytes).unwrap();
    let ranges = plan_insert_ranges(&ops);

    let inserts: Vec<_> = ops.iter().filter(|op| op.0 == Operation::Insert).collect();
    assert_eq!(ranges.len(), inserts.len());
    for (range, op) in ranges.iter().zip(inserts.iter()) {
        assert_eq!(range.0, op.1);
        assert_eq!(range.1, op.1 + op.2 - 1);
    }
}

#[test]
fn pull_equals_local_apply() {
    let source = lcg_bytes(81, 262_144);
    let mut target = source.clone();
    let replacement = lcg_bytes(82, 5_000);
    target[100_000..105_000].copy_from_slice(&replacement);
    target.extend_from_slice(&lcg_bytes(83, 10_000));

    let sig_bytes = cdcsync::signature(&target, None);
    let ops = cdcsync::pull_plan(&source, &sig_bytes).unwrap();
    let ranges = plan_insert_ranges(&ops);

    // stand in for the HTTP origin: serve each inclusive byte range of the
    // target, in request order
    let mut fetched: Vec<u8> = Vec::new();
    for (start, end) in ranges.iter() {
        fetched.extend_from_slice(&target[*start as usize..=*end as usize]);
    }

    let pulled = apply_with_inserts(&ops, &source, &fetched);
    let patch = cdcsync::diff(&source, &target, None);
    let local = cdcsync::apply(&patch, &source).unwrap();
    assert_eq!(pulled, local);
    assert_eq!(pulled, target);
}

#[test]
fn pull_plan_rejects_bad_signature() {
    assert_eq!(
        cdcsync::pull_plan(b"source", &[]),
        Err(DeltaError::Framing)
    );
    let mut sig = vec![9u8];
    sig.extend_from_slice(&[0u8; 20]);
    assert_eq!(
        cdcsync::pull_plan(b"source", &sig),
        Err(DeltaError::VersionMismatch { got: 9, want: 0 })
    );
}
