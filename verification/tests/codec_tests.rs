use smol_gather::SketchError;
use smol_gather::codec::load_sketch;
use smol_gather::codec::save_sketch;
use smol_gather::sketch::ScaledMinHash;

fn sketch_of(k: usize, max_hash: u64, hashes: &[u64]) -> ScaledMinHash {
    let mut s = ScaledMinHash::with_max_hash(k, max_hash);
    for h in hashes {
        s.add(*h);
    }
    s
}

#[test]
fn round_trip_without_metadata() {
    let s = sketch_of(21, 1000, &[5, 1, 900]);
    let bytes = save_sketch(&s);
    let t = load_sketch(&bytes).unwrap();
    assert_eq!(t.k, s.k);
    assert_eq!(t.max_hash, s.max_hash);
    assert_eq!(t.hashes, s.hashes);
    assert_eq!(t.name, None);
    assert_eq!(t.filename, None);
}

#[test]
fn round_trip_with_metadata() {
    let mut s = ScaledMinHash::new(
        31,
        2000,
        Some("sample one".to_string()),
        Some("data/sample.sig".to_string()),
    );
    s.add(42);
    s.add(7);
    let bytes = save_sketch(&s);
    let t = load_sketch(&bytes).unwrap();
    assert_eq!(t.k, 31);
    assert_eq!(t.max_hash, u64::MAX / 2000);
    assert_eq!(t.hashes, s.hashes);
    assert_eq!(t.name.as_deref(), Some("sample one"));
    assert_eq!(t.filename.as_deref(), Some("data/sample.sig"));
}

#[test]
fn round_trip_of_empty_sketch() {
    let s = sketch_of(4, 10, &[]);
    let bytes = save_sketch(&s);
    let t = load_sketch(&bytes).unwrap();
    assert_eq!(t.k, 4);
    assert_eq!(t.max_hash, 10);
    assert!(t.hashes.is_empty());
}

#[test]
fn load_rejects_truncated_records() {
    let s = sketch_of(21, 1000, &[5, 1, 900]);
    let mut bytes = save_sketch(&s);
    bytes.pop();
    assert_eq!(load_sketch(&bytes), Err(SketchError::Format));
    assert_eq!(load_sketch(&vec![1u8, 2, 3]), Err(SketchError::Format));
}

#[test]
fn load_rejects_trailing_bytes() {
    let s = sketch_of(21, 1000, &[5]);
    let mut bytes = save_sketch(&s);
    bytes.push(0);
    assert_eq!(load_sketch(&bytes), Err(SketchError::Format));
}

#[test]
fn load_rejects_hash_above_cutoff() {
    // a record whose hash word exceeds the recorded max_hash is malformed
    let s = sketch_of(4, 100, &[50]);
    let mut bytes = save_sketch(&s);
    // the hash's low byte sits right after the 24-byte header
    bytes[24] = 200;
    assert_eq!(load_sketch(&bytes), Err(SketchError::Format));
}

#[test]
fn load_rejects_duplicate_hashes() {
    let s = sketch_of(4, 100, &[50, 60]);
    let mut bytes = save_sketch(&s);
    // overwrite the second hash word with a copy of the first
    for i in 0..8 {
        bytes[32 + i] = bytes[24 + i];
    }
    assert_eq!(load_sketch(&bytes), Err(SketchError::Format));
}
