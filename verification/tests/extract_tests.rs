use smol_gather::Fraction;
use smol_gather::extract::build_sketch;
use smol_gather::extract::canonical_kmer;
use smol_gather::extract::reverse_complement;

#[test]
fn reverse_complement_of_palindrome() {
    assert_eq!(reverse_complement(&b"ACGT".to_vec()), b"ACGT".to_vec());
}

#[test]
fn reverse_complement_general() {
    assert_eq!(reverse_complement(&b"AACG".to_vec()), b"CGTT".to_vec());
    assert_eq!(reverse_complement(&b"GTAC".to_vec()), b"GTAC".to_vec());
}

#[test]
fn canonical_kmer_picks_smaller_strand() {
    // TACG's reverse complement CGTA is smaller
    assert_eq!(canonical_kmer(&b"TACG".to_vec()), b"CGTA".to_vec());
    // CGTA is already smaller than its reverse complement TACG
    assert_eq!(canonical_kmer(&b"CGTA".to_vec()), b"CGTA".to_vec());
    // a palindrome is its own canonical form
    assert_eq!(canonical_kmer(&b"ACGT".to_vec()), b"ACGT".to_vec());
}

#[test]
fn sketch_of_short_repeat_sequence() {
    // windows of ACGTACGT at k=4: ACGT, CGTA, GTAC, TACG, ACGT;
    // canonical forms: ACGT, CGTA, GTAC, CGTA, ACGT — three distinct k-mers
    let sk = build_sketch(&b"ACGTACGT".to_vec(), 4, 1, None, None);
    assert_eq!(sk.max_hash, u64::MAX);
    assert_eq!(sk.size(), 3);
}

#[test]
fn sketch_construction_is_deterministic() {
    let a = build_sketch(&b"ACGTACGT".to_vec(), 4, 1, None, None);
    let b = build_sketch(&b"ACGTACGT".to_vec(), 4, 1, None, None);
    assert_eq!(a.containment(&b).unwrap(), Fraction { numerator: 3, denominator: 3 });
}

#[test]
fn windows_with_ambiguous_bases_are_skipped() {
    // every window touching the N is dropped; only the two ACGT windows hash,
    // and they collapse into one canonical k-mer
    let sk = build_sketch(&b"ACGTNACGT".to_vec(), 4, 1, None, None);
    assert_eq!(sk.size(), 1);
}

#[test]
fn sequence_shorter_than_k_gives_empty_sketch() {
    let sk = build_sketch(&b"ACG".to_vec(), 4, 1, None, None);
    assert_eq!(sk.size(), 0);
}

#[test]
fn different_kmers_hash_apart() {
    // AAAA and CCCC are both their own canonical forms; a working hash
    // sends them to different sketch slots, so neither contains the other
    let a = build_sketch(&b"AAAA".to_vec(), 4, 1, None, None);
    let c = build_sketch(&b"CCCC".to_vec(), 4, 1, None, None);
    assert_eq!(a.size(), 1);
    assert_eq!(c.size(), 1);
    assert_eq!(a.containment(&c).unwrap(), Fraction { numerator: 0, denominator: 1 });
}

#[test]
fn scaled_one_equals_exact_containment() {
    // at scaled factor 1 nothing is filtered, so containment through the
    // scaled path is the exact k-mer-set containment
    let a = build_sketch(&b"ACGTACGTAA".to_vec(), 4, 1, None, None);
    let b = build_sketch(&b"ACGTACGT".to_vec(), 4, 1, None, None);
    let f = b.containment(&a).unwrap();
    // every canonical k-mer of the shorter read occurs in the longer one
    assert_eq!(f.numerator, f.denominator);
    assert!(f.denominator > 0);
}
