use smol_gather::Fraction;
use smol_gather::gather::find_best_contained;
use smol_gather::gather::gather;
use smol_gather::sketch::ScaledMinHash;

fn sketch_of(k: usize, max_hash: u64, hashes: &[u64]) -> ScaledMinHash {
    let mut s = ScaledMinHash::with_max_hash(k, max_hash);
    for h in hashes {
        s.add(*h);
    }
    s
}

#[test]
fn gather_two_references_scenario() {
    // original query {2,3,4,5}; references [R1={2,3}, R2={4,5,9}]; threshold 0.1
    let orig = sketch_of(4, 100, &[2, 3, 4, 5]);
    let collection = vec![sketch_of(4, 100, &[2, 3]), sketch_of(4, 100, &[4, 5, 9])];
    let threshold = Fraction { numerator: 1, denominator: 10 };
    let matches = gather(&orig, &collection, &threshold);
    assert_eq!(matches.len(), 2);
    // iteration 1: tie at 2/4 between R1 and R2 — the first reference wins
    assert_eq!(matches[0].reference, 0);
    assert_eq!(matches[0].containment, Fraction { numerator: 2, denominator: 2 });
    assert_eq!(matches[0].f_match, Fraction { numerator: 2, denominator: 2 });
    // iteration 2: residual {4,5}; R2 explains all of it
    assert_eq!(matches[1].reference, 1);
    assert_eq!(matches[1].containment, Fraction { numerator: 2, denominator: 3 });
    assert_eq!(matches[1].f_match, Fraction { numerator: 2, denominator: 3 });
}

#[test]
fn gather_match_count_is_bounded_by_query_size() {
    let orig = sketch_of(4, 1000, &[1, 2, 3]);
    let collection = vec![
        sketch_of(4, 1000, &[1]),
        sketch_of(4, 1000, &[2]),
        sketch_of(4, 1000, &[3]),
        sketch_of(4, 1000, &[1, 2, 3]),
    ];
    let threshold = Fraction { numerator: 0, denominator: 1 };
    let matches = gather(&orig, &collection, &threshold);
    assert!(matches.len() <= 3);
    // the full-cover reference wins the first scan outright and empties the residual
    assert_eq!(matches.len(), 1);
    assert_eq!(matches[0].reference, 3);
}

#[test]
fn gather_of_empty_query_matches_nothing() {
    let orig = sketch_of(4, 100, &[]);
    let collection = vec![sketch_of(4, 100, &[1, 2])];
    let threshold = Fraction { numerator: 1, denominator: 10 };
    let matches = gather(&orig, &collection, &threshold);
    assert!(matches.is_empty());
}

#[test]
fn gather_stops_below_threshold() {
    let orig = sketch_of(4, 100, &[1, 2, 3, 4, 5, 6, 7, 8, 9, 10]);
    // explains only 1/10 of the query: not strictly above 0.1
    let collection = vec![sketch_of(4, 100, &[1])];
    let threshold = Fraction { numerator: 1, denominator: 10 };
    let matches = gather(&orig, &collection, &threshold);
    assert!(matches.is_empty());
}

#[test]
fn find_best_prefers_first_on_ties() {
    let query = sketch_of(4, 100, &[2, 3, 4, 5]);
    let collection = vec![sketch_of(4, 100, &[4, 5, 9]), sketch_of(4, 100, &[2, 3])];
    let threshold = Fraction { numerator: 1, denominator: 10 };
    assert_eq!(find_best_contained(&query, &collection, &threshold), Some(0));
}

#[test]
fn find_best_picks_strictly_better_later_reference() {
    let query = sketch_of(4, 100, &[2, 3, 4, 5]);
    let collection = vec![sketch_of(4, 100, &[2]), sketch_of(4, 100, &[3, 4, 5])];
    let threshold = Fraction { numerator: 1, denominator: 10 };
    assert_eq!(find_best_contained(&query, &collection, &threshold), Some(1));
}

#[test]
fn find_best_returns_none_when_nothing_clears_threshold() {
    let query = sketch_of(4, 100, &[2, 3, 4, 5]);
    let collection = vec![sketch_of(4, 100, &[9, 10])];
    let threshold = Fraction { numerator: 1, denominator: 10 };
    assert_eq!(find_best_contained(&query, &collection, &threshold), None);
}
