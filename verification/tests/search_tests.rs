use smol_gather::Fraction;
use smol_gather::search::SearchHit;
use smol_gather::search::SearchMatch;
use smol_gather::search::search;
use smol_gather::search::search_reference;
use smol_gather::search::select_sketch;
use smol_gather::sketch::ScaledMinHash;

fn sketch_of(k: usize, max_hash: u64, hashes: &[u64]) -> ScaledMinHash {
    let mut s = ScaledMinHash::with_max_hash(k, max_hash);
    for h in hashes {
        s.add(*h);
    }
    s
}

#[test]
fn search_reference_reports_fraction_of_query_explained() {
    let queries = vec![sketch_of(4, 100, &[2, 3, 4, 5]), sketch_of(4, 100, &[8, 9])];
    let reference = sketch_of(4, 100, &[1, 2, 3]);
    let threshold = Fraction { numerator: 2, denominator: 5 };
    let ms = search_reference(&queries, &reference, &threshold);
    // query 0: 2/4 > 2/5 is a hit; query 1: 0/2 is not
    assert_eq!(
        ms,
        vec![SearchMatch { query: 0, containment: Fraction { numerator: 2, denominator: 4 } }]
    );
}

#[test]
fn search_threshold_is_strict() {
    let queries = vec![sketch_of(4, 100, &[2, 3, 4, 5])];
    let reference = sketch_of(4, 100, &[2, 3]);
    let exactly_half = Fraction { numerator: 1, denominator: 2 };
    let ms = search_reference(&queries, &reference, &exactly_half);
    assert!(ms.is_empty());
}

#[test]
fn search_scans_references_in_order() {
    let queries = vec![sketch_of(4, 100, &[1, 2]), sketch_of(4, 100, &[2, 9])];
    let references = vec![
        sketch_of(4, 100, &[2]),
        sketch_of(4, 100, &[7]),
        sketch_of(4, 100, &[1, 2, 9]),
    ];
    let threshold = Fraction { numerator: 1, denominator: 4 };
    let hits = search(&queries, &references, &threshold);
    assert_eq!(
        hits,
        vec![
            SearchHit {
                query: 0,
                reference: 0,
                containment: Fraction { numerator: 1, denominator: 2 },
            },
            SearchHit {
                query: 1,
                reference: 0,
                containment: Fraction { numerator: 1, denominator: 2 },
            },
            SearchHit {
                query: 0,
                reference: 2,
                containment: Fraction { numerator: 2, denominator: 2 },
            },
            SearchHit {
                query: 1,
                reference: 2,
                containment: Fraction { numerator: 2, denominator: 2 },
            },
        ]
    );
}

#[test]
fn select_sketch_takes_first_matching_template() {
    let sketches = vec![
        sketch_of(21, 100, &[1]),
        sketch_of(31, 50, &[2]),
        sketch_of(31, 100, &[3]),
        sketch_of(31, 100, &[4]),
    ];
    assert_eq!(select_sketch(&sketches, 31, 100), Some(2));
    assert_eq!(select_sketch(&sketches, 21, 100), Some(0));
    assert_eq!(select_sketch(&sketches, 31, 999), None);
}
