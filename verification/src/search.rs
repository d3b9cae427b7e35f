//! Containment search of a reference collection against a batch of loaded
//! queries.
//!
//! For each reference, the containment of every query in that reference —
//! `|query ∩ reference| / |query|` — is compared against a threshold, and
//! each clearing pair becomes one reported hit. The per-reference step
//! [`search_reference`] is the unit of work a data-parallel scan hands to one
//! worker; [`search`] is the sequential scan over a whole collection, whose
//! hit list is the concatenation of the per-reference hit lists in
//! collection order.

use vstd::prelude::*;

verus! {

use crate::Fraction;
use crate::gather::beats_threshold;
use crate::gather::inter_len;
use crate::sketch::ScaledMinHash;
use crate::sketch::hash_sets_of;

/// One query that a single reference explains beyond the threshold.
#[derive(Clone, Copy, PartialEq, Eq, Structural, Debug)]
pub struct SearchMatch {
    pub query: usize,
    pub containment: Fraction,
}

/// One reported hit of the full scan: which query, which reference, and the
/// exact containment fraction.
#[derive(Clone, Copy, PartialEq, Eq, Structural, Debug)]
pub struct SearchHit {
    pub query: usize,
    pub reference: usize,
    pub containment: Fraction,
}

/// The mathematical content of a per-reference match: query index,
/// intersection size, query size.
pub open spec fn match_view(m: SearchMatch) -> (int, int, int) {
    (m.query as int, m.containment.numerator as int, m.containment.denominator as int)
}

/// The mathematical content of a scan hit: query index, reference index,
/// intersection size, query size.
pub open spec fn hit_view(m: SearchHit) -> (int, int, int, int) {
    (
        m.query as int,
        m.reference as int,
        m.containment.numerator as int,
        m.containment.denominator as int,
    )
}

/// The matches one reference produces against the query batch `qs`, in query
/// order: exactly the queries whose containment in `r` clears `tn/td`.
pub open spec fn query_hits(qs: Seq<Set<u64>>, r: Set<u64>, tn: int, td: int) -> Seq<
    (int, int, int),
>
    decreases qs.len(),
{
    if qs.len() == 0 {
        Seq::empty()
    } else {
        let prefix = query_hits(qs.drop_last(), r, tn, td);
        if beats_threshold(qs.last(), r, tn, td) {
            prefix.push(
                (
                    qs.len() - 1,
                    inter_len(qs.last(), r) as int,
                    qs.last().len() as int,
                ),
            )
        } else {
            prefix
        }
    }
}

/// Per-reference matches tagged with the reference's index.
pub open spec fn with_reference(hits: Seq<(int, int, int)>, r: int) -> Seq<(int, int, int, int)> {
    hits.map_values(|t: (int, int, int)| (t.0, r, t.1, t.2))
}

/// The hits of a whole scan: the concatenation, in collection order, of each
/// reference's tagged matches.
pub open spec fn scan_hits(qs: Seq<Set<u64>>, refs: Seq<Set<u64>>, tn: int, td: int) -> Seq<
    (int, int, int, int),
>
    decreases refs.len(),
{
    if refs.len() == 0 {
        Seq::empty()
    } else {
        scan_hits(qs, refs.drop_last(), tn, td) + with_reference(
            query_hits(qs, refs.last(), tn, td),
            refs.len() - 1,
        )
    }
}

/// One worker's unit of the parallel scan: compare every loaded query
/// against a single reference and keep the queries whose containment in it
/// strictly clears the threshold, in query order.
pub fn search_reference(
    queries: &Vec<ScaledMinHash>,
    reference: &ScaledMinHash,
    threshold: &Fraction,
) -> (ms: Vec<SearchMatch>)
    requires
        reference.wf(),
        forall|i: int|
            0 <= i < queries@.len() ==> (#[trigger] queries@[i]).wf() && queries@[i].compatible(
                *reference,
            ),
    ensures
        ms@.map_values(|m: SearchMatch| match_view(m)) == query_hits(
            hash_sets_of(queries@),
            reference.hash_set(),
            threshold.numerator as int,
            threshold.denominator as int,
        ),
        forall|t: int| 0 <= t < ms@.len() ==> (#[trigger] ms@[t]).query < queries@.len(),
{
    let ghost qv = hash_sets_of(queries@);
    let ghost rs = reference.hash_set();
    let ghost tn = threshold.numerator as int;
    let ghost td = threshold.denominator as int;
    let mut ms: Vec<SearchMatch> = Vec::new();
    let mut i: usize = 0;
    proof {
        assert(qv.take(0) =~= Seq::<Set<u64>>::empty());
        assert(ms@.map_values(|m: SearchMatch| match_view(m)) =~= query_hits(qv.take(0), rs, tn, td));
    }
    while i < queries.len()
        invariant
            i <= queries@.len(),
            reference.wf(),
            forall|j: int|
                0 <= j < queries@.len() ==> (#[trigger] queries@[j]).wf()
                    && queries@[j].compatible(*reference),
            qv == hash_sets_of(queries@),
            rs == reference.hash_set(),
            tn == threshold.numerator as int,
            td == threshold.denominator as int,
            ms@.map_values(|m: SearchMatch| match_view(m)) == query_hits(qv.take(i as int), rs, tn, td),
            forall|t: int| 0 <= t < ms@.len() ==> (#[trigger] ms@[t]).query < queries@.len(),
        decreases queries@.len() - i,
    {
        let f = queries[i].containment_frac(reference);
        proof {
            queries[i as int].lemma_card_is_set_len();
            assert(qv[i as int] == queries@[i as int].hash_set());
            assert(qv.take(i + 1).drop_last() =~= qv.take(i as int));
            assert(qv.take(i + 1).last() == qv[i as int]);
        }
        if f.gt(threshold) {
            let m = SearchMatch { query: i, containment: f };
            proof {
                assert(beats_threshold(qv[i as int], rs, tn, td));
                assert(ms@.push(m).map_values(|m: SearchMatch| match_view(m)) =~= query_hits(
                    qv.take(i + 1),
                    rs,
                    tn,
                    td,
                ));
            }
            ms.push(m);
        } else {
            proof {
                assert(!beats_threshold(qv[i as int], rs, tn, td));
                assert(query_hits(qv.take(i + 1), rs, tn, td) == query_hits(
                    qv.take(i as int),
                    rs,
                    tn,
                    td,
                ));
            }
        }
        i += 1;
    }
    proof {
        assert(qv.take(queries@.len() as int) =~= qv);
    }
    ms
}

/// Exhaustive sequential scan: every reference in collection order, every
/// query against it; the returned hits are exactly the pairs whose
/// containment strictly clears the threshold, reference-major, query-minor.
pub fn search(
    queries: &Vec<ScaledMinHash>,
    references: &Vec<ScaledMinHash>,
    threshold: &Fraction,
) -> (hits: Vec<SearchHit>)
    requires
        forall|i: int| 0 <= i < queries@.len() ==> (#[trigger] queries@[i]).wf(),
        forall|j: int| 0 <= j < references@.len() ==> (#[trigger] references@[j]).wf(),
        forall|i: int, j: int|
            #![trigger queries@[i].compatible(references@[j])]
            0 <= i < queries@.len() && 0 <= j < references@.len() ==> queries@[i].compatible(
                references@[j],
            ),
    ensures
        hits@.map_values(|m: SearchHit| hit_view(m)) == scan_hits(
            hash_sets_of(queries@),
            hash_sets_of(references@),
            threshold.numerator as int,
            threshold.denominator as int,
        ),
        forall|t: int|
            0 <= t < hits@.len() ==> (#[trigger] hits@[t]).query < queries@.len()
                && hits@[t].reference < references@.len(),
{
    let ghost qv = hash_sets_of(queries@);
    let ghost rv = hash_sets_of(references@);
    let ghost tn = threshold.numerator as int;
    let ghost td = threshold.denominator as int;
    let mut hits: Vec<SearchHit> = Vec::new();
    let mut j: usize = 0;
    proof {
        assert(rv.take(0) =~= Seq::<Set<u64>>::empty());
        assert(hits@.map_values(|m: SearchHit| hit_view(m)) =~= scan_hits(qv, rv.take(0), tn, td));
    }
    while j < references.len()
        invariant
            j <= references@.len(),
            forall|i: int| 0 <= i < queries@.len() ==> (#[trigger] queries@[i]).wf(),
            forall|jj: int| 0 <= jj < references@.len() ==> (#[trigger] references@[jj]).wf(),
            forall|i: int, jj: int|
                #![trigger queries@[i].compatible(references@[jj])]
                0 <= i < queries@.len() && 0 <= jj < references@.len() ==> queries@[i].compatible(
                    references@[jj],
                ),
            qv == hash_sets_of(queries@),
            rv == hash_sets_of(references@),
            tn == threshold.numerator as int,
            td == threshold.denominator as int,
            hits@.map_values(|m: SearchHit| hit_view(m)) == scan_hits(qv, rv.take(j as int), tn, td),
            forall|t: int|
                0 <= t < hits@.len() ==> (#[trigger] hits@[t]).query < queries@.len()
                    && hits@[t].reference < references@.len(),
        decreases references@.len() - j,
    {
        let reference = &references[j];
        proof {
            assert(rv[j as int] == references@[j as int].hash_set());
            assert(forall|i: int|
                0 <= i < queries@.len() ==> (#[trigger] queries@[i]).compatible(
                    references@[j as int],
                ));
        }
        let ms = search_reference(queries, reference, threshold);
        let ghost qh = query_hits(qv, rv[j as int], tn, td);
        let mut t: usize = 0;
        proof {
            assert(with_reference(qh, j as int).take(0) =~= Seq::<(int, int, int, int)>::empty());
            assert(hits@.map_values(|m: SearchHit| hit_view(m)) =~= scan_hits(qv, rv.take(j as int), tn, td)
                + with_reference(qh, j as int).take(0));
        }
        while t < ms.len()
            invariant
                t <= ms@.len(),
                j < references@.len(),
                ms@.map_values(|m: SearchMatch| match_view(m)) == qh,
                forall|u: int| 0 <= u < ms@.len() ==> (#[trigger] ms@[u]).query < queries@.len(),
                hits@.map_values(|m: SearchHit| hit_view(m)) == scan_hits(qv, rv.take(j as int), tn, td)
                    + with_reference(qh, j as int).take(t as int),
                forall|u: int|
                    0 <= u < hits@.len() ==> (#[trigger] hits@[u]).query < queries@.len()
                        && hits@[u].reference < references@.len(),
            decreases ms@.len() - t,
        {
            let m = ms[t];
            let h = SearchHit { query: m.query, reference: j, containment: m.containment };
            proof {
                assert(qh[t as int] == match_view(ms@[t as int]));
                assert(with_reference(qh, j as int)[t as int] == hit_view(h));
                assert(with_reference(qh, j as int).take(t + 1) =~= with_reference(
                    qh,
                    j as int,
                ).take(t as int).push(hit_view(h)));
                assert(hits@.push(h).map_values(|m: SearchHit| hit_view(m)) =~= hits@.map_values(
                    |m: SearchHit| hit_view(m),
                ).push(hit_view(h)));
                assert((scan_hits(qv, rv.take(j as int), tn, td) + with_reference(qh, j as int).take(
                    t as int,
                )).push(hit_view(h)) =~= scan_hits(qv, rv.take(j as int), tn, td) + with_reference(
                    qh,
                    j as int,
                ).take(t + 1));
            }
            hits.push(h);
            t += 1;
        }
        proof {
            assert(with_reference(qh, j as int).take(ms@.len() as int) =~= with_reference(
                qh,
                j as int,
            ));
            assert(rv.take(j + 1).drop_last() =~= rv.take(j as int));
            assert(rv.take(j + 1).last() == rv[j as int]);
            assert(scan_hits(qv, rv.take(j + 1), tn, td) == scan_hits(qv, rv.take(j as int), tn, td)
                + with_reference(query_hits(qv, rv[j as int], tn, td), j as int));
        }
        j += 1;
    }
    proof {
        assert(rv.take(references@.len() as int) =~= rv);
    }
    hits
}

/// Pick the first sketch of a loaded signature that matches the requested
/// template parameters; sketches at other parameters are skipped.
pub fn select_sketch(sketches: &Vec<ScaledMinHash>, k: usize, max_hash: u64) -> (r: Option<usize>)
    ensures
        match r {
            Option::Some(i) => {
                &&& i < sketches@.len()
                &&& sketches@[i as int].k == k
                &&& sketches@[i as int].max_hash == max_hash
                &&& forall|j: int|
                    0 <= j < i ==> !((#[trigger] sketches@[j]).k == k && sketches@[j].max_hash
                        == max_hash)
            },
            Option::None => forall|j: int|
                0 <= j < sketches@.len() ==> !((#[trigger] sketches@[j]).k == k
                    && sketches@[j].max_hash == max_hash),
        },
{
    let mut i: usize = 0;
    while i < sketches.len()
        invariant
            i <= sketches@.len(),
            forall|j: int|
                0 <= j < i ==> !((#[trigger] sketches@[j]).k == k && sketches@[j].max_hash
                    == max_hash),
        decreases sketches@.len() - i,
    {
        if sketches[i].k == k && sketches[i].max_hash == max_hash {
            return Some(i);
        }
        i += 1;
    }
    None
}

} // verus!
