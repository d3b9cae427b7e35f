//! Greedy gather decomposition: repeatedly find the reference that best
//! explains the shrinking residual query, record it, subtract it, and stop
//! when no reference clears the threshold.
//!
//! Selection compares `|residual ∩ reference| / |residual|` against the
//! running best and the threshold; a tie keeps the earlier reference, so the
//! output is reproducible for a fixed collection order.

use vstd::prelude::*;
use vstd::set_lib::lemma_len_subset;
use vstd::set_lib::lemma_set_subset_finite;

verus! {

use crate::Fraction;
use crate::frac_gt;
use crate::sketch::ScaledMinHash;
use crate::sketch::hash_sets_of;

/// `|a ∩ b|` over mathematical hash sets.
pub open spec fn inter_len(a: Set<u64>, b: Set<u64>) -> nat {
    a.intersect(b).len()
}

/// Containment of `q` in `r` strictly exceeds the threshold `tn/td`.
pub open spec fn beats_threshold(q: Set<u64>, r: Set<u64>, tn: int, td: int) -> bool {
    frac_gt(inter_len(q, r) as int, q.len() as int, tn, td)
}

/// `b` is the reference an exhaustive scan settles on: it clears the
/// threshold, no reference explains more of `q`, and every earlier reference
/// explains strictly less — the first best match wins ties.
pub open spec fn is_best(q: Set<u64>, refs: Seq<Set<u64>>, tn: int, td: int, b: int) -> bool {
    &&& 0 <= b < refs.len()
    &&& beats_threshold(q, refs[b], tn, td)
    &&& (forall|j: int| 0 <= j < refs.len() ==> inter_len(q, #[trigger] refs[j]) <= inter_len(
        q,
        refs[b],
    ))
    &&& (forall|j: int| 0 <= j < b ==> inter_len(q, #[trigger] refs[j]) < inter_len(q, refs[b]))
}

/// No reference clears the threshold against `q`.
pub open spec fn none_beats(q: Set<u64>, refs: Seq<Set<u64>>, tn: int, td: int) -> bool {
    forall|j: int| 0 <= j < refs.len() ==> !beats_threshold(q, #[trigger] refs[j], tn, td)
}

/// One accepted gather iteration against the residual `q`: the matched
/// reference is the scan's winner, and the two recorded fractions are the
/// winner's containment in the original query and in the current residual.
pub open spec fn match_step(
    orig: Set<u64>,
    q: Set<u64>,
    refs: Seq<Set<u64>>,
    tn: int,
    td: int,
    m: GatherMatch,
) -> bool {
    &&& is_best(q, refs, tn, td, m.reference as int)
    &&& m.containment.numerator == inter_len(refs[m.reference as int], orig)
    &&& m.containment.denominator == refs[m.reference as int].len()
    &&& m.f_match.numerator == inter_len(refs[m.reference as int], q)
    &&& m.f_match.denominator == refs[m.reference as int].len()
}

/// The match list `ms` is exactly what gather's loop produces when started on
/// residual `q`, ending with residual `qf`.
pub open spec fn gather_steps(
    orig: Set<u64>,
    q: Set<u64>,
    refs: Seq<Set<u64>>,
    tn: int,
    td: int,
    ms: Seq<GatherMatch>,
    qf: Set<u64>,
) -> bool
    decreases ms.len(),
{
    if ms.len() == 0 {
        qf == q
    } else {
        &&& match_step(orig, q, refs, tn, td, ms[0])
        &&& gather_steps(
            orig,
            q.difference(refs[ms[0].reference as int]),
            refs,
            tn,
            td,
            ms.drop_first(),
            qf,
        )
    }
}

/// The complete gather outcome: the steps run from the original query down to
/// a final residual that no reference explains beyond the threshold.
pub open spec fn gather_result(
    orig: Set<u64>,
    refs: Seq<Set<u64>>,
    tn: int,
    td: int,
    ms: Seq<GatherMatch>,
) -> bool {
    exists|qf: Set<u64>|
        #[trigger] gather_steps(orig, orig, refs, tn, td, ms, qf) && none_beats(qf, refs, tn, td)
}

/// One recorded gather match: the index of the accepted reference, its
/// containment in the untouched original query, and its containment in the
/// residual at the moment it was accepted.
#[derive(Clone, Copy, PartialEq, Eq, Structural, Debug)]
pub struct GatherMatch {
    pub reference: usize,
    pub containment: Fraction,
    pub f_match: Fraction,
}

/// Scan the collection for the reference with the highest containment of
/// `query` strictly above `threshold`; the first best reference wins ties.
pub fn find_best_contained(
    query: &ScaledMinHash,
    collection: &Vec<ScaledMinHash>,
    threshold: &Fraction,
) -> (r: Option<usize>)
    requires
        query.wf(),
        forall|i: int|
            0 <= i < collection@.len() ==> (#[trigger] collection@[i]).wf() && query.compatible(
                collection@[i],
            ),
    ensures
        match r {
            Option::Some(b) => is_best(
                query.hash_set(),
                hash_sets_of(collection@),
                threshold.numerator as int,
                threshold.denominator as int,
                b as int,
            ),
            Option::None => none_beats(
                query.hash_set(),
                hash_sets_of(collection@),
                threshold.numerator as int,
                threshold.denominator as int,
            ),
        },
{
    let ghost qs = query.hash_set();
    let ghost refs_v = hash_sets_of(collection@);
    let ghost tn = threshold.numerator as int;
    let ghost td = threshold.denominator as int;
    proof {
        query.lemma_card_is_set_len();
    }
    let mut best: Option<usize> = None;
    let mut best_num: usize = 0;
    let mut i: usize = 0;
    while i < collection.len()
        invariant
            i <= collection@.len(),
            query.wf(),
            forall|j: int|
                0 <= j < collection@.len() ==> (#[trigger] collection@[j]).wf()
                    && query.compatible(collection@[j]),
            refs_v == hash_sets_of(collection@),
            qs == query.hash_set(),
            qs.len() == query.card(),
            tn == threshold.numerator as int,
            td == threshold.denominator as int,
            match best {
                Option::Some(b) => {
                    &&& b < i
                    &&& beats_threshold(qs, refs_v[b as int], tn, td)
                    &&& best_num == inter_len(qs, refs_v[b as int])
                    &&& (forall|j: int|
                        0 <= j < i ==> inter_len(qs, #[trigger] refs_v[j]) <= inter_len(
                            qs,
                            refs_v[b as int],
                        ))
                    &&& (forall|j: int|
                        0 <= j < b ==> inter_len(qs, #[trigger] refs_v[j]) < inter_len(
                            qs,
                            refs_v[b as int],
                        ))
                },
                Option::None => forall|j: int|
                    0 <= j < i ==> !beats_threshold(qs, #[trigger] refs_v[j], tn, td),
            },
        decreases collection@.len() - i,
    {
        let f = query.containment_frac(&collection[i]);
        proof {
            assert(refs_v[i as int] == collection@[i as int].hash_set());
        }
        match best {
            None => {
                if f.gt(threshold) {
                    proof {
                        assert forall|j: int|
                            0 <= j < i + 1 implies inter_len(qs, #[trigger] refs_v[j]) <= inter_len(
                            qs,
                            refs_v[i as int],
                        ) by {
                            if j < i {
                                let nj = inter_len(qs, refs_v[j]) as int;
                                let ni = inter_len(qs, refs_v[i as int]) as int;
                                let d = qs.len() as int;
                                assert(nj * td <= tn * d);
                                assert(ni * td > tn * d);
                                assert(nj * td < ni * td && td >= 0 ==> nj <= ni)
                                    by (nonlinear_arith);
                            }
                        }
                        assert forall|j: int|
                            0 <= j < i implies inter_len(qs, #[trigger] refs_v[j]) < inter_len(
                            qs,
                            refs_v[i as int],
                        ) by {
                            let nj = inter_len(qs, refs_v[j]) as int;
                            let ni = inter_len(qs, refs_v[i as int]) as int;
                            let d = qs.len() as int;
                            assert(nj * td <= tn * d);
                            assert(ni * td > tn * d);
                            assert(nj * td < ni * td && td >= 0 ==> nj < ni) by (nonlinear_arith);
                        }
                    }
                    best = Some(i);
                    best_num = f.numerator;
                }
            },
            Some(b) => {
                if f.numerator > best_num {
                    proof {
                        let nb = inter_len(qs, refs_v[b as int]) as int;
                        let ni = inter_len(qs, refs_v[i as int]) as int;
                        let d = qs.len() as int;
                        assert(beats_threshold(qs, refs_v[b as int], tn, td));
                        assert(nb * td > tn * d);
                        assert(ni > nb && nb * td > tn * d && td >= 0 ==> ni * td > tn * d)
                            by (nonlinear_arith);
                    }
                    best = Some(i);
                    best_num = f.numerator;
                }
            },
        }
        i += 1;
    }
    best
}

/// The intersection of a finite set with anything is finite and no larger.
proof fn lemma_inter_finite(q: Set<u64>, r: Set<u64>)
    requires
        q.finite(),
    ensures
        q.intersect(r).finite(),
        q.intersect(r).len() <= q.len(),
{
    lemma_set_subset_finite(q, q.intersect(r));
    lemma_len_subset(q.intersect(r), q);
}

/// Removing a set that shares at least one element strictly shrinks a finite
/// set.
proof fn lemma_difference_shrinks(q: Set<u64>, r: Set<u64>)
    requires
        q.finite(),
        inter_len(q, r) >= 1,
    ensures
        q.difference(r).finite(),
        q.difference(r).len() < q.len(),
{
    lemma_inter_finite(q, r);
    assert(exists|h: u64| q.intersect(r).contains(h)) by {
        if !(exists|h: u64| q.intersect(r).contains(h)) {
            assert(q.intersect(r) =~= Set::<u64>::empty());
        }
    }
    let h = choose|h: u64| q.intersect(r).contains(h);
    lemma_set_subset_finite(q, q.difference(r));
    assert(q.difference(r).subset_of(q.remove(h)));
    lemma_set_subset_finite(q, q.remove(h));
    lemma_len_subset(q.difference(r), q.remove(h));
    assert(q.remove(h).len() == q.len() - 1);
}

/// A step's winner explains at least one residual hash: clearing the
/// threshold forces a non-empty intersection.
proof fn lemma_step_inter_nonempty(q: Set<u64>, r: Set<u64>, tn: int, td: int)
    requires
        beats_threshold(q, r, tn, td),
        tn >= 0,
        td >= 0,
    ensures
        inter_len(q, r) >= 1,
{
    let n = inter_len(q, r) as int;
    let d = q.len() as int;
    assert(n * td > tn * d);
    assert(tn >= 0 && d >= 0 ==> tn * d >= 0) by (nonlinear_arith);
    assert(n * td > 0);
    assert(n * td > 0 && td >= 0 ==> n >= 1) by (nonlinear_arith);
}

/// Appending one accepted step to a gather trace extends the trace.
proof fn lemma_gather_steps_push(
    orig: Set<u64>,
    q: Set<u64>,
    refs: Seq<Set<u64>>,
    tn: int,
    td: int,
    ms: Seq<GatherMatch>,
    qmid: Set<u64>,
    m: GatherMatch,
)
    requires
        gather_steps(orig, q, refs, tn, td, ms, qmid),
        match_step(orig, qmid, refs, tn, td, m),
    ensures
        gather_steps(
            orig,
            q,
            refs,
            tn,
            td,
            ms.push(m),
            qmid.difference(refs[m.reference as int]),
        ),
    decreases ms.len(),
{
    let pushed = ms.push(m);
    let target = qmid.difference(refs[m.reference as int]);
    if ms.len() == 0 {
        assert(qmid == q);
        assert(pushed[0] == m);
        assert(pushed.drop_first() =~= Seq::<GatherMatch>::empty());
        assert(gather_steps(
            orig,
            q.difference(refs[m.reference as int]),
            refs,
            tn,
            td,
            pushed.drop_first(),
            target,
        ));
        assert(gather_steps(orig, q, refs, tn, td, pushed, target));
    } else {
        assert(match_step(orig, q, refs, tn, td, ms[0]));
        lemma_gather_steps_push(
            orig,
            q.difference(refs[ms[0].reference as int]),
            refs,
            tn,
            td,
            ms.drop_first(),
            qmid,
            m,
        );
        assert(pushed.drop_first() =~= ms.drop_first().push(m));
        assert(pushed[0] == ms[0]);
        assert(gather_steps(
            orig,
            q.difference(refs[pushed[0].reference as int]),
            refs,
            tn,
            td,
            pushed.drop_first(),
            target,
        ));
        assert(gather_steps(orig, q, refs, tn, td, pushed, target));
    }
}

/// A gather trace accepts at most `|q|` steps: each one removes at least one
/// hash from the residual.
pub proof fn lemma_gather_steps_count(
    orig: Set<u64>,
    q: Set<u64>,
    refs: Seq<Set<u64>>,
    tn: int,
    td: int,
    ms: Seq<GatherMatch>,
    qf: Set<u64>,
)
    requires
        gather_steps(orig, q, refs, tn, td, ms, qf),
        q.finite(),
        tn >= 0,
        td >= 0,
    ensures
        ms.len() + qf.len() <= q.len(),
        qf.finite(),
    decreases ms.len(),
{
    if ms.len() > 0 {
        let r = refs[ms[0].reference as int];
        lemma_step_inter_nonempty(q, r, tn, td);
        lemma_difference_shrinks(q, r);
        lemma_gather_steps_count(orig, q.difference(r), refs, tn, td, ms.drop_first(), qf);
    }
}

/// The residual after the first `i` accepted steps of a gather outcome.
pub open spec fn residual_at(
    q: Set<u64>,
    refs: Seq<Set<u64>>,
    ms: Seq<GatherMatch>,
    i: nat,
) -> Set<u64>
    decreases i,
{
    if i == 0 {
        q
    } else {
        residual_at(q, refs, ms, (i - 1) as nat).difference(
            refs[ms[i - 1].reference as int],
        )
    }
}

/// The trace that remains after the first `i` steps starts at the `i`-th
/// residual.
proof fn lemma_gather_steps_suffix(
    orig: Set<u64>,
    q: Set<u64>,
    refs: Seq<Set<u64>>,
    tn: int,
    td: int,
    ms: Seq<GatherMatch>,
    qf: Set<u64>,
    i: nat,
)
    requires
        gather_steps(orig, q, refs, tn, td, ms, qf),
        i <= ms.len(),
    ensures
        gather_steps(orig, residual_at(q, refs, ms, i), refs, tn, td, ms.skip(i as int), qf),
    decreases i,
{
    if i == 0 {
        assert(ms.skip(0) =~= ms);
    } else {
        lemma_gather_steps_suffix(orig, q, refs, tn, td, ms, qf, (i - 1) as nat);
        let prev = residual_at(q, refs, ms, (i - 1) as nat);
        let rest = ms.skip(i - 1);
        assert(rest.len() > 0);
        assert(rest[0] == ms[i - 1]);
        assert(rest.drop_first() =~= ms.skip(i as int));
    }
}

/// Residuals of a finite query stay finite.
proof fn lemma_residual_at_finite(q: Set<u64>, refs: Seq<Set<u64>>, ms: Seq<GatherMatch>, i: nat)
    requires
        q.finite(),
    ensures
        residual_at(q, refs, ms, i).finite(),
    decreases i,
{
    if i > 0 {
        lemma_residual_at_finite(q, refs, ms, (i - 1) as nat);
        lemma_set_subset_finite(
            residual_at(q, refs, ms, (i - 1) as nat),
            residual_at(q, refs, ms, i),
        );
    }
}

/// Across a gather outcome the residual's cardinality strictly decreases at
/// every accepted step.
pub proof fn lemma_gather_residual_shrinks(
    orig: Set<u64>,
    refs: Seq<Set<u64>>,
    tn: int,
    td: int,
    ms: Seq<GatherMatch>,
    i: nat,
)
    requires
        gather_result(orig, refs, tn, td, ms),
        orig.finite(),
        tn >= 0,
        td >= 0,
        i < ms.len(),
    ensures
        residual_at(orig, refs, ms, i + 1).len() < residual_at(orig, refs, ms, i).len(),
{
    let qf = choose|qf: Set<u64>|
        gather_steps(orig, orig, refs, tn, td, ms, qf) && none_beats(qf, refs, tn, td);
    lemma_gather_steps_suffix(orig, orig, refs, tn, td, ms, qf, i);
    let qi = residual_at(orig, refs, ms, i);
    let rest = ms.skip(i as int);
    assert(rest.len() > 0);
    assert(rest[0] == ms[i as int]);
    assert(match_step(orig, qi, refs, tn, td, ms[i as int]));
    let r = refs[ms[i as int].reference as int];
    lemma_residual_at_finite(orig, refs, ms, i);
    lemma_step_inter_nonempty(qi, r, tn, td);
    lemma_difference_shrinks(qi, r);
}

/// Greedy decomposition of `original_query` against `collection`.
///
/// Each iteration scans the whole collection for the reference that best
/// explains the residual and strictly clears `threshold`; the winner is
/// recorded with its containment in the original query and in the residual,
/// the residual loses the winner's hashes, and the loop repeats. The match
/// list is returned in discovery order, and it can hold at most as many
/// entries as the original query has hashes.
pub fn gather(
    original_query: &ScaledMinHash,
    collection: &Vec<ScaledMinHash>,
    threshold: &Fraction,
) -> (matches: Vec<GatherMatch>)
    requires
        original_query.wf(),
        forall|i: int|
            0 <= i < collection@.len() ==> (#[trigger] collection@[i]).wf()
                && original_query.compatible(collection@[i]),
    ensures
        gather_result(
            original_query.hash_set(),
            hash_sets_of(collection@),
            threshold.numerator as int,
            threshold.denominator as int,
            matches@,
        ),
        matches@.len() <= original_query.card(),
        forall|i: int|
            0 <= i < matches@.len() ==> (#[trigger] matches@[i]).reference < collection@.len(),
{
    let ghost orig_set = original_query.hash_set();
    let ghost refs_v = hash_sets_of(collection@);
    let ghost tn = threshold.numerator as int;
    let ghost td = threshold.denominator as int;
    let mut residual = original_query.duplicate();
    let mut matches: Vec<GatherMatch> = Vec::new();
    let mut done = false;
    while !done
        invariant
            residual.wf(),
            residual.k == original_query.k,
            residual.max_hash == original_query.max_hash,
            original_query.wf(),
            forall|i: int|
                0 <= i < collection@.len() ==> (#[trigger] collection@[i]).wf()
                    && original_query.compatible(collection@[i]),
            orig_set == original_query.hash_set(),
            refs_v == hash_sets_of(collection@),
            tn == threshold.numerator as int,
            td == threshold.denominator as int,
            gather_steps(orig_set, orig_set, refs_v, tn, td, matches@, residual.hash_set()),
            done ==> none_beats(residual.hash_set(), refs_v, tn, td),
            forall|i: int|
                0 <= i < matches@.len() ==> (#[trigger] matches@[i]).reference
                    < collection@.len(),
        decreases residual.hashes@.len(), (if done { 0int } else { 1int }),
    {
        match find_best_contained(&residual, collection, threshold) {
            None => {
                done = true;
            },
            Some(b) => {
                let best_ref = &collection[b];
                proof {
                    assert(refs_v[b as int] == collection@[b as int].hash_set());
                    best_ref.lemma_card_is_set_len();
                }
                let containment = best_ref.containment_frac(original_query);
                let f_match = best_ref.containment_frac(&residual);
                let m = GatherMatch { reference: b, containment, f_match };
                let ghost q_before = residual.hash_set();
                proof {
                    assert(match_step(orig_set, q_before, refs_v, tn, td, m));
                    lemma_gather_steps_push(
                        orig_set,
                        orig_set,
                        refs_v,
                        tn,
                        td,
                        matches@,
                        q_before,
                        m,
                    );
                    residual.lemma_card_is_set_len();
                    lemma_step_inter_nonempty(q_before, refs_v[b as int], tn, td);
                    lemma_difference_shrinks(q_before, refs_v[b as int]);
                }
                let _ = residual.subtract(best_ref);
                proof {
                    residual.lemma_card_is_set_len();
                }
                matches.push(m);
            },
        }
    }
    proof {
        lemma_gather_steps_count(
            orig_set,
            orig_set,
            refs_v,
            tn,
            td,
            matches@,
            residual.hash_set(),
        );
        original_query.lemma_card_is_set_len();
    }
    matches
}

} // verus!
