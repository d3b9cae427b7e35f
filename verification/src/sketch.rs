//! The FracMinHash sketch and its containment algebra.
//!
//! A sketch holds the canonical k-mer hashes of a sequence collection that
//! fall at or below a hash-domain cutoff `max_hash`. Two sketches may be
//! compared only when both `k` and `max_hash` agree; the comparison is the
//! asymmetric containment `|a ∩ b| / |a|`, returned as exact integer counts.

use vstd::prelude::*;
use vstd::set_lib::lemma_len_subset;

verus! {

use crate::Fraction;
use crate::SketchError;

/// The view of optional metadata: the character sequence, if any.
pub open spec fn opt_view(o: Option<String>) -> Option<Seq<char>> {
    match o {
        Option::None => Option::<Seq<char>>::None,
        Option::Some(s) => Option::Some(s@),
    }
}

/// True when `x` occurs in `v`.
pub(crate) fn vec_contains(v: &Vec<u64>, x: u64) -> (b: bool)
    ensures
        b == v@.contains(x),
{
    let mut i: usize = 0;
    let mut found = false;
    while i < v.len()
        invariant
            i <= v@.len(),
            found == (exists|j: int| 0 <= j < i && v@[j] == x),
        decreases v@.len() - i,
    {
        if v[i] == x {
            found = true;
        }
        i += 1;
    }
    found
}

/// A sub-sampled set of canonical k-mer hashes.
///
/// `hashes` carries each admitted hash exactly once, in no particular order;
/// every element is at most `max_hash`. A `max_hash` of `u64::MAX` (scaled
/// factor 1) admits every hash, which makes the sketch the exact canonical
/// k-mer hash set of its source.
#[derive(Debug, PartialEq, Eq)]
pub struct ScaledMinHash {
    pub hashes: Vec<u64>,
    pub max_hash: u64,
    pub k: usize,
    pub name: Option<String>,
    pub filename: Option<String>,
}

impl ScaledMinHash {
    /// The hash set is stored without duplicates, and the cutoff holds.
    pub open spec fn wf(self) -> bool {
        &&& self.hashes@.no_duplicates()
        &&& forall|i: int| 0 <= i < self.hashes@.len() ==> self.hashes@[i] <= self.max_hash
    }

    /// The mathematical set of admitted hashes.
    pub open spec fn hash_set(self) -> Set<u64> {
        self.hashes@.to_set()
    }

    /// The number of admitted hashes.
    pub open spec fn card(self) -> nat {
        self.hashes@.len()
    }

    /// Sketches are comparable exactly when `k` and `max_hash` agree.
    pub open spec fn compatible(self, other: Self) -> bool {
        self.k == other.k && self.max_hash == other.max_hash
    }

    /// In a well-formed sketch the stored count is the set's cardinality.
    pub proof fn lemma_card_is_set_len(self)
        requires
            self.wf(),
        ensures
            self.hash_set().len() == self.card(),
    {
        self.hashes@.unique_seq_to_set();
    }

    /// An empty sketch with `max_hash` derived from the scaled factor:
    /// `floor(u64::MAX / scaled)`. A scaled factor of 1 yields the exact
    /// variant, whose cutoff admits the whole hash space.
    pub fn new(k: usize, scaled: usize, name: Option<String>, filename: Option<String>) -> (s:
        Self)
        requires
            1 <= scaled,
        ensures
            s.wf(),
            s.k == k,
            s.max_hash == u64::MAX as int / scaled as int,
            s.card() == 0,
            s.hash_set() == Set::<u64>::empty(),
            s.name == name,
            s.filename == filename,
    {
        let max_hash = u64::MAX / (scaled as u64);
        let s = ScaledMinHash { hashes: Vec::new(), max_hash, k, name, filename };
        proof {
            assert(s.hash_set() =~= Set::<u64>::empty());
        }
        s
    }

    /// An empty sketch with an explicit hash-domain cutoff.
    pub fn with_max_hash(k: usize, max_hash: u64) -> (s: Self)
        ensures
            s.wf(),
            s.k == k,
            s.max_hash == max_hash,
            s.card() == 0,
            s.hash_set() == Set::<u64>::empty(),
            s.name is None,
            s.filename is None,
    {
        let s = ScaledMinHash { hashes: Vec::new(), max_hash, k, name: None, filename: None };
        proof {
            assert(s.hash_set() =~= Set::<u64>::empty());
        }
        s
    }

    /// Admit one hash: inserted iff it does not exceed the cutoff; hashes
    /// already present are kept once.
    pub fn add(&mut self, hash: u64)
        requires
            old(self).wf(),
        ensures
            final(self).wf(),
            final(self).k == old(self).k,
            final(self).max_hash == old(self).max_hash,
            final(self).name == old(self).name,
            final(self).filename == old(self).filename,
            hash <= old(self).max_hash ==> final(self).hash_set() == old(self).hash_set().insert(
                hash,
            ),
            hash > old(self).max_hash ==> final(self).hash_set() == old(self).hash_set(),
    {
        if hash <= self.max_hash {
            if !vec_contains(&self.hashes, hash) {
                self.hashes.push(hash);
                proof {
                    old(self).hashes@.lemma_push_to_set_commute(hash);
                }
            } else {
                proof {
                    assert(old(self).hash_set().contains(hash));
                    assert(self.hash_set() =~= old(self).hash_set().insert(hash));
                }
            }
        }
    }

    /// Cardinality of the sketch's hash set.
    pub fn size(&self) -> (n: usize)
        ensures
            n == self.card(),
    {
        self.hashes.len()
    }

    /// Whether `other` can be compared with or subtracted from `self`.
    pub fn is_compatible(&self, other: &Self) -> (b: bool)
        ensures
            b == self.compatible(*other),
    {
        self.k == other.k && self.max_hash == other.max_hash
    }

    /// `|self ∩ other|`, the number of shared hashes.
    pub fn intersection_size(&self, other: &Self) -> (n: usize)
        requires
            self.wf(),
            other.wf(),
        ensures
            n == self.hash_set().intersect(other.hash_set()).len(),
            n <= self.card(),
    {
        let mut n: usize = 0;
        let mut i: usize = 0;
        proof {
            assert(self.hashes@.take(0).to_set().intersect(other.hash_set())
                =~= Set::<u64>::empty());
        }
        while i < self.hashes.len()
            invariant
                i <= self.hashes@.len(),
                n <= i,
                self.wf(),
                other.wf(),
                n == self.hashes@.take(i as int).to_set().intersect(other.hash_set()).len(),
            decreases self.hashes@.len() - i,
        {
            let h = self.hashes[i];
            let ghost prefix = self.hashes@.take(i as int);
            proof {
                assert(self.hashes@.take(i + 1) =~= prefix.push(h));
                prefix.lemma_push_to_set_commute(h);
                assert(!prefix.to_set().contains(h)) by {
                    if prefix.to_set().contains(h) {
                        let j = choose|j: int| 0 <= j < prefix.len() && prefix[j] == h;
                        assert(self.hashes@[j] == self.hashes@[i as int]);
                    }
                }
            }
            if vec_contains(&other.hashes, h) {
                proof {
                    assert(other.hash_set().contains(h));
                    assert(prefix.push(h).to_set().intersect(other.hash_set()) =~= prefix.to_set()
                        .intersect(other.hash_set()).insert(h));
                    assert(!prefix.to_set().intersect(other.hash_set()).contains(h));
                }
                n = n + 1;
            } else {
                proof {
                    assert(!other.hash_set().contains(h));
                    assert(prefix.push(h).to_set().intersect(other.hash_set()) =~= prefix.to_set()
                        .intersect(other.hash_set()));
                }
            }
            i += 1;
        }
        proof {
            assert(self.hashes@.take(self.hashes@.len() as int) =~= self.hashes@);
            self.lemma_card_is_set_len();
            lemma_len_subset(
                self.hash_set().intersect(other.hash_set()),
                self.hash_set(),
            );
        }
        n
    }

    /// Containment of `self` in `other`: the exact fraction
    /// `|self ∩ other| / |self|`, defined only between compatible sketches.
    /// An empty sketch yields the fraction `0/0`, which compares below every
    /// threshold: containment against an empty sketch counts as zero.
    pub fn containment_frac(&self, other: &Self) -> (f: Fraction)
        requires
            self.wf(),
            other.wf(),
            self.compatible(*other),
        ensures
            f.numerator == self.hash_set().intersect(other.hash_set()).len(),
            f.denominator == self.card(),
            f.numerator <= f.denominator,
    {
        let n = self.intersection_size(other);
        Fraction { numerator: n, denominator: self.hashes.len() }
    }

    /// Containment of `self` in `other`, rejecting incompatible sketches.
    pub fn containment(&self, other: &Self) -> (r: Result<Fraction, SketchError>)
        requires
            self.wf(),
            other.wf(),
        ensures
            self.compatible(*other) ==> (r matches Ok(f) && f.numerator == self.hash_set()
                .intersect(other.hash_set()).len() && f.denominator == self.card()
                && f.numerator <= f.denominator),
            !self.compatible(*other) ==> r == Result::<Fraction, SketchError>::Err(
                SketchError::IncompatibleSketch,
            ),
    {
        if self.is_compatible(other) {
            Ok(self.containment_frac(other))
        } else {
            Err(SketchError::IncompatibleSketch)
        }
    }

    /// Remove every hash of `other` from `self`; metadata and parameters are
    /// untouched. Incompatible sketches are rejected and `self` is left as it
    /// was.
    pub fn subtract(&mut self, other: &Self) -> (r: Result<(), SketchError>)
        requires
            old(self).wf(),
            other.wf(),
        ensures
            final(self).wf(),
            final(self).k == old(self).k,
            final(self).max_hash == old(self).max_hash,
            final(self).name == old(self).name,
            final(self).filename == old(self).filename,
            old(self).compatible(*other) ==> (r is Ok && final(self).hash_set() == old(
                self,
            ).hash_set().difference(other.hash_set())),
            !old(self).compatible(*other) ==> (r == Result::<(), SketchError>::Err(
                SketchError::IncompatibleSketch,
            ) && *final(self) == *old(self)),
    {
        if !self.is_compatible(other) {
            return Err(SketchError::IncompatibleSketch);
        }
        let mut kept: Vec<u64> = Vec::new();
        let mut i: usize = 0;
        proof {
            assert(kept@.to_set() =~= self.hashes@.take(0).to_set().difference(other.hash_set()));
        }
        while i < self.hashes.len()
            invariant
                i <= self.hashes@.len(),
                self == old(self),
                self.wf(),
                other.wf(),
                kept@.no_duplicates(),
                forall|j: int| 0 <= j < kept@.len() ==> kept@[j] <= self.max_hash,
                kept@.to_set() == self.hashes@.take(i as int).to_set().difference(
                    other.hash_set(),
                ),
            decreases self.hashes@.len() - i,
        {
            let h = self.hashes[i];
            let ghost prefix = self.hashes@.take(i as int);
            proof {
                assert(self.hashes@.take(i + 1) =~= prefix.push(h));
                prefix.lemma_push_to_set_commute(h);
                assert(!prefix.to_set().contains(h)) by {
                    if prefix.to_set().contains(h) {
                        let j = choose|j: int| 0 <= j < prefix.len() && prefix[j] == h;
                        assert(self.hashes@[j] == self.hashes@[i as int]);
                    }
                }
            }
            if !vec_contains(&other.hashes, h) {
                proof {
                    assert(!kept@.to_set().contains(h));
                    assert(kept@.contains(h) ==> kept@.to_set().contains(h));
                    kept@.lemma_push_to_set_commute(h);
                    assert(prefix.push(h).to_set().difference(other.hash_set()) =~= prefix.to_set()
                        .difference(other.hash_set()).insert(h));
                }
                kept.push(h);
            } else {
                proof {
                    assert(other.hash_set().contains(h));
                    assert(prefix.push(h).to_set().difference(other.hash_set()) =~= prefix.to_set()
                        .difference(other.hash_set()));
                }
            }
            i += 1;
        }
        proof {
            assert(self.hashes@.take(self.hashes@.len() as int) =~= self.hashes@);
        }
        self.hashes = kept;
        Ok(())
    }

    /// An independent copy: same parameters, same hash set, same metadata
    /// (up to the view of the strings).
    pub fn duplicate(&self) -> (r: Self)
        ensures
            r.k == self.k,
            r.max_hash == self.max_hash,
            r.hashes@ == self.hashes@,
            r.hash_set() == self.hash_set(),
            r.card() == self.card(),
            opt_view(r.name) == opt_view(self.name),
            opt_view(r.filename) == opt_view(self.filename),
            self.wf() ==> r.wf(),
    {
        let mut hs: Vec<u64> = Vec::new();
        let mut i: usize = 0;
        while i < self.hashes.len()
            invariant
                i <= self.hashes@.len(),
                hs@ == self.hashes@.take(i as int),
            decreases self.hashes@.len() - i,
        {
            hs.push(self.hashes[i]);
            proof {
                assert(self.hashes@.take(i + 1) =~= self.hashes@.take(i as int).push(
                    self.hashes@[i as int],
                ));
            }
            i += 1;
        }
        proof {
            assert(self.hashes@.take(self.hashes@.len() as int) =~= self.hashes@);
        }
        let name = match &self.name {
            None => None,
            Some(s) => Some(s.clone()),
        };
        let filename = match &self.filename {
            None => None,
            Some(s) => Some(s.clone()),
        };
        ScaledMinHash { hashes: hs, max_hash: self.max_hash, k: self.k, name, filename }
    }
}

/// The hash set of each sketch of a collection, in collection order.
pub open spec fn hash_sets_of(s: Seq<ScaledMinHash>) -> Seq<Set<u64>> {
    s.map_values(|r: ScaledMinHash| r.hash_set())
}

/// Containment is a fraction in `[0, 1]`: the intersection can be no larger
/// than the denominator set, and a non-empty sketch contains itself fully.
pub proof fn lemma_containment_bounds(a: ScaledMinHash, b: ScaledMinHash)
    requires
        a.wf(),
        b.wf(),
    ensures
        a.hash_set().intersect(b.hash_set()).len() <= a.card(),
        a == b ==> a.hash_set().intersect(b.hash_set()).len() == a.card(),
{
    a.lemma_card_is_set_len();
    lemma_len_subset(a.hash_set().intersect(b.hash_set()), a.hash_set());
    if a == b {
        assert(a.hash_set().intersect(b.hash_set()) =~= a.hash_set());
    }
}

/// After subtraction the minuend shares no hash with the subtrahend: the
/// intersection of the difference with the removed set is empty.
pub proof fn lemma_subtract_disjoint(a: Set<u64>, b: Set<u64>)
    ensures
        a.difference(b).intersect(b) == Set::<u64>::empty(),
{
    assert(a.difference(b).intersect(b) =~= Set::<u64>::empty());
}

} // verus!
