//! Canonical k-mer extraction and sketch construction.
//!
//! A window of length `k` over a normalized nucleotide sequence is hashed
//! under its canonical form: the byte-wise smaller of the window and its
//! reverse complement, which makes hashing strand-independent. Windows that
//! contain anything outside the four-letter alphabet are skipped and never
//! hashed.

use vstd::prelude::*;

verus! {

use crate::hashing::hash_kmer;
use crate::hashing::kmer_hash;
use crate::sketch::ScaledMinHash;

/// The four admitted nucleotide codes, upper case.
pub open spec fn is_nucleotide(b: u8) -> bool {
    b == 65 || b == 67 || b == 71 || b == 84
}

/// Watson–Crick complement of one nucleotide; anything else is unchanged.
pub open spec fn complement(b: u8) -> u8 {
    if b == 65 {
        84
    } else if b == 84 {
        65
    } else if b == 67 {
        71
    } else if b == 71 {
        67
    } else {
        b
    }
}

/// The reverse complement of a sequence.
pub open spec fn rc_spec(s: Seq<u8>) -> Seq<u8> {
    Seq::new(s.len(), |i: int| complement(s[s.len() - 1 - i]))
}

/// Strict lexicographic order on equal-length byte strings: some position
/// decides, and everything before it agrees.
pub open spec fn lex_less(a: Seq<u8>, b: Seq<u8>) -> bool {
    exists|j: int|
        #![trigger a[j], b[j]]
        0 <= j < a.len() && j < b.len() && a[j] < b[j] && (forall|i: int|
            0 <= i < j ==> a[i] == b[i])
}

/// The canonical form of a k-mer: the smaller of the window and its reverse
/// complement; the forward window wins ties.
pub open spec fn canonical_spec(w: Seq<u8>) -> Seq<u8> {
    if lex_less(rc_spec(w), w) {
        rc_spec(w)
    } else {
        w
    }
}

/// Every byte of `s` is a nucleotide.
pub open spec fn nucleotides_only(s: Seq<u8>) -> bool {
    forall|i: int| 0 <= i < s.len() ==> is_nucleotide(#[trigger] s[i])
}

/// The window of length `k` at `i` lies inside `s` and is pure nucleotide.
pub open spec fn window_ok(s: Seq<u8>, k: nat, i: int) -> bool {
    0 <= i && i + k <= s.len() && nucleotides_only(s.subrange(i, i + k))
}

/// The hash the window at `i` contributes: its canonical form's hash.
pub open spec fn window_hash(s: Seq<u8>, k: nat, i: int) -> u64 {
    kmer_hash(canonical_spec(s.subrange(i, i + k)))
}

/// Every hash the sequence's valid windows produce.
pub open spec fn sequence_hashes(s: Seq<u8>, k: nat) -> Set<u64> {
    Set::new(|h: u64| exists|i: int| window_ok(s, k, i) && window_hash(s, k, i) == h)
}

/// The sequence's hashes that clear the sketch cutoff.
pub open spec fn admitted_hashes(s: Seq<u8>, k: nat, max_hash: u64) -> Set<u64> {
    sequence_hashes(s, k).filter(|h: u64| h <= max_hash)
}

/// A scaled factor of 1 sets the cutoff to the whole hash space, so nothing
/// is filtered: the sketch holds the exact canonical k-mer hash set, and any
/// containment computed from it is the exact containment.
pub proof fn lemma_scaled_one_is_exact(s: Seq<u8>, k: nat)
    ensures
        admitted_hashes(s, k, u64::MAX) == sequence_hashes(s, k),
{
    assert(admitted_hashes(s, k, u64::MAX) =~= sequence_hashes(s, k));
}

fn complement_base(b: u8) -> (r: u8)
    ensures
        r == complement(b),
{
    if b == 65 {
        84
    } else if b == 84 {
        65
    } else if b == 67 {
        71
    } else if b == 71 {
        67
    } else {
        b
    }
}

fn is_nucleotide_base(b: u8) -> (r: bool)
    ensures
        r == is_nucleotide(b),
{
    b == 65 || b == 67 || b == 71 || b == 84
}

/// The reverse complement of `s`.
pub fn reverse_complement(s: &Vec<u8>) -> (r: Vec<u8>)
    ensures
        r@ == rc_spec(s@),
{
    let n = s.len();
    let mut r: Vec<u8> = Vec::new();
    let mut i: usize = 0;
    while i < n
        invariant
            i <= n,
            n == s@.len(),
            r@.len() == i,
            forall|t: int| 0 <= t < i ==> r@[t] == complement(s@[n - 1 - t]),
        decreases n - i,
    {
        r.push(complement_base(s[n - 1 - i]));
        i += 1;
    }
    proof {
        assert(r@ =~= rc_spec(s@));
    }
    r
}

/// Strict lexicographic comparison of two equal-length byte strings.
fn bytes_less(a: &Vec<u8>, b: &Vec<u8>) -> (r: bool)
    requires
        a@.len() == b@.len(),
    ensures
        r == lex_less(a@, b@),
{
    let mut i: usize = 0;
    while i < a.len()
        invariant
            i <= a@.len(),
            a@.len() == b@.len(),
            forall|t: int| #![trigger a@[t], b@[t]] 0 <= t < i ==> a@[t] == b@[t],
        decreases a@.len() - i,
    {
        if a[i] < b[i] {
            proof {
                assert(lex_less(a@, b@));
            }
            return true;
        }
        if a[i] > b[i] {
            proof {
                assert(!lex_less(a@, b@)) by {
                    if lex_less(a@, b@) {
                        let j = choose|j: int|
                            #![trigger a@[j], b@[j]]
                            0 <= j < a@.len() && j < b@.len() && a@[j] < b@[j] && (forall|t: int|
                                0 <= t < j ==> a@[t] == b@[t]);
                        if j < i {
                            assert(a@[j] == b@[j]);
                        } else if j == i {
                        } else {
                            assert(a@[i as int] == b@[i as int]);
                        }
                    }
                }
            }
            return false;
        }
        i += 1;
    }
    proof {
        assert(!lex_less(a@, b@)) by {
            if lex_less(a@, b@) {
                let j = choose|j: int|
                    #![trigger a@[j], b@[j]]
                    0 <= j < a@.len() && j < b@.len() && a@[j] < b@[j] && (forall|t: int|
                        0 <= t < j ==> a@[t] == b@[t]);
                assert(a@[j] == b@[j]);
            }
        }
    }
    false
}

fn copy_bytes(s: &Vec<u8>) -> (r: Vec<u8>)
    ensures
        r@ == s@,
{
    let mut r: Vec<u8> = Vec::new();
    let mut i: usize = 0;
    while i < s.len()
        invariant
            i <= s@.len(),
            r@ == s@.take(i as int),
        decreases s@.len() - i,
    {
        r.push(s[i]);
        proof {
            assert(s@.take(i + 1) =~= s@.take(i as int).push(s@[i as int]));
        }
        i += 1;
    }
    proof {
        assert(s@.take(s@.len() as int) =~= s@);
    }
    r
}

/// The canonical form of one k-mer.
pub fn canonical_kmer(w: &Vec<u8>) -> (c: Vec<u8>)
    ensures
        c@ == canonical_spec(w@),
{
    let rc = reverse_complement(w);
    if bytes_less(&rc, w) {
        rc
    } else {
        copy_bytes(w)
    }
}

fn extract_window(s: &Vec<u8>, i: usize, k: usize) -> (w: Vec<u8>)
    requires
        i + k <= s@.len(),
    ensures
        w@ == s@.subrange(i as int, i + k),
{
    let slen = s.len();
    let mut w: Vec<u8> = Vec::new();
    let mut t: usize = 0;
    while t < k
        invariant
            t <= k,
            slen == s@.len(),
            i + k <= s@.len(),
            w@ == s@.subrange(i as int, i + t),
        decreases k - t,
    {
        w.push(s[i + t]);
        proof {
            assert(s@.subrange(i as int, i + t + 1) =~= s@.subrange(i as int, i + t).push(
                s@[i + t],
            ));
        }
        t += 1;
    }
    w
}

/// The hashes contributed by the windows that start before `n`.
spec fn admitted_upto(s: Seq<u8>, k: nat, max_hash: u64, n: int) -> Set<u64> {
    Set::new(
        |h: u64|
            (exists|i: int| i < n && window_ok(s, k, i) && window_hash(s, k, i) == h) && h
                <= max_hash,
    )
}

impl ScaledMinHash {
    /// Ingest one normalized sequence: every pure-nucleotide window of
    /// length `k` is hashed under its canonical form and admitted iff the
    /// hash clears the cutoff; windows touching other characters are
    /// skipped. This is the only ingestion path of sketch construction.
    pub fn add_sequence(&mut self, seq_bytes: &Vec<u8>)
        requires
            old(self).wf(),
            old(self).k >= 1,
        ensures
            final(self).wf(),
            final(self).k == old(self).k,
            final(self).max_hash == old(self).max_hash,
            final(self).name == old(self).name,
            final(self).filename == old(self).filename,
            final(self).hash_set() == old(self).hash_set().union(
                admitted_hashes(seq_bytes@, old(self).k as nat, old(self).max_hash),
            ),
    {
        let ghost s = seq_bytes@;
        let ghost kk = self.k as nat;
        let ghost mh = self.max_hash;
        let k = self.k;
        let n = seq_bytes.len();
        if n < k {
            proof {
                assert(admitted_hashes(s, kk, mh) =~= Set::<u64>::empty());
                assert(old(self).hash_set().union(admitted_hashes(s, kk, mh))
                    =~= old(self).hash_set());
            }
            return ;
        }
        let mut i: usize = 0;
        proof {
            assert(self.hash_set() =~= old(self).hash_set().union(admitted_upto(s, kk, mh, 0)));
        }
        while i <= n - k
            invariant
                i <= n - k + 1,
                k >= 1,
                n == s.len(),
                k <= n,
                self.wf(),
                self.k == k,
                kk == k as nat,
                mh == self.max_hash,
                self.k == old(self).k,
                self.max_hash == old(self).max_hash,
                self.name == old(self).name,
                self.filename == old(self).filename,
                s == seq_bytes@,
                self.hash_set() == old(self).hash_set().union(admitted_upto(s, kk, mh, i as int)),
            decreases n - i,
        {
            let w = extract_window(seq_bytes, i, k);
            let mut ok = true;
            let mut t: usize = 0;
            while t < k
                invariant
                    t <= k,
                    w@.len() == k,
                    ok == (forall|u: int| 0 <= u < t ==> is_nucleotide(#[trigger] w@[u])),
                decreases k - t,
            {
                if !is_nucleotide_base(w[t]) {
                    ok = false;
                }
                t += 1;
            }
            if ok {
                let c = canonical_kmer(&w);
                let h = hash_kmer(&c);
                proof {
                    assert(nucleotides_only(s.subrange(i as int, i + k)));
                    assert(window_ok(s, kk, i as int));
                    assert(h == window_hash(s, kk, i as int));
                    if h <= mh {
                        assert(admitted_upto(s, kk, mh, i + 1) =~= admitted_upto(
                            s,
                            kk,
                            mh,
                            i as int,
                        ).insert(h));
                    } else {
                        assert(admitted_upto(s, kk, mh, i + 1) =~= admitted_upto(
                            s,
                            kk,
                            mh,
                            i as int,
                        ));
                    }
                }
                self.add(h);
                proof {
                    if h <= mh {
                        assert(self.hash_set() =~= old(self).hash_set().union(
                            admitted_upto(s, kk, mh, i + 1),
                        ));
                    } else {
                        assert(self.hash_set() =~= old(self).hash_set().union(
                            admitted_upto(s, kk, mh, i + 1),
                        ));
                    }
                }
            } else {
                proof {
                    let ghost wbad = choose|u: int| 0 <= u < k && !is_nucleotide(w@[u]);
                    assert(!window_ok(s, kk, i as int)) by {
                        if window_ok(s, kk, i as int) {
                            assert(is_nucleotide(s.subrange(i as int, i + k)[wbad]));
                        }
                    }
                    assert(admitted_upto(s, kk, mh, i + 1) =~= admitted_upto(s, kk, mh, i as int));
                }
            }
            i += 1;
        }
        proof {
            assert(admitted_upto(s, kk, mh, i as int) =~= admitted_hashes(s, kk, mh)) by {
                assert forall|h: u64| admitted_hashes(s, kk, mh).contains(h) implies admitted_upto(
                    s,
                    kk,
                    mh,
                    i as int,
                ).contains(h) by {
                    let t = choose|t: int| window_ok(s, kk, t) && window_hash(s, kk, t) == h;
                    assert(t < i);
                }
            }
        }
    }
}

/// Build a sketch of one normalized sequence: an empty sketch at the given
/// parameters, then one pass of ingestion. The result holds exactly the
/// sequence's canonical window hashes that clear the cutoff.
pub fn build_sketch(
    seq_bytes: &Vec<u8>,
    k: usize,
    scaled: usize,
    name: Option<String>,
    filename: Option<String>,
) -> (sk: ScaledMinHash)
    requires
        1 <= k,
        1 <= scaled,
    ensures
        sk.wf(),
        sk.k == k,
        sk.max_hash == u64::MAX as int / scaled as int,
        sk.name == name,
        sk.filename == filename,
        sk.hash_set() == admitted_hashes(seq_bytes@, k as nat, sk.max_hash),
{
    let mut sk = ScaledMinHash::new(k, scaled, name, filename);
    sk.add_sequence(seq_bytes);
    proof {
        assert(Set::<u64>::empty().union(
            admitted_hashes(seq_bytes@, k as nat, sk.max_hash),
        ) =~= admitted_hashes(seq_bytes@, k as nat, sk.max_hash));
    }
    sk
}

} // verus!
