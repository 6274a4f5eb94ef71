//! The sequence classifier: drives the iterative algorithm that builds an
//! aliquot sequence from a starting number, consults and updates its owned
//! cache, and decides the terminal kind of the sequence.

use vstd::prelude::*;
use std::collections::HashSet;
use crate::cache::{Cache, CacheModel, model_wf, mentions, spec_get, find_pos};
use crate::classification::{
    AliquotSeq, AliquotView, chain, members_above_one, lemma_chain_concat, lemma_chain_push,
    lemma_members_subrange, lemma_no_dup_subrange, lemma_views_agree, extend_vec,
};
use crate::error::AliquotError;
use crate::sums::{aliquot_sum_spec, aliquot_sum_u64, lemma_aliquot_sum_positive};

verus! {

broadcast use vstd::std_specs::hash::group_hash_axioms;

/// The only ways an unresolved classification `s` can arise for a number
/// the cache did not already answer: the divisor sum of the last member
/// does not fit the domain, or it reaches the configured ceiling, or the
/// step budget is spent, or the sequence ran into a stored tail that is
/// itself unresolved.
pub open spec fn unknown_excused(m: CacheModel, s: Seq<u64>, max_num: u64, max_len: nat) -> bool {
    ||| aliquot_sum_spec(s.last() as nat) > u64::MAX
    ||| aliquot_sum_spec(s.last() as nat) >= max_num as nat
    ||| s.len() >= max_len
    ||| exists|j: int|
        #![trigger s[j]]
        0 < j < s.len() && spec_get(m, s[j]) == Some(
            AliquotView::Unknown(s.subrange(j, s.len() as int)),
        )
}

/// Generator for aliquot sequences. It owns one sequence cache, an upper
/// bound on the values a sequence may reach, and a step budget.
pub struct Generator {
    max_num: u64,
    max_len_seq: usize,
    cache: Cache,
    #[allow(dead_code)]
    debug: bool,
}

impl View for Generator {
    type V = CacheModel;

    closed spec fn view(&self) -> CacheModel {
        self.cache@
    }
}

impl Default for Generator {
    /// The same configuration as `Generator::new`.
    fn default() -> (r: Self)
        ensures
            r.wf(),
            r.spec_max_num() == u64::MAX,
            r.spec_max_len_seq() == 1000000,
            r@.entries == Map::<u64, AliquotView>::empty(),
            r@.count == 0,
            r@.cap == 1000000,
    {
        Generator::new()
    }
}

impl Generator {
    /// The configured ceiling on sequence members.
    pub closed spec fn spec_max_num(&self) -> u64 {
        self.max_num
    }

    /// The configured bound on the number of classification steps.
    pub closed spec fn spec_max_len_seq(&self) -> nat {
        self.max_len_seq as nat
    }

    /// The generator invariant: its cache is well formed, and the step
    /// budget and cache capacity together fit the machine, so a spliced
    /// sequence always has a representable length.
    pub open spec fn wf(&self) -> bool {
        model_wf(self@) && self.spec_max_len_seq() + self@.cap <= usize::MAX
    }

    /// Returns a new generator object for aliquot sequences with default
    /// values.
    pub fn new() -> (r: Self)
        ensures
            r.wf(),
            r.spec_max_num() == u64::MAX,
            r.spec_max_len_seq() == 1000000,
            r@.entries == Map::<u64, AliquotView>::empty(),
            r@.count == 0,
            r@.cap == 1000000,
    {
        Generator {
            max_num: u64::MAX,
            max_len_seq: 1_000_000,
            cache: Cache::new(1_000_000),
            debug: false,
        }
    }

    /// Returns a new generator object for aliquot sequences with the
    /// given parameters. The step budget and the cache size must together
    /// fit the machine's size type, so that a spliced sequence always has
    /// a representable length.
    pub fn with_params(max_num: u64, max_len_seq: usize, max_cache_size: usize, debug: bool) -> (r:
        Self)
        requires
            max_len_seq + max_cache_size <= usize::MAX,
        ensures
            r.wf(),
            r.spec_max_num() == max_num,
            r.spec_max_len_seq() == max_len_seq as nat,
            r@.entries == Map::<u64, AliquotView>::empty(),
            r@.count == 0,
            r@.cap == max_cache_size as nat,
    {
        let cache = Cache::new(max_cache_size);
        Generator { max_num, max_len_seq, cache, debug }
    }

    /// Sums up all proper divisors of a number `n` (except `n` itself).
    /// Succeeds exactly when the sum fits the numeric domain; the
    /// overflow message names the running sum at the failing step, the
    /// divisor pair being added, and the domain maximum.
    pub fn aliquot_sum(n: u64) -> (r: Result<u64, AliquotError>)
        ensures
            r matches Ok(s) ==> aliquot_sum_spec(n as nat) <= u64::MAX && s == aliquot_sum_spec(
                n as nat,
            ),
            r matches Err(e) ==> aliquot_sum_spec(n as nat) > u64::MAX && (e matches AliquotError::OverflowError(m)
                && crate::sums::is_overflow_report(m@, n as nat)),
    {
        aliquot_sum_u64(n)
    }

    /// Returns the associated cache object.
    pub fn cache(&self) -> (r: &Cache)
        requires
            self.wf(),
        ensures
            r.wf(),
            r@ == self@,
    {
        &self.cache
    }

    /// Offers a finalized classification for `n` to the cache
    /// (first-writer-wins, within the budget) and hands it back.
    fn finalize(&mut self, c: AliquotSeq, n: u64) -> (r: AliquotSeq)
        requires
            old(self).wf(),
            c@.wf(),
            c@.valid(),
            c@.number() == n,
            !old(self)@.entries.contains_key(n),
        ensures
            final(self).wf(),
            final(self).spec_max_num() == old(self).spec_max_num(),
            final(self).spec_max_len_seq() == old(self).spec_max_len_seq(),
            final(self)@.cap == old(self)@.cap,
            r == c,
            forall|k: u64| #[trigger]
                old(self)@.entries.contains_key(k) ==> final(self)@.entries.contains_key(k),
            final(self)@.entries.contains_key(n) ==> final(self)@.entries[n] == r@,
            old(self)@.count < old(self)@.cap && c@.len() < old(self)@.cap - old(self)@.count
                ==> final(self)@.entries.contains_key(n),
            forall|k: u64| #[trigger]
                final(self)@.entries.contains_key(k) ==> old(self)@.entries.contains_key(k) || k
                    == n || (c@ matches AliquotView::AmicableNumber(q) && k == q.1),
    {
        self.cache.add_and_return(c)
    }

    /// Splices an in-progress sequence onto a cached classification of
    /// its next member, as the splice table of the classifier prescribes.
    #[verifier::spinoff_prover]
    #[verifier::rlimit(100)]
    fn splice(&mut self, hit: AliquotSeq, seq: Vec<u64>, n: u64, next: u64) -> (r: AliquotSeq)
        requires
            old(self).wf(),
            2 <= n,
            hit@.wf(),
            hit@.valid(),
            hit@.number() == next,
            hit@.full_seq().len() < old(self)@.cap,
            spec_get(old(self)@, next) == Some(hit@),
            forall|x: u64| hit@.full_seq().contains(x) ==> #[trigger] mentions(old(self)@, x),
            1 <= seq@.len(),
            seq@.len() < old(self).spec_max_len_seq(),
            seq@[0] == n,
            chain(seq@),
            members_above_one(seq@),
            aliquot_sum_spec(seq@.last() as nat) == next as nat,
            !old(self)@.entries.contains_key(n),
        ensures
            final(self).wf(),
            final(self).spec_max_num() == old(self).spec_max_num(),
            final(self).spec_max_len_seq() == old(self).spec_max_len_seq(),
            final(self)@.cap == old(self)@.cap,
            r@.wf(),
            r@.valid(),
            r@.number() == n,
            forall|k: u64| #[trigger]
                old(self)@.entries.contains_key(k) ==> final(self)@.entries.contains_key(k),
            final(self)@.entries.contains_key(n) ==> final(self)@.entries[n] == r@,
            r@ matches AliquotView::Unknown(s) ==> exists|j: int|
                #![trigger s[j]]
                0 < j < s.len() && spec_get(old(self)@, s[j]) == Some(
                    AliquotView::Unknown(s.subrange(j, s.len() as int)),
                ),
            !mentions(old(self)@, n) ==> (r@ matches AliquotView::IntoCycle(pre, cyc)
                ==> !cyc.contains(n)),
            old(self)@.count < old(self)@.cap && r@.len() < old(self)@.cap - old(self)@.count && !(
            r@ matches AliquotView::AmicableNumber(q) && spec_get(old(self)@, q.1) == Some(
                AliquotView::AmicableNumber((q.1, q.0)),
            )) ==> final(self)@.entries.contains_key(n),
            forall|k: u64| #[trigger]
                final(self)@.entries.contains_key(k) ==> old(self)@.entries.contains_key(k) || k
                    == n || (r@ matches AliquotView::AmicableNumber(q) && k == q.1),
    {
        let mut seq = seq;
        proof {
            lemma_views_agree(hit@);
            assert(self@.cap >= 2);
        }
        match hit {
            AliquotSeq::PerfectNumber(p) => {
                proof {
                    lemma_chain_push(seq@, p);
                    assert forall|j: int| 0 <= j < seq@.push(p).len() implies (
                    #[trigger] seq@.push(p)[j]) >= 2 by {
                        if j < seq@.len() {
                            assert(seq@.push(p)[j] == seq@[j]);
                        }
                    }
                }
                seq.push(p);
                self.finalize(AliquotSeq::AspiringNumber(seq), n)
            },
            AliquotSeq::PrimeNumber(pair) => {
                proof {
                    lemma_chain_push(seq@, pair.0);
                    lemma_chain_push(seq@.push(pair.0), pair.1);
                    let t = seq@.push(pair.0).push(pair.1);
                    assert forall|j: int| 0 <= j < t.drop_last().len() implies (
                    #[trigger] t.drop_last()[j]) >= 2 by {
                        if j < seq@.len() {
                            assert(t.drop_last()[j] == seq@[j]);
                        } else {
                            assert(t.drop_last()[j] == pair.0);
                        }
                    }
                }
                seq.push(pair.0);
                seq.push(pair.1);
                self.finalize(AliquotSeq::Convergent(seq), n)
            },
            AliquotSeq::Convergent(v) => {
                proof {
                    lemma_chain_concat(seq@, v@);
                    let t = seq@ + v@;
                    assert forall|j: int| 0 <= j < t.drop_last().len() implies (
                    #[trigger] t.drop_last()[j]) >= 2 by {
                        if j < seq@.len() {
                            assert(t.drop_last()[j] == seq@[j]);
                        } else {
                            assert(t.drop_last()[j] == v@[j - seq@.len()]);
                            assert(v@.drop_last()[j - seq@.len()] == v@[j - seq@.len()]);
                        }
                    }
                }
                extend_vec(&mut seq, &v);
                self.finalize(AliquotSeq::Convergent(seq), n)
            },
            AliquotSeq::AmicableNumber(pair) => {
                // The reverse pair of an already cached amicable number is
                // returned uncached: its mirror entry was registered when
                // the other member of the pair was first classified
                if pair.0 == next && pair.1 == n {
                    AliquotSeq::AmicableNumber((n, next))
                } else {
                    // Otherwise n runs into the cycle of the two amicable
                    // numbers
                    let mut cyc: Vec<u64> = Vec::new();
                    cyc.push(pair.0);
                    cyc.push(pair.1);
                    proof {
                        lemma_chain_push(seq@, pair.0);
                        lemma_chain_push(seq@.push(pair.0), pair.1);
                        assert(seq@ + cyc@ =~= seq@.push(pair.0).push(pair.1));
                        assert(hit@.full_seq().contains(pair.0));
                        assert(hit@.full_seq()[1] == pair.1);
                        assert(hit@.full_seq().contains(pair.1));
                    }
                    self.finalize(AliquotSeq::IntoCycle(seq, cyc), n)
                }
            },
            AliquotSeq::SociableNumber(v) => {
                // Runs into a cycle of sociable numbers
                proof {
                    lemma_chain_concat(seq@, v@);
                }
                self.finalize(AliquotSeq::IntoCycle(seq, v), n)
            },
            AliquotSeq::AspiringNumber(v) => {
                proof {
                    lemma_chain_concat(seq@, v@);
                    crate::classification::lemma_members_concat(seq@, v@);
                }
                extend_vec(&mut seq, &v);
                self.finalize(AliquotSeq::AspiringNumber(seq), n)
            },
            AliquotSeq::IntoCycle(v0, v1) => {
                proof {
                    lemma_chain_concat(seq@, v0@ + v1@);
                    assert((seq@ + (v0@ + v1@)) =~= (seq@ + v0@) + v1@);
                    assert forall|j: int| 0 <= j < v0@.len() implies (#[trigger] v0@[j]) >= 2 by {}
                    crate::classification::lemma_members_concat(seq@, v0@);
                    assert forall|x: u64| v1@.contains(x) implies hit@.full_seq().contains(x) by {
                        let j = choose|j: int| 0 <= j < v1@.len() && v1@[j] == x;
                        assert((v0@ + v1@)[v0@.len() + j] == x);
                    }
                }
                extend_vec(&mut seq, &v0);
                self.finalize(AliquotSeq::IntoCycle(seq, v1), n)
            },
            AliquotSeq::Unknown(v) => {
                // The sequence runs into one whose tail is itself
                // unresolved: the taint propagates
                proof {
                    lemma_chain_concat(seq@, v@);
                }
                let ghost pre_len = seq@.len() as int;
                extend_vec(&mut seq, &v);
                let ghost s = seq@;
                proof {
                    assert(s[pre_len] == next);
                    assert(s.subrange(pre_len, s.len() as int) =~= v@);
                }
                self.finalize(AliquotSeq::Unknown(seq), n)
            },
        }
    }

    /// Computes the aliquot sequence of a number `n` and returns its
    /// classification.
    ///
    /// The result is always a sound classification starting at `n`: its
    /// members are chained by the aliquot sum and its kind means what it
    /// says. For 0 and 1 the sequence is undefined and `Unknown([n])` is
    /// returned without touching the cache. A cached answer (direct or
    /// rebuilt through the lookup table) is returned as is. Otherwise the
    /// decision rules apply: a number equal to its own aliquot sum is
    /// perfect, one whose sum is 1 is prime, a two-step orbit back to `n`
    /// is an amicable pair, an overflowing or out-of-range first step is
    /// unresolved, a cycle the sequence runs into never contains `n`
    /// (unless a stored entry already mentioned `n`), and the finalized
    /// result is offered to the cache, so it is found there afterwards
    /// whenever it fits the budget and was not the mirror of a stored
    /// amicable pair.
    #[verifier::spinoff_prover]
    #[verifier::rlimit(100)]
    pub fn aliquot_seq(&mut self, n: u64) -> (r: AliquotSeq)
        requires
            old(self).wf(),
        ensures
            final(self).wf(),
            final(self).spec_max_num() == old(self).spec_max_num(),
            final(self).spec_max_len_seq() == old(self).spec_max_len_seq(),
            final(self)@.cap == old(self)@.cap,
            r@.wf(),
            r@.valid(),
            r@.number() == n,
            n == 0 || n == 1 ==> *final(self) == *old(self) && r@ == AliquotView::Unknown(seq![n]),
            n >= 2 && spec_get(old(self)@, n) is Some ==> *final(self) == *old(self) && Some(r@)
                == spec_get(old(self)@, n),
            forall|k: u64| #[trigger]
                old(self)@.entries.contains_key(k) ==> final(self)@.entries.contains_key(k),
            n >= 2 ==> (final(self)@.entries.contains_key(n) ==> final(self)@.entries[n] == r@),
            n >= 2 && spec_get(old(self)@, n) is None ==> (r@ matches AliquotView::Unknown(s)
                ==> unknown_excused(
                old(self)@,
                s,
                old(self).spec_max_num(),
                old(self).spec_max_len_seq(),
            )),
            // a number equal to its own aliquot sum is classified perfect
            n >= 2 && spec_get(old(self)@, n) is None && old(self).spec_max_len_seq() > 1
                && aliquot_sum_spec(n as nat) == n as nat && n < old(self).spec_max_num() ==> r@
                == AliquotView::PerfectNumber(n),
            // a number whose aliquot sum is 1 is classified prime
            n >= 2 && spec_get(old(self)@, n) is None && old(self).spec_max_len_seq() > 1
                && aliquot_sum_spec(n as nat) == 1 && 1 < old(self).spec_max_num() && spec_get(
                old(self)@,
                1,
            ) is None ==> r@ == AliquotView::PrimeNumber((n, 1)),
            // a fresh two-step orbit back to n is an amicable pair
            n >= 2 && spec_get(old(self)@, n) is None && old(self).spec_max_len_seq() > 2
                && aliquot_sum_spec(n as nat) != n as nat && aliquot_sum_spec(
                aliquot_sum_spec(n as nat),
            ) == n as nat && aliquot_sum_spec(n as nat) < old(self).spec_max_num() as nat && (
            n as nat) < old(self).spec_max_num() as nat && spec_get(
                old(self)@,
                aliquot_sum_spec(n as nat) as u64,
            ) is None ==> r@ == AliquotView::AmicableNumber(
                (n, aliquot_sum_spec(n as nat) as u64),
            ),
            // an overflowing or out-of-range first step, or a spent
            // budget, forces an unresolved result at once
            n >= 2 && spec_get(old(self)@, n) is None && (old(self).spec_max_len_seq() <= 1
                || aliquot_sum_spec(n as nat) > u64::MAX || aliquot_sum_spec(n as nat) >= old(
                self,
            ).spec_max_num() as nat) ==> r@ == AliquotView::Unknown(seq![n]),
            // a cycle the sequence runs into never contains n itself,
            // unless some stored entry already mentioned n
            n >= 2 && spec_get(old(self)@, n) is None && !mentions(old(self)@, n) ==> (
            r@ matches AliquotView::IntoCycle(pre, cyc) ==> !cyc.contains(n)),
            // the finalized result is registered whenever it fits the
            // budget and is not the mirror of a stored amicable pair
            n >= 2 && spec_get(old(self)@, n) is None && old(self)@.count < old(self)@.cap
                && r@.len() < old(self)@.cap - old(self)@.count && !(
            r@ matches AliquotView::AmicableNumber(q) && spec_get(old(self)@, q.1) == Some(
                AliquotView::AmicableNumber((q.1, q.0)),
            )) ==> final(self)@.entries.contains_key(n),
            // no key appears beyond the classified number and, for an
            // amicable pair, its partner
            forall|k: u64| #[trigger]
                final(self)@.entries.contains_key(k) ==> old(self)@.entries.contains_key(k) || k
                    == n || (r@ matches AliquotView::AmicableNumber(q) && k == q.1),
    {
        // Store the values seen within this call for faster cycle detection
        let mut lut_seq: HashSet<u64> = HashSet::new();
        // The original number is the first number in the sequence
        let mut seq: Vec<u64> = Vec::new();
        seq.push(n);
        proof {
            assert(seq@ =~= seq![n]);
        }
        // The aliquot sequence is undefined for 0, and trivial for 1
        if n == 0 || n == 1 {
            return AliquotSeq::Unknown(seq);
        }
        // Check whether the sequence for this number is already known
        if let Some(hit) = self.cache.get(n) {
            return hit;
        }
        let mut i: usize = 1;
        while i < self.max_len_seq
            invariant
                *self == *old(self),
                old(self).wf(),
                2 <= n,
                spec_get(old(self)@, n) is None,
                1 <= i,
                i == 1 || i <= self.max_len_seq,
                seq@.len() == i,
                seq@[0] == n,
                chain(seq@),
                seq@.no_duplicates(),
                forall|j: int| 0 <= j < seq@.len() ==> #[trigger] seq@[j] >= 2,
                forall|j: int| 1 <= j < seq@.len() ==> #[trigger] seq@[j] != n,
                forall|j: int|
                    1 <= j < seq@.len() ==> #[trigger] seq@[j] < old(self).spec_max_num(),
                forall|x: u64| #[trigger]
                    lut_seq@.contains(x) <==> exists|j: int|
                        1 <= j < seq@.len() && #[trigger] seq@[j] == x,
            decreases self.max_len_seq - i,
        {
            proof {
                // name the first orbit steps, for the decision-rule clauses
                if seq@.len() >= 2 {
                    assert(seq@[1] as nat == aliquot_sum_spec(seq@[0] as nat));
                }
                if seq@.len() >= 3 {
                    assert(seq@[2] as nat == aliquot_sum_spec(seq@[1] as nat));
                }
            }
            let len_seq = seq.len();
            let last = seq[len_seq - 1];
            match Self::aliquot_sum(last) {
                Ok(next) => {
                    proof {
                        lemma_aliquot_sum_positive(last as nat);
                    }
                    // Abort if a member of the sequence would exceed the
                    // maximum value allowed
                    if next >= self.max_num {
                        proof {
                            if seq@.len() == 1 {
                                assert(seq@ =~= seq![n]);
                            }
                        }
                        return self.finalize(AliquotSeq::Unknown(seq), n);
                    }
                    // If the sum is in the cache, the rest of the sequence
                    // is already known and is spliced on
                    if let Some(hit) = self.cache.get(next) {
                        return self.splice(hit, seq, n, next);
                    } else if next == 1 {
                        if len_seq == 1 {
                            // Only n itself is in the sequence so far, so n
                            // is prime
                            return self.finalize(AliquotSeq::PrimeNumber((n, 1)), n);
                        } else {
                            // An ordinary sequence ending with a prime
                            // followed by one
                            proof {
                                lemma_chain_push(seq@, 1);
                                assert(seq@.push(1u64).drop_last() =~= seq@);
                            }
                            seq.push(1);
                            return self.finalize(AliquotSeq::Convergent(seq), n);
                        }
                    } else if next == n {
                        if len_seq == 1 {
                            // The sequence returns to n in a single step,
                            // so n is perfect
                            return self.finalize(AliquotSeq::PerfectNumber(n), n);
                        } else if len_seq == 2 {
                            // A repeating sequence of two numbers
                            return self.finalize(AliquotSeq::AmicableNumber((n, last)), n);
                        } else {
                            // A repeating sequence of three or more numbers
                            return self.finalize(AliquotSeq::SociableNumber(seq), n);
                        }
                    } else if next == last {
                        // The sequence reached a perfect number, so n is an
                        // aspiring number
                        return self.finalize(AliquotSeq::AspiringNumber(seq), n);
                    } else if lut_seq.contains(&next) {
                        // The sequence entered a cycle that does not contain
                        // n: split at the first occurrence of the repeated
                        // value
                        let pos = match find_pos(&seq, next) {
                            Some(p) => p,
                            None => {
                                proof {
                                    assert(false);
                                }
                                0
                            },
                        };
                        proof {
                            // the repeated value is not the last member, so
                            // the split leaves a cycle of at least two
                            assert(seq@[seq@.len() - 1] != next);
                            lemma_no_dup_subrange(seq@, pos as int, seq@.len() as int);
                            lemma_members_subrange(seq@, pos as int, seq@.len() as int);
                            lemma_members_subrange(seq@, 0, pos as int);
                        }
                        let ghost whole = seq@;
                        let cycle = seq.split_off(pos);
                        proof {
                            assert(seq@ + cycle@ =~= whole);
                            assert forall|x: u64| cycle@.contains(x) implies x != n by {
                                let j = choose|j: int| 0 <= j < cycle@.len() && cycle@[j] == x;
                                assert(whole[pos + j] == x);
                            }
                        }
                        return self.finalize(AliquotSeq::IntoCycle(seq, cycle), n);
                    }
                    let ghost seq_before = seq@;
                    proof {
                        lemma_chain_push(seq@, next);
                    }
                    seq.push(next);
                    lut_seq.insert(next);
                    proof {
                        assert forall|x: u64| #[trigger] lut_seq@.contains(x) implies exists|
                            j: int,
                        |
                            1 <= j < seq@.len() && #[trigger] seq@[j] == x by {
                            if x == next {
                                assert(seq@[seq@.len() - 1] == x);
                            } else {
                                let w = choose|w: int|
                                    1 <= w < seq_before.len() && #[trigger] seq_before[w] == x;
                                assert(seq@[w] == x);
                            }
                        }
                        assert forall|x: u64, j: int|
                            1 <= j < seq@.len() && #[trigger] seq@[j] == x implies #[trigger] lut_seq@.contains(
                            x,
                        ) by {
                            if j < seq_before.len() {
                                assert(seq_before[j] == x);
                            }
                        }
                        // the pushed value is new, so the members stay
                        // distinct
                        assert forall|j: int, k: int|
                            0 <= j < seq@.len() && 0 <= k < seq@.len() && j != k implies seq@[j]
                            != seq@[k] by {
                            if k == seq@.len() - 1 && 1 <= j {
                                assert(seq_before[j] == seq@[j]);
                            }
                            if j == seq@.len() - 1 && 1 <= k {
                                assert(seq_before[k] == seq@[k]);
                            }
                        }
                    }
                },
                Err(_) => {
                    // Overflow in the divisor sum: the tail of the sequence
                    // cannot be represented, so the result is unresolved
                    proof {
                        if seq@.len() == 1 {
                            assert(seq@ =~= seq![n]);
                        }
                    }
                    return self.finalize(AliquotSeq::Unknown(seq), n);
                },
            }
            i = i + 1;
        }
        // The step budget is exhausted: the sequence stays unresolved
        proof {
            if seq@.len() == 1 {
                assert(seq@ =~= seq![n]);
            }
            if seq@.len() >= 2 {
                assert(seq@[1] as nat == aliquot_sum_spec(seq@[0] as nat));
            }
            if seq@.len() >= 3 {
                assert(seq@[2] as nat == aliquot_sum_spec(seq@[1] as nat));
            }
        }
        self.finalize(AliquotSeq::Unknown(seq), n)
    }
}

} // verus!

