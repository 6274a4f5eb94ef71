//! The sequence cache: a bounded memo store from a canonical starting
//! number to its classification, plus a reverse lookup table that maps any
//! interior member of a stored sequence back to its canonical start, so
//! that the suffix (or rotation) beginning at that member can be rebuilt
//! without rescanning.

use vstd::prelude::*;
use std::collections::HashMap;
use crate::classification::{
    lemma_members_subrange, lemma_members_concat, lemma_no_dup_rotation,
    AliquotSeq, AliquotView, lemma_chain_concat, lemma_chain_subrange, clone_vec,
};

verus! {

broadcast use vstd::std_specs::hash::group_hash_axioms;

/// The mathematical state of a cache: the canonical entries, the reverse
/// lookup table, the running element count and the capacity.
#[verifier::ext_equal]
pub ghost struct CacheModel {
    pub entries: Map<u64, AliquotView>,
    pub lut: Map<u64, u64>,
    pub count: nat,
    pub cap: nat,
}

/// Every stored entry is well formed, sound, keyed by its own starting
/// number, and small enough to have been admitted by the budget.
pub open spec fn model_wf(m: CacheModel) -> bool {
    forall|k: u64| #[trigger]
        m.entries.contains_key(k) ==> m.entries[k].wf() && m.entries[k].valid()
            && m.entries[k].number() == k && m.entries[k].full_seq().len() < m.cap
}

/// Whether `k` occurs in the registrable tail of `s`: anywhere but the
/// first position, and above 1 (the value 1 is a universal terminal and is
/// never registered).
pub open spec fn in_tail(s: Seq<u64>, k: u64) -> bool {
    exists|j: int| 1 <= j < s.len() && s[j] == k && k > 1
}

/// The lookup table after registering every tail member of `s` as
/// pointing back to the canonical start `n`.
pub open spec fn lut_extend(lut: Map<u64, u64>, n: u64, s: Seq<u64>) -> Map<u64, u64> {
    Map::new(
        |k: u64| lut.contains_key(k) || in_tail(s, k),
        |k: u64|
            if in_tail(s, k) {
                n
            } else {
                lut[k]
            },
    )
}

/// Addition on the running count, saturating at the machine limit.
pub open spec fn sat_add_spec(a: nat, b: nat) -> nat {
    if a + b <= usize::MAX {
        a + b
    } else {
        usize::MAX as nat
    }
}

/// The cache state after offering one classification: inserted if its
/// starting number is not yet a key and its length fits the remaining
/// budget, and otherwise left unchanged. List-carrying variants register
/// their tails in the lookup table; an amicable pair additionally stores
/// its mirrored pair as a canonical entry of its own.
pub open spec fn spec_add(m: CacheModel, c: AliquotView) -> CacheModel {
    let n = c.number();
    let len = c.len();
    if m.count < m.cap && len < m.cap - m.count && !m.entries.contains_key(n) {
        match c {
            AliquotView::AmicableNumber(p) => CacheModel {
                entries: m.entries.insert(p.1, AliquotView::AmicableNumber((p.1, p.0))).insert(
                    n,
                    c,
                ),
                lut: m.lut,
                count: sat_add_spec(m.count, len),
                cap: m.cap,
            },
            AliquotView::PerfectNumber(_) => CacheModel {
                entries: m.entries.insert(n, c),
                lut: m.lut,
                count: sat_add_spec(m.count, len),
                cap: m.cap,
            },
            AliquotView::PrimeNumber(_) => CacheModel {
                entries: m.entries.insert(n, c),
                lut: m.lut,
                count: sat_add_spec(m.count, len),
                cap: m.cap,
            },
            _ => CacheModel {
                entries: m.entries.insert(n, c),
                lut: lut_extend(m.lut, n, c.search_seq()),
                count: sat_add_spec(
                    sat_add_spec(m.count, (c.search_seq().len() - 1) as nat),
                    len,
                ),
                cap: m.cap,
            },
        }
    } else {
        m
    }
}

/// The position of the first occurrence of `x` in `s`.
pub open spec fn first_idx(s: Seq<u64>, x: u64) -> int
    decreases s.len(),
{
    if s.len() == 0 {
        0
    } else if s[0] == x {
        0
    } else {
        1 + first_idx(s.subrange(1, s.len() as int), x)
    }
}

/// When `x` occurs in `s`, `first_idx` is its first position.
pub proof fn lemma_first_idx(s: Seq<u64>, x: u64)
    requires
        s.contains(x),
    ensures
        0 <= first_idx(s, x) < s.len(),
        s[first_idx(s, x)] == x,
        forall|j: int| 0 <= j < first_idx(s, x) ==> s[j] != x,
    decreases s.len(),
{
    if s[0] == x {
    } else {
        let t = s.subrange(1, s.len() as int);
        let w = choose|i: int| 0 <= i < s.len() && s[i] == x;
        assert(t[w - 1] == x);
        assert(t.contains(x));
        lemma_first_idx(t, x);
        let f = first_idx(t, x);
        assert(s[1 + f] == t[f]);
        assert forall|j: int| 0 <= j < 1 + f implies s[j] != x by {
            if j >= 1 {
                assert(s[j] == t[j - 1]);
            }
        }
    }
}

/// The reconstructable suffix of a stored list from the first occurrence
/// of `x`, absent when `x` is missing or is the terminal member.
pub open spec fn recon_tail(s: Seq<u64>, x: u64) -> Option<Seq<u64>> {
    if s.contains(x) && first_idx(s, x) < s.len() - 1 {
        Some(s.subrange(first_idx(s, x), s.len() as int))
    } else {
        None
    }
}

/// What a lookup returns: the stored entry on a direct key hit, and
/// otherwise, through the lookup table, the reconstruction appropriate to
/// the canonical entry's kind — a suffix for a terminating list, a
/// rotation for a sociable cycle, a shortened prefix with the shared cycle
/// for an into-cycle result, and nothing for the scalar kinds.
pub open spec fn spec_get(m: CacheModel, n: u64) -> Option<AliquotView> {
    if m.entries.contains_key(n) {
        Some(m.entries[n])
    } else if m.lut.contains_key(n) && m.entries.contains_key(m.lut[n]) {
        match m.entries[m.lut[n]] {
            AliquotView::Convergent(s) => match recon_tail(s, n) {
                Some(t) => Some(AliquotView::Convergent(t)),
                None => None,
            },
            AliquotView::AspiringNumber(s) => match recon_tail(s, n) {
                Some(t) => Some(AliquotView::AspiringNumber(t)),
                None => None,
            },
            AliquotView::Unknown(s) => match recon_tail(s, n) {
                Some(t) => Some(AliquotView::Unknown(t)),
                None => None,
            },
            AliquotView::SociableNumber(s) => if s.contains(n) {
                Some(
                    AliquotView::SociableNumber(
                        s.subrange(first_idx(s, n), s.len() as int) + s.subrange(
                            0,
                            first_idx(s, n),
                        ),
                    ),
                )
            } else {
                None
            },
            AliquotView::IntoCycle(s, cyc) => if s.contains(n) {
                Some(AliquotView::IntoCycle(s.subrange(first_idx(s, n), s.len() as int), cyc))
            } else {
                None
            },
            _ => None,
        }
    } else {
        None
    }
}

/// Whether some stored entry's flattened sequence contains the value
/// `x`. A lookup can only hand back numbers that some entry mentions.
pub open spec fn mentions(m: CacheModel, x: u64) -> bool {
    exists|k: u64| #[trigger] m.entries.contains_key(k) && m.entries[k].full_seq().contains(x)
}

/// A member of a contiguous part is a member of the whole.
proof fn lemma_subrange_contains(s: Seq<u64>, lo: int, hi: int, x: u64)
    requires
        0 <= lo <= hi <= s.len(),
        s.subrange(lo, hi).contains(x),
    ensures
        s.contains(x),
{
    let t = s.subrange(lo, hi);
    let j = choose|j: int| 0 <= j < t.len() && t[j] == x;
    assert(s[lo + j] == x);
}

/// Law (idempotence, registration): a finalized classification offered
/// to a cache that has room for it and no entry for its starting number
/// yet becomes the entry for that number, so a later lookup of the same
/// starting number returns exactly it.
pub proof fn lemma_add_registers(m: CacheModel, c: AliquotView)
    requires
        c.wf(),
        c.valid(),
        m.count < m.cap,
        c.len() < m.cap - m.count,
        !m.entries.contains_key(c.number()),
    ensures
        spec_get(spec_add(m, c), c.number()) == Some(c),
{
}

/// Law (idempotence, service): once a number is a canonical key of the
/// cache, a lookup of it is a direct hit returning the stored entry, and
/// the lookup changes nothing.
pub proof fn lemma_cached_entry_is_served(m: CacheModel, n: u64)
    requires
        m.entries.contains_key(n),
    ensures
        spec_get(m, n) == Some(m.entries[n]),
{
}

/// Law (cache round trip, terminating kinds): after a finalized
/// classification that carries a searchable list is added to a cache with
/// room for it, looking up any registrable interior member of that list
/// yields a reconstruction whose flattened sequence is exactly the
/// flattened suffix of the original from that member on.
#[verifier::spinoff_prover]
#[verifier::rlimit(50)]
pub proof fn lemma_cache_round_trip_tail(m: CacheModel, c: AliquotView, i: int)
    requires
        c.wf(),
        c.valid(),
        c is Convergent || c is AspiringNumber || c is Unknown || c is IntoCycle,
        m.count < m.cap,
        c.len() < m.cap - m.count,
        !m.entries.contains_key(c.number()),
        1 <= i < c.search_seq().len(),
        c is Convergent || c is AspiringNumber || c is Unknown ==> i < c.search_seq().len() - 1,
        c.search_seq()[i] > 1,
        forall|j: int| 0 <= j < i ==> c.search_seq()[j] != c.search_seq()[i],
        !m.entries.contains_key(c.search_seq()[i]),
    ensures
        spec_get(spec_add(m, c), c.search_seq()[i]) matches Some(rc) && rc.full_seq()
            == c.full_seq().subrange(i, c.full_seq().len() as int),
{
    let s = c.search_seq();
    let x = s[i];
    let n = c.number();
    let m1 = spec_add(m, c);
    assert(s[0] != x);
    assert(n == s[0]);
    assert(s.contains(x));
    lemma_first_idx(s, x);
    assert(first_idx(s, x) == i);
    assert(in_tail(s, x));
    assert(m1.lut.contains_key(x) && m1.lut[x] == n);
    assert(!m1.entries.contains_key(x));
    assert(m1.entries.contains_key(n) && m1.entries[n] == c);
    match c {
        AliquotView::Convergent(sq) => {
            assert(recon_tail(sq, x) == Some(sq.subrange(i, sq.len() as int)));
            assert(spec_get(m1, x) == Some(
                AliquotView::Convergent(sq.subrange(i, sq.len() as int)),
            ));
        },
        AliquotView::AspiringNumber(sq) => {
            assert(recon_tail(sq, x) == Some(sq.subrange(i, sq.len() as int)));
            assert(spec_get(m1, x) == Some(
                AliquotView::AspiringNumber(sq.subrange(i, sq.len() as int)),
            ));
        },
        AliquotView::Unknown(sq) => {
            assert(recon_tail(sq, x) == Some(sq.subrange(i, sq.len() as int)));
            assert(spec_get(m1, x) == Some(
                AliquotView::Unknown(sq.subrange(i, sq.len() as int)),
            ));
        },
        AliquotView::IntoCycle(s0, s1) => {
            assert(spec_get(m1, x) == Some(
                AliquotView::IntoCycle(s0.subrange(i, s0.len() as int), s1),
            ));
            assert(s0.subrange(i, s0.len() as int) + s1 =~= (s0 + s1).subrange(
                i,
                (s0 + s1).len() as int,
            ));
        },
        _ => {},
    }
}

/// Law (cache round trip, sociable cycles): after a finalized sociable
/// classification is added to a cache with room for it, looking up any
/// registrable interior member of the cycle yields the rotation of the
/// cycle that starts at that member.
pub proof fn lemma_cache_round_trip_cycle(m: CacheModel, c: AliquotView, i: int)
    requires
        c.wf(),
        c.valid(),
        c is SociableNumber,
        m.count < m.cap,
        c.len() < m.cap - m.count,
        !m.entries.contains_key(c.number()),
        1 <= i < c.search_seq().len(),
        c.search_seq()[i] > 1,
        forall|j: int| 0 <= j < i ==> c.search_seq()[j] != c.search_seq()[i],
        !m.entries.contains_key(c.search_seq()[i]),
    ensures
        spec_get(spec_add(m, c), c.search_seq()[i]) matches Some(rc) && rc.full_seq()
            == c.full_seq().subrange(i, c.full_seq().len() as int) + c.full_seq().subrange(0, i),
{
    let s = c.search_seq();
    let x = s[i];
    let n = c.number();
    let m1 = spec_add(m, c);
    assert(s[0] != x);
    assert(n == s[0]);
    assert(s.contains(x));
    lemma_first_idx(s, x);
    assert(first_idx(s, x) == i);
    assert(in_tail(s, x));
    assert(m1.lut.contains_key(x) && m1.lut[x] == n);
    assert(!m1.entries.contains_key(x));
    assert(m1.entries.contains_key(n) && m1.entries[n] == c);
}

/// Addition on the running count, saturating at the machine limit.
fn sat_add(a: usize, b: usize) -> (r: usize)
    ensures
        r as nat == sat_add_spec(a as nat, b as nat),
{
    if a <= usize::MAX - b {
        a + b
    } else {
        usize::MAX
    }
}

/// The position of the first occurrence of `x` in `v`, if any.
pub(crate) fn find_pos(v: &Vec<u64>, x: u64) -> (r: Option<usize>)
    ensures
        match r {
            Some(i) => v@.contains(x) && i < v@.len() && v@[i as int] == x && i as int == first_idx(
                v@,
                x,
            ),
            None => !v@.contains(x),
        },
{
    let mut i: usize = 0;
    while i < v.len()
        invariant
            i <= v@.len(),
            forall|j: int| 0 <= j < i ==> v@[j] != x,
        decreases v@.len() - i,
    {
        if v[i] == x {
            proof {
                assert(v@.contains(x));
                lemma_first_idx(v@, x);
            }
            return Some(i);
        }
        i = i + 1;
    }
    proof {
        if v@.contains(x) {
            let w = choose|j: int| 0 <= j < v@.len() && v@[j] == x;
            assert(false);
        }
    }
    None
}

/// A copy of the members of `v` from position `from` on.
fn vec_suffix(v: &Vec<u64>, from: usize) -> (r: Vec<u64>)
    requires
        from <= v@.len(),
    ensures
        r@ == v@.subrange(from as int, v@.len() as int),
{
    let mut r: Vec<u64> = Vec::new();
    let mut i: usize = from;
    proof {
        assert(r@ =~= v@.subrange(from as int, from as int));
    }
    while i < v.len()
        invariant
            from <= i <= v@.len(),
            r@ == v@.subrange(from as int, i as int),
        decreases v@.len() - i,
    {
        r.push(v[i]);
        proof {
            assert(r@ =~= v@.subrange(from as int, i as int + 1));
        }
        i = i + 1;
    }
    r
}

/// A copy of `v` rotated so that position `at` comes first.
fn vec_rotation(v: &Vec<u64>, at: usize) -> (r: Vec<u64>)
    requires
        at <= v@.len(),
    ensures
        r@ == v@.subrange(at as int, v@.len() as int) + v@.subrange(0, at as int),
{
    let ghost suffix = v@.subrange(at as int, v@.len() as int);
    let mut r = vec_suffix(v, at);
    let mut i: usize = 0;
    proof {
        assert(r@ =~= suffix + v@.subrange(0, 0));
    }
    while i < at
        invariant
            i <= at <= v@.len(),
            suffix == v@.subrange(at as int, v@.len() as int),
            r@ == suffix + v@.subrange(0, i as int),
        decreases at - i,
    {
        r.push(v[i]);
        proof {
            assert(r@ =~= suffix + v@.subrange(0, i as int + 1));
        }
        i = i + 1;
    }
    r
}

/// Stores computed aliquot sequences in a map, with a reverse lookup
/// table and a running count held against a fixed capacity.
pub struct Cache {
    max_cache_size: usize,
    cache_count: usize,
    cache: HashMap<u64, AliquotSeq>,
    cache_lut: HashMap<u64, u64>,
}

impl View for Cache {
    type V = CacheModel;

    closed spec fn view(&self) -> CacheModel {
        CacheModel {
            entries: Map::new(
                |k: u64| self.cache@.contains_key(k),
                |k: u64| self.cache@[k]@,
            ),
            lut: self.cache_lut@,
            count: self.cache_count as nat,
            cap: self.max_cache_size as nat,
        }
    }
}

impl Cache {
    /// The cache invariant: every stored entry is well formed and sound.
    pub open spec fn wf(&self) -> bool {
        model_wf(self@)
    }

    /// Returns a new cache for aliquot sequences.
    pub fn new(max_cache_size: usize) -> (r: Self)
        ensures
            r.wf(),
            r@.entries == Map::<u64, AliquotView>::empty(),
            r@.lut == Map::<u64, u64>::empty(),
            r@.count == 0,
            r@.cap == max_cache_size as nat,
    {
        let r = Cache {
            max_cache_size,
            cache_count: 0,
            cache: HashMap::<u64, AliquotSeq>::new(),
            cache_lut: HashMap::<u64, u64>::new(),
        };
        proof {
            assert(r@.entries =~= Map::<u64, AliquotView>::empty());
        }
        r
    }

    /// Registers the whole tail of a stored list in the lookup table and
    /// accounts for it in the running count.
    fn add_seq_lut(&mut self, n: u64, s: &Vec<u64>)
        requires
            s@.len() >= 1,
        ensures
            final(self)@.entries == old(self)@.entries,
            final(self)@.cap == old(self)@.cap,
            final(self)@.lut == lut_extend(old(self)@.lut, n, s@),
            final(self)@.count == sat_add_spec(old(self)@.count, (s@.len() - 1) as nat),
    {
        let ghost lut0 = old(self)@.lut;
        let mut j: usize = 1;
        proof {
            assert(self.cache_lut@ =~= lut_extend(lut0, n, s@.take(1)));
        }
        while j < s.len()
            invariant
                1 <= j <= s@.len(),
                self.cache_lut@ == lut_extend(lut0, n, s@.take(j as int)),
                self.cache == old(self).cache,
                self.cache_count == old(self).cache_count,
                self.max_cache_size == old(self).max_cache_size,
            decreases s@.len() - j,
        {
            let x = s[j];
            if x > 1 {
                self.cache_lut.insert(x, n);
            }
            proof {
                let t0 = s@.take(j as int);
                let t1 = s@.take(j as int + 1);
                assert forall|k: u64| #[trigger] in_tail(t1, k) implies (in_tail(t0, k) || (k
                    == s@[j as int] && k > 1)) by {
                    let jj = choose|jj: int| 1 <= jj < t1.len() && t1[jj] == k && k > 1;
                    if jj < j {
                        assert(t0[jj] == t1[jj]);
                    }
                }
                assert forall|k: u64| in_tail(t0, k) implies #[trigger] in_tail(t1, k) by {
                    let jj = choose|jj: int| 1 <= jj < t0.len() && t0[jj] == k && k > 1;
                    assert(t1[jj] == k);
                }
                if s@[j as int] > 1 {
                    assert(t1[j as int] == s@[j as int]);
                    assert(in_tail(t1, s@[j as int]));
                }
                assert(self.cache_lut@ =~= lut_extend(lut0, n, t1));
            }
            j = j + 1;
        }
        proof {
            assert(s@.take(s@.len() as int) =~= s@);
        }
        self.cache_count = sat_add(self.cache_count, s.len() - 1);
    }

    /// Adds the aliquot sequence to the cache, if its starting number is
    /// not present yet and it fits the remaining budget.
    pub fn add(&mut self, aliquot_seq: AliquotSeq)
        requires
            old(self).wf(),
            aliquot_seq@.wf(),
            aliquot_seq@.valid(),
        ensures
            final(self).wf(),
            final(self)@ == spec_add(old(self)@, aliquot_seq@),
    {
        proof {
            crate::classification::lemma_views_agree(aliquot_seq@);
        }
        let len = aliquot_seq.len();
        let n = aliquot_seq.number();
        // Check if the sequence fits into the cache
        if self.cache_count < self.max_cache_size && len < self.max_cache_size - self.cache_count {
            // Check if the number n exists in the cache already
            if !self.cache.contains_key(&n) {
                match &aliquot_seq {
                    AliquotSeq::Convergent(s) => self.add_seq_lut(n, s),
                    AliquotSeq::SociableNumber(s) => self.add_seq_lut(n, s),
                    AliquotSeq::AspiringNumber(s) => self.add_seq_lut(n, s),
                    AliquotSeq::AmicableNumber(p) => {
                        // Add the amicable number in reverse order; the
                        // lookup table is not needed in this case
                        let m = p.1;
                        self.cache.insert(m, AliquotSeq::AmicableNumber((m, n)));
                    },
                    AliquotSeq::IntoCycle(s, _) => self.add_seq_lut(n, s),
                    AliquotSeq::Unknown(s) => self.add_seq_lut(n, s),
                    _ => {},
                }
                let ghost c = aliquot_seq@;
                self.cache.insert(n, aliquot_seq);
                self.cache_count = sat_add(self.cache_count, len);
                proof {
                    assert(self@.entries =~= spec_add(old(self)@, c).entries);
                    assert(self@ =~= spec_add(old(self)@, c));
                }
            }
        }
    }

    /// Adds the aliquot sequence to the cache, if it is not present yet,
    /// and hands the sequence itself back.
    pub fn add_and_return(&mut self, aliquot_seq: AliquotSeq) -> (r: AliquotSeq)
        requires
            old(self).wf(),
            aliquot_seq@.wf(),
            aliquot_seq@.valid(),
        ensures
            final(self).wf(),
            final(self)@ == spec_add(old(self)@, aliquot_seq@),
            r == aliquot_seq,
    {
        self.add(aliquot_seq.clone());
        aliquot_seq
    }

    /// Clears all entries in the cache without changing its capacity.
    pub fn clear(&mut self)
        requires
            old(self).wf(),
        ensures
            final(self).wf(),
            final(self)@.entries == Map::<u64, AliquotView>::empty(),
            final(self)@.count == 0,
            final(self)@.lut == old(self)@.lut,
            final(self)@.cap == old(self)@.cap,
    {
        self.cache_count = 0;
        self.cache.clear();
        proof {
            assert(self@.entries =~= Map::<u64, AliquotView>::empty());
        }
    }

    /// Returns the number of sequences stored in the cache.
    pub fn n_seq(&self) -> (r: usize)
        ensures
            r as nat == self@.entries.dom().len(),
    {
        proof {
            assert(self@.entries.dom() =~= self.cache@.dom());
        }
        self.cache.len()
    }

    /// Returns the running total of numbers accounted for by the entries.
    pub fn count(&self) -> (r: usize)
        ensures
            r as nat == self@.count,
    {
        self.cache_count
    }

    /// Returns the classification for `n`, directly or rebuilt through
    /// the lookup table, or nothing if neither yields an entry.
    pub fn get(&self, n: u64) -> (r: Option<AliquotSeq>)
        requires
            self.wf(),
        ensures
            r is Some <==> spec_get(self@, n) is Some,
            r matches Some(c) ==> Some(c@) == spec_get(self@, n) && c@.wf() && c@.valid()
                && c@.number() == n && c@.full_seq().len() < self@.cap,
            r matches Some(c) ==> forall|x: u64|
                c@.full_seq().contains(x) ==> #[trigger] mentions(self@, x),
    {
        match self.cache.get(&n) {
            Some(entry) => {
                proof {
                    assert(self@.entries.contains_key(n));
                    assert forall|x: u64| entry@.full_seq().contains(x) implies #[trigger] mentions(
                        self@,
                        x,
                    ) by {
                        assert(self@.entries.contains_key(n) && self@.entries[
                            n
                        ].full_seq().contains(x));
                    }
                }
                Some(entry.clone())
            },
            None => {
                proof {
                    assert(!self@.entries.contains_key(n));
                }
                match self.cache_lut.get(&n) {
                    Some(p_ref) => {
                        let p = *p_ref;
                        match self.cache.get(&p) {
                            Some(entry) => {
                                proof {
                                    assert(self@.entries.contains_key(p));
                                    assert(self@.entries[p] == entry@);
                                }
                                self.reconstruct(entry, n, p)
                            },
                            None => {
                                proof {
                                    assert(!self@.entries.contains_key(p));
                                }
                                None
                            },
                        }
                    },
                    None => None,
                }
            },
        }
    }

    /// Rebuilds the suffix, rotation or shortened prefix of a canonical
    /// entry that starts at the interior member `n`.
    #[verifier::spinoff_prover]
    #[verifier::rlimit(50)]
    fn reconstruct(&self, entry: &AliquotSeq, n: u64, p: u64) -> (r: Option<AliquotSeq>)
        requires
            self.wf(),
            !self@.entries.contains_key(n),
            self@.entries.contains_key(p),
            self@.entries[p] == entry@,
            self@.lut.contains_key(n),
            self@.lut[n] == p,
        ensures
            r is Some <==> spec_get(self@, n) is Some,
            r matches Some(c) ==> Some(c@) == spec_get(self@, n) && c@.wf() && c@.valid()
                && c@.number() == n && c@.full_seq().len() < self@.cap,
            r matches Some(c) ==> forall|x: u64|
                c@.full_seq().contains(x) ==> #[trigger] mentions(self@, x),
    {
        match entry {
            AliquotSeq::Convergent(s) => match find_pos(s, n) {
                Some(pos) => {
                    if pos < s.len() - 1 {
                        let tail = vec_suffix(s, pos);
                        proof {
                            lemma_chain_subrange(s@, pos as int, s@.len() as int);
                            let t = s@.subrange(pos as int, s@.len() as int);
                            assert forall|j: int| 0 <= j < t.drop_last().len() implies (
                            #[trigger] t.drop_last()[j]) >= 2 by {
                                assert(t.drop_last()[j] == s@[pos + j]);
                                assert(s@.drop_last()[pos + j] == s@[pos + j]);
                            }
                            assert forall|x: u64| t.contains(x) implies #[trigger] mentions(
                                self@,
                                x,
                            ) by {
                                lemma_subrange_contains(s@, pos as int, s@.len() as int, x);
                                assert(self@.entries.contains_key(p) && self@.entries[
                                    p
                                ].full_seq().contains(x));
                            }
                        }
                        Some(AliquotSeq::Convergent(tail))
                    } else {
                        None
                    }
                },
                None => None,
            },
            AliquotSeq::AspiringNumber(s) => match find_pos(s, n) {
                Some(pos) => {
                    if pos < s.len() - 1 {
                        let tail = vec_suffix(s, pos);
                        proof {
                            lemma_chain_subrange(s@, pos as int, s@.len() as int);
                            lemma_members_subrange(s@, pos as int, s@.len() as int);
                            let t = s@.subrange(pos as int, s@.len() as int);
                            assert forall|x: u64| t.contains(x) implies #[trigger] mentions(
                                self@,
                                x,
                            ) by {
                                lemma_subrange_contains(s@, pos as int, s@.len() as int, x);
                                assert(self@.entries.contains_key(p) && self@.entries[
                                    p
                                ].full_seq().contains(x));
                            }
                        }
                        Some(AliquotSeq::AspiringNumber(tail))
                    } else {
                        None
                    }
                },
                None => None,
            },
            AliquotSeq::Unknown(s) => match find_pos(s, n) {
                Some(pos) => {
                    if pos < s.len() - 1 {
                        let tail = vec_suffix(s, pos);
                        proof {
                            lemma_chain_subrange(s@, pos as int, s@.len() as int);
                            let t = s@.subrange(pos as int, s@.len() as int);
                            assert forall|x: u64| t.contains(x) implies #[trigger] mentions(
                                self@,
                                x,
                            ) by {
                                lemma_subrange_contains(s@, pos as int, s@.len() as int, x);
                                assert(self@.entries.contains_key(p) && self@.entries[
                                    p
                                ].full_seq().contains(x));
                            }
                        }
                        Some(AliquotSeq::Unknown(tail))
                    } else {
                        None
                    }
                },
                None => None,
            },
            AliquotSeq::SociableNumber(s) => match find_pos(s, n) {
                Some(pos) => {
                    let rot = vec_rotation(s, pos);
                    proof {
                        let a = s@.subrange(pos as int, s@.len() as int);
                        let b = s@.subrange(0, pos as int);
                        lemma_chain_subrange(s@, pos as int, s@.len() as int);
                        lemma_chain_subrange(s@, 0, pos as int);
                        assert(a.last() == s@.last());
                        if pos > 0 {
                            assert(b[0] == s@[0]);
                        }
                        lemma_chain_concat(a, b);
                        if pos > 0 {
                            assert((a + b).last() == b.last());
                            assert(b.last() == s@[pos as int - 1]);
                            assert(s@[pos as int] == rot@[0]);
                        } else {
                            assert(a + b =~= s@);
                        }
                        lemma_members_subrange(s@, pos as int, s@.len() as int);
                        lemma_members_subrange(s@, 0, pos as int);
                        lemma_members_concat(a, b);
                        lemma_no_dup_rotation(s@, pos as int);
                        assert forall|x: u64| (a + b).contains(x) implies #[trigger] mentions(
                            self@,
                            x,
                        ) by {
                            let j = choose|j: int| 0 <= j < (a + b).len() && (a + b)[j] == x;
                            if j < a.len() {
                                assert(s@[pos + j] == x);
                            } else {
                                assert(s@[j - a.len()] == x);
                            }
                            assert(s@.contains(x));
                            assert(self@.entries.contains_key(p) && self@.entries[
                                p
                            ].full_seq().contains(x));
                        }
                    }
                    Some(AliquotSeq::SociableNumber(rot))
                },
                None => None,
            },
            AliquotSeq::IntoCycle(s, cyc) => match find_pos(s, n) {
                Some(pos) => {
                    let pre = vec_suffix(s, pos);
                    let c2 = clone_vec(cyc);
                    proof {
                        let whole = s@ + cyc@;
                        lemma_chain_subrange(whole, pos as int, whole.len() as int);
                        assert(pre@ + c2@ =~= whole.subrange(pos as int, whole.len() as int));
                        lemma_members_subrange(s@, pos as int, s@.len() as int);
                        assert forall|x: u64| (pre@ + c2@).contains(x) implies #[trigger] mentions(
                            self@,
                            x,
                        ) by {
                            lemma_subrange_contains(whole, pos as int, whole.len() as int, x);
                            assert(self@.entries.contains_key(p) && self@.entries[
                                p
                            ].full_seq().contains(x));
                        }
                    }
                    Some(AliquotSeq::IntoCycle(pre, c2))
                },
                None => None,
            },
            AliquotSeq::PerfectNumber(_) => None,
            AliquotSeq::PrimeNumber(_) => None,
            AliquotSeq::AmicableNumber(_) => None,
        }
    }
}

} // verus!
