//! The classification model: the tagged result type for an aliquot
//! sequence, its mathematical view, and the derived forms (number, length,
//! flattened sequence, display text, cycle predicate).

use vstd::prelude::*;
use vstd::string::StringExecFns;
use crate::sums::aliquot_sum_spec;
use crate::render::dec_str;
use crate::render::u64_to_string;

verus! {

/// Consecutive members of the sequence are related by the aliquot sum.
pub open spec fn chain(s: Seq<u64>) -> bool {
    forall|i: int|
        1 <= i < s.len() ==> (#[trigger] s[i]) as nat == aliquot_sum_spec(s[i - 1] as nat)
}

/// Every member is a running sequence value proper: at least 2. The
/// values 0 and 1 are terminal (their aliquot sums are 0) and never stand
/// inside a live sequence.
pub open spec fn members_above_one(s: Seq<u64>) -> bool {
    forall|j: int| 0 <= j < s.len() ==> (#[trigger] s[j]) >= 2
}

/// Two chained runs joined at a matching aliquot-sum step stay chained.
pub proof fn lemma_chain_concat(a: Seq<u64>, b: Seq<u64>)
    requires
        chain(a),
        chain(b),
        a.len() >= 1 && b.len() >= 1 ==> b[0] as nat == aliquot_sum_spec(a.last() as nat),
    ensures
        chain(a + b),
{
    assert forall|i: int| 1 <= i < (a + b).len() implies (#[trigger] (a + b)[i]) as nat
        == aliquot_sum_spec((a + b)[i - 1] as nat) by {
        if i < a.len() {
            assert((a + b)[i] == a[i]);
            assert((a + b)[i - 1] == a[i - 1]);
        } else if i == a.len() {
            assert((a + b)[i] == b[0]);
            assert((a + b)[i - 1] == a[i - 1]);
            assert(a[i - 1] == a.last());
        } else {
            assert((a + b)[i] == b[i - a.len()]);
            assert((a + b)[i - 1] == b[i - 1 - a.len()]);
        }
    }
}

/// A chained sequence extended by the aliquot sum of its last member
/// stays chained.
pub proof fn lemma_chain_push(s: Seq<u64>, v: u64)
    requires
        chain(s),
        s.len() >= 1 ==> v as nat == aliquot_sum_spec(s.last() as nat),
    ensures
        chain(s.push(v)),
{
    assert(chain(seq![v]));
    lemma_chain_concat(s, seq![v]);
    assert(s.push(v) =~= s + seq![v]);
}

/// Member bounds carry over to a concatenation.
pub proof fn lemma_members_concat(a: Seq<u64>, b: Seq<u64>)
    requires
        members_above_one(a),
        members_above_one(b),
    ensures
        members_above_one(a + b),
{
    assert forall|j: int| 0 <= j < (a + b).len() implies (#[trigger] (a + b)[j]) >= 2 by {
        if j < a.len() {
            assert((a + b)[j] == a[j]);
        } else {
            assert((a + b)[j] == b[j - a.len()]);
        }
    }
}

/// Member bounds carry over to any contiguous part.
pub proof fn lemma_members_subrange(s: Seq<u64>, lo: int, hi: int)
    requires
        members_above_one(s),
        0 <= lo <= hi <= s.len(),
    ensures
        members_above_one(s.subrange(lo, hi)),
{
    let t = s.subrange(lo, hi);
    assert forall|j: int| 0 <= j < t.len() implies (#[trigger] t[j]) >= 2 by {
        assert(t[j] == s[lo + j]);
    }
}

/// Distinctness carries over to any contiguous part.
pub proof fn lemma_no_dup_subrange(s: Seq<u64>, lo: int, hi: int)
    requires
        s.no_duplicates(),
        0 <= lo <= hi <= s.len(),
    ensures
        s.subrange(lo, hi).no_duplicates(),
{
    let t = s.subrange(lo, hi);
    assert forall|j: int, k: int| 0 <= j < t.len() && 0 <= k < t.len() && j != k implies t[j]
        != t[k] by {
        assert(t[j] == s[lo + j]);
        assert(t[k] == s[lo + k]);
    }
}

/// Distinctness carries over to a rotation.
pub proof fn lemma_no_dup_rotation(s: Seq<u64>, at: int)
    requires
        s.no_duplicates(),
        0 <= at <= s.len(),
    ensures
        (s.subrange(at, s.len() as int) + s.subrange(0, at)).no_duplicates(),
{
    let t = s.subrange(at, s.len() as int) + s.subrange(0, at);
    let w = s.len() - at;
    assert forall|j: int, k: int| 0 <= j < t.len() && 0 <= k < t.len() && j != k implies t[j]
        != t[k] by {
        if j < w {
            assert(t[j] == s[at + j]);
        } else {
            assert(t[j] == s[j - w]);
        }
        if k < w {
            assert(t[k] == s[at + k]);
        } else {
            assert(t[k] == s[k - w]);
        }
    }
}

/// Any contiguous part of a chained sequence is chained.
pub proof fn lemma_chain_subrange(s: Seq<u64>, a: int, b: int)
    requires
        chain(s),
        0 <= a <= b <= s.len(),
    ensures
        chain(s.subrange(a, b)),
{
    let t = s.subrange(a, b);
    assert forall|i: int| 1 <= i < t.len() implies (#[trigger] t[i]) as nat == aliquot_sum_spec(
        t[i - 1] as nat,
    ) by {
        assert(t[i] == s[a + i]);
        assert(t[i - 1] == s[a + i - 1]);
    }
}

/// The mathematical view of a classification: the same variants as the
/// executable type, with sequences in the place of vectors.
pub ghost enum AliquotView {
    PerfectNumber(u64),
    PrimeNumber((u64, u64)),
    Convergent(Seq<u64>),
    AmicableNumber((u64, u64)),
    SociableNumber(Seq<u64>),
    AspiringNumber(Seq<u64>),
    IntoCycle(Seq<u64>, Seq<u64>),
    Unknown(Seq<u64>),
}

impl AliquotView {
    /// The flattening of all payload lists in order, prefix before cycle.
    pub open spec fn full_seq(self) -> Seq<u64> {
        match self {
            AliquotView::PerfectNumber(n) => seq![n],
            AliquotView::PrimeNumber(p) => seq![p.0, p.1],
            AliquotView::Convergent(s) => s,
            AliquotView::AmicableNumber(p) => seq![p.0, p.1],
            AliquotView::SociableNumber(s) => s,
            AliquotView::AspiringNumber(s) => s,
            AliquotView::IntoCycle(s0, s1) => s0 + s1,
            AliquotView::Unknown(s) => s,
        }
    }

    /// The starting number the classification was computed for.
    pub open spec fn number(self) -> u64 {
        match self {
            AliquotView::PerfectNumber(n) => n,
            AliquotView::PrimeNumber(p) => p.0,
            AliquotView::Convergent(s) => s[0],
            AliquotView::AmicableNumber(p) => p.0,
            AliquotView::SociableNumber(s) => s[0],
            AliquotView::AspiringNumber(s) => s[0],
            AliquotView::IntoCycle(s0, _) => s0[0],
            AliquotView::Unknown(s) => s[0],
        }
    }

    /// The semantic length of the classified sequence.
    pub open spec fn len(self) -> nat {
        match self {
            AliquotView::PerfectNumber(_) => 1,
            AliquotView::PrimeNumber(_) => 2,
            AliquotView::Convergent(s) => s.len(),
            AliquotView::AmicableNumber(_) => 2,
            AliquotView::SociableNumber(s) => s.len(),
            AliquotView::AspiringNumber(s) => s.len(),
            AliquotView::IntoCycle(s0, s1) => s0.len() + s1.len(),
            AliquotView::Unknown(s) => s.len(),
        }
    }

    /// Whether the sequence ends in a cycle.
    pub open spec fn cycles(self) -> bool {
        match self {
            AliquotView::AmicableNumber(_) => true,
            AliquotView::SociableNumber(_) => true,
            AliquotView::IntoCycle(_, _) => true,
            _ => false,
        }
    }

    /// The list whose interior members a cache registers in its lookup
    /// table: the payload list, but only the prefix for into-cycle
    /// results, and nothing for the scalar variants.
    pub open spec fn search_seq(self) -> Seq<u64> {
        match self {
            AliquotView::Convergent(s) => s,
            AliquotView::SociableNumber(s) => s,
            AliquotView::AspiringNumber(s) => s,
            AliquotView::IntoCycle(s0, _) => s0,
            AliquotView::Unknown(s) => s,
            _ => Seq::empty(),
        }
    }

    /// Structural well-formedness: payload lists are never empty, and a
    /// split sequence has a machine-representable total length.
    pub open spec fn wf(self) -> bool {
        match self {
            AliquotView::PerfectNumber(_) => true,
            AliquotView::PrimeNumber(_) => true,
            AliquotView::Convergent(s) => s.len() >= 1,
            AliquotView::AmicableNumber(_) => true,
            AliquotView::SociableNumber(s) => s.len() >= 1,
            AliquotView::AspiringNumber(s) => s.len() >= 1,
            AliquotView::IntoCycle(s0, s1) => s0.len() >= 1 && s1.len() >= 1 && s0.len() + s1.len()
                <= usize::MAX,
            AliquotView::Unknown(s) => s.len() >= 1,
        }
    }

    /// Semantic soundness of a finalized classification: the members are
    /// chained by the aliquot sum and each variant means what its name
    /// says (a prime reaches 1 in one step, a perfect number maps to
    /// itself, a cycle closes, a convergent sequence ends at 1 and only
    /// there). Running members are at least 2, and a cycle is a
    /// duplicate-free list of at least two numbers.
    pub open spec fn valid(self) -> bool {
        match self {
            AliquotView::PerfectNumber(n) => n >= 2 && aliquot_sum_spec(n as nat) == n as nat,
            AliquotView::PrimeNumber(p) => p.0 >= 2 && p.1 == 1 && aliquot_sum_spec(p.0 as nat)
                == 1,
            AliquotView::Convergent(s) => s.len() >= 2 && chain(s) && s.last() == 1
                && members_above_one(s.drop_last()),
            AliquotView::AmicableNumber(p) => p.0 >= 2 && p.1 >= 2 && p.0 != p.1
                && aliquot_sum_spec(p.0 as nat) == p.1 as nat && aliquot_sum_spec(p.1 as nat)
                == p.0 as nat,
            AliquotView::SociableNumber(s) => s.len() >= 3 && chain(s) && aliquot_sum_spec(
                s.last() as nat,
            ) == s[0] as nat && members_above_one(s) && s.no_duplicates(),
            AliquotView::AspiringNumber(s) => s.len() >= 2 && chain(s) && aliquot_sum_spec(
                s.last() as nat,
            ) == s.last() as nat && members_above_one(s),
            AliquotView::IntoCycle(s0, s1) => s0.len() >= 1 && s1.len() >= 2 && chain(s0 + s1)
                && aliquot_sum_spec(s1.last() as nat) == s1[0] as nat && members_above_one(s0)
                && members_above_one(s1) && s1.no_duplicates(),
            AliquotView::Unknown(s) => s.len() >= 1 && chain(s),
        }
    }

    /// The display name of the classification kind.
    pub open spec fn kind_name(self) -> Seq<char> {
        match self {
            AliquotView::PerfectNumber(_) => "Perfect number"@,
            AliquotView::PrimeNumber(_) => "Prime number"@,
            AliquotView::Convergent(_) => "Convergent sequence"@,
            AliquotView::AmicableNumber(_) => "Amicable number"@,
            AliquotView::SociableNumber(_) => "Sociable number"@,
            AliquotView::AspiringNumber(_) => "Aspiring number"@,
            AliquotView::IntoCycle(_, _) => "Convergent into cycle"@,
            AliquotView::Unknown(_) => "Unknown sequence"@,
        }
    }

    /// The display form of the sequence: plain numbers for the scalar
    /// variants, a bracketed comma-separated list otherwise, with prefix
    /// and cycle separated by an arrow.
    pub open spec fn render(self) -> Seq<char> {
        match self {
            AliquotView::PerfectNumber(n) => dec_str(n as nat),
            AliquotView::PrimeNumber(p) => dec_str(p.0 as nat) + ", "@ + dec_str(p.1 as nat),
            AliquotView::Convergent(s) => bracket_list(s),
            AliquotView::AmicableNumber(p) => dec_str(p.0 as nat) + ", "@ + dec_str(p.1 as nat),
            AliquotView::SociableNumber(s) => bracket_list(s),
            AliquotView::AspiringNumber(s) => bracket_list(s),
            AliquotView::IntoCycle(s0, s1) => bracket_list(s0) + " -> "@ + bracket_list(s1),
            AliquotView::Unknown(s) => bracket_list(s),
        }
    }
}

/// Law: for every well-formed classification, the flattened sequence
/// begins with the classified number and has exactly the semantic length.
pub proof fn lemma_views_agree(c: AliquotView)
    requires
        c.wf(),
    ensures
        c.full_seq().len() == c.len(),
        c.full_seq()[0] == c.number(),
{
    match c {
        AliquotView::IntoCycle(s0, s1) => {
            assert((s0 + s1)[0] == s0[0]);
        },
        _ => {},
    }
}

/// The members of a list, comma-separated, in decimal.
pub open spec fn comma_list(v: Seq<u64>) -> Seq<char>
    decreases v.len(),
{
    if v.len() == 0 {
        Seq::empty()
    } else if v.len() == 1 {
        dec_str(v[0] as nat)
    } else {
        comma_list(v.drop_last()) + ", "@ + dec_str(v.last() as nat)
    }
}

/// A comma-separated list inside brackets.
pub open spec fn bracket_list(v: Seq<u64>) -> Seq<char> {
    "["@ + comma_list(v) + "]"@
}

/// Possible aliquot sequences defined in an enum. Each variant carries
/// the numbers needed to reconstruct its full sequence.
#[derive(Debug, PartialEq)]
pub enum AliquotSeq {
    PerfectNumber(u64),
    PrimeNumber((u64, u64)),
    Convergent(Vec<u64>),
    AmicableNumber((u64, u64)),
    SociableNumber(Vec<u64>),
    AspiringNumber(Vec<u64>),
    IntoCycle(Vec<u64>, Vec<u64>),
    Unknown(Vec<u64>),
}

impl View for AliquotSeq {
    type V = AliquotView;

    open spec fn view(&self) -> AliquotView {
        match self {
            AliquotSeq::PerfectNumber(n) => AliquotView::PerfectNumber(*n),
            AliquotSeq::PrimeNumber(p) => AliquotView::PrimeNumber(*p),
            AliquotSeq::Convergent(v) => AliquotView::Convergent(v@),
            AliquotSeq::AmicableNumber(p) => AliquotView::AmicableNumber(*p),
            AliquotSeq::SociableNumber(v) => AliquotView::SociableNumber(v@),
            AliquotSeq::AspiringNumber(v) => AliquotView::AspiringNumber(v@),
            AliquotSeq::IntoCycle(v0, v1) => AliquotView::IntoCycle(v0@, v1@),
            AliquotSeq::Unknown(v) => AliquotView::Unknown(v@),
        }
    }
}

/// A copy of a vector of numbers.
pub(crate) fn clone_vec(v: &Vec<u64>) -> (r: Vec<u64>)
    ensures
        r@ == v@,
{
    let mut r: Vec<u64> = Vec::new();
    proof {
        assert(r@ =~= v@.take(0));
    }
    let mut i: usize = 0;
    while i < v.len()
        invariant
            i <= v@.len(),
            r@ == v@.take(i as int),
        decreases v@.len() - i,
    {
        r.push(v[i]);
        proof {
            assert(r@ =~= v@.take(i as int + 1));
        }
        i = i + 1;
    }
    proof {
        assert(v@.take(v@.len() as int) =~= v@);
    }
    r
}

/// Appends a copy of every member of `src` to `dst`.
pub(crate) fn extend_vec(dst: &mut Vec<u64>, src: &Vec<u64>)
    ensures
        final(dst)@ == old(dst)@ + src@,
{
    proof {
        assert(dst@ =~= old(dst)@ + src@.take(0));
    }
    let mut i: usize = 0;
    while i < src.len()
        invariant
            i <= src@.len(),
            dst@ == old(dst)@ + src@.take(i as int),
        decreases src@.len() - i,
    {
        dst.push(src[i]);
        proof {
            assert(dst@ =~= old(dst)@ + src@.take(i as int + 1));
        }
        i = i + 1;
    }
    proof {
        assert(old(dst)@ + src@.take(src@.len() as int) =~= old(dst)@ + src@);
    }
}

impl Clone for AliquotSeq {
    /// A copy of the classification, with the same mathematical view.
    fn clone(&self) -> (r: Self)
        ensures
            r@ == self@,
    {
        match self {
            AliquotSeq::PerfectNumber(n) => AliquotSeq::PerfectNumber(*n),
            AliquotSeq::PrimeNumber(p) => AliquotSeq::PrimeNumber(*p),
            AliquotSeq::Convergent(v) => AliquotSeq::Convergent(clone_vec(v)),
            AliquotSeq::AmicableNumber(p) => AliquotSeq::AmicableNumber(*p),
            AliquotSeq::SociableNumber(v) => AliquotSeq::SociableNumber(clone_vec(v)),
            AliquotSeq::AspiringNumber(v) => AliquotSeq::AspiringNumber(clone_vec(v)),
            AliquotSeq::IntoCycle(v0, v1) => AliquotSeq::IntoCycle(clone_vec(v0), clone_vec(v1)),
            AliquotSeq::Unknown(v) => AliquotSeq::Unknown(clone_vec(v)),
        }
    }
}

impl AliquotSeq {
    /// Returns the number the sequence has been computed for. This is the
    /// first number in the aliquot sequence.
    pub fn number(&self) -> (r: u64)
        requires
            self@.wf(),
        ensures
            r == self@.number(),
    {
        match self {
            AliquotSeq::PerfectNumber(n) => *n,
            AliquotSeq::PrimeNumber(p) => p.0,
            AliquotSeq::Convergent(v) => v[0],
            AliquotSeq::AmicableNumber(p) => p.0,
            AliquotSeq::SociableNumber(v) => v[0],
            AliquotSeq::AspiringNumber(v) => v[0],
            AliquotSeq::IntoCycle(v0, _) => v0[0],
            AliquotSeq::Unknown(v) => v[0],
        }
    }

    /// Returns the length of the aliquot sequence.
    pub fn len(&self) -> (r: usize)
        requires
            self@.wf(),
        ensures
            r == self@.len(),
    {
        match self {
            AliquotSeq::PerfectNumber(_) => 1,
            AliquotSeq::PrimeNumber(_) => 2,
            AliquotSeq::Convergent(v) => v.len(),
            AliquotSeq::AmicableNumber(_) => 2,
            AliquotSeq::SociableNumber(v) => v.len(),
            AliquotSeq::AspiringNumber(v) => v.len(),
            AliquotSeq::IntoCycle(v0, v1) => v0.len() + v1.len(),
            AliquotSeq::Unknown(v) => v.len(),
        }
    }

    /// Returns the type of the aliquot sequence as a string.
    pub fn type_str(&self) -> (r: &str)
        ensures
            r@ == self@.kind_name(),
    {
        match self {
            AliquotSeq::PerfectNumber(_) => "Perfect number",
            AliquotSeq::PrimeNumber(_) => "Prime number",
            AliquotSeq::Convergent(_) => "Convergent sequence",
            AliquotSeq::AmicableNumber(_) => "Amicable number",
            AliquotSeq::SociableNumber(_) => "Sociable number",
            AliquotSeq::AspiringNumber(_) => "Aspiring number",
            AliquotSeq::IntoCycle(_, _) => "Convergent into cycle",
            AliquotSeq::Unknown(_) => "Unknown sequence",
        }
    }

    /// Returns the plain flattened sequence as a vector.
    pub fn seq(&self) -> (r: Vec<u64>)
        ensures
            r@ == self@.full_seq(),
    {
        match self {
            AliquotSeq::PerfectNumber(n) => {
                let mut v: Vec<u64> = Vec::new();
                v.push(*n);
                proof {
                    assert(v@ =~= self@.full_seq());
                }
                v
            },
            AliquotSeq::PrimeNumber(p) => {
                let mut v: Vec<u64> = Vec::new();
                v.push(p.0);
                v.push(p.1);
                proof {
                    assert(v@ =~= self@.full_seq());
                }
                v
            },
            AliquotSeq::Convergent(v) => clone_vec(v),
            AliquotSeq::AmicableNumber(p) => {
                let mut v: Vec<u64> = Vec::new();
                v.push(p.0);
                v.push(p.1);
                proof {
                    assert(v@ =~= self@.full_seq());
                }
                v
            },
            AliquotSeq::SociableNumber(v) => clone_vec(v),
            AliquotSeq::AspiringNumber(v) => clone_vec(v),
            AliquotSeq::IntoCycle(v0, v1) => {
                let mut r = clone_vec(v0);
                extend_vec(&mut r, v1);
                r
            },
            AliquotSeq::Unknown(v) => clone_vec(v),
        }
    }

    /// Returns the sequence rendered as a string.
    pub fn seq_string(&self) -> (s: String)
        requires
            self@.wf(),
        ensures
            s@ == self@.render(),
    {
        match self {
            AliquotSeq::PerfectNumber(n) => u64_to_string(*n),
            AliquotSeq::PrimeNumber(p) => pair_string(p.0, p.1),
            AliquotSeq::Convergent(v) => list_string(v),
            AliquotSeq::AmicableNumber(p) => pair_string(p.0, p.1),
            AliquotSeq::SociableNumber(v) => list_string(v),
            AliquotSeq::AspiringNumber(v) => list_string(v),
            AliquotSeq::IntoCycle(v0, v1) => {
                let mut s = list_string(v0);
                s.append(" -> ");
                let tail = list_string(v1);
                s.append(tail.as_str());
                proof {
                    assert(s@ =~= bracket_list(v0@) + " -> "@ + bracket_list(v1@));
                }
                s
            },
            AliquotSeq::Unknown(v) => list_string(v),
        }
    }

    /// Returns true if the aliquot sequence cycles.
    pub fn cycles(&self) -> (r: bool)
        ensures
            r == self@.cycles(),
    {
        match self {
            AliquotSeq::AmicableNumber(_) => true,
            AliquotSeq::SociableNumber(_) => true,
            AliquotSeq::IntoCycle(_, _) => true,
            _ => false,
        }
    }
}

/// Two numbers separated by a comma, as for a prime or an amicable pair.
fn pair_string(a: u64, b: u64) -> (s: String)
    ensures
        s@ == dec_str(a as nat) + ", "@ + dec_str(b as nat),
{
    let mut s = u64_to_string(a);
    s.append(", ");
    let tail = u64_to_string(b);
    s.append(tail.as_str());
    proof {
        assert(s@ =~= dec_str(a as nat) + ", "@ + dec_str(b as nat));
    }
    s
}

/// A bracketed, comma-separated decimal rendering of a list.
fn list_string(v: &Vec<u64>) -> (s: String)
    requires
        v@.len() >= 1,
    ensures
        s@ == bracket_list(v@),
{
    let mut s = String::new();
    s.append("[");
    let first = u64_to_string(v[0]);
    s.append(first.as_str());
    proof {
        assert(v@.take(1).drop_last() =~= Seq::<u64>::empty());
        assert(v@.take(1)[0] == v@[0]);
        assert(s@ =~= "["@ + comma_list(v@.take(1)));
    }
    let mut i: usize = 1;
    while i < v.len()
        invariant
            1 <= i <= v@.len(),
            s@ == "["@ + comma_list(v@.take(i as int)),
        decreases v@.len() - i,
    {
        s.append(", ");
        let d = u64_to_string(v[i]);
        s.append(d.as_str());
        proof {
            let t = v@.take(i as int + 1);
            assert(t.drop_last() =~= v@.take(i as int));
            assert(t.last() == v@[i as int]);
            assert(s@ =~= "["@ + comma_list(t));
        }
        i = i + 1;
    }
    s.append("]");
    proof {
        assert(v@.take(v@.len() as int) =~= v@);
        assert(s@ =~= bracket_list(v@));
    }
    s
}

} // verus!
