//! `Agg`: an associative aggregate over a contiguous run of audio samples.
//!
//! Every statistic of a selection is derived from this struct, and two adjacent aggregates combine
//! into the aggregate of their concatenation in constant time. That is what lets the summary
//! pyramid answer a range query by stitching together a few precomputed blocks.
//!
//! Combining is ordered: the second run follows the first. It is associative but not commutative:
//! the position of an extreme and the crossing at the seam both depend on the order.
//!
//! The sums of the samples and of their squares are double-precision accumulators, held as bit
//! patterns. Their arithmetic is handed in as an [`Arith`]; what is proved of a sum is the order in
//! which the samples were added and how the additions were bracketed.

use vstd::prelude::*;
use crate::sample::{finite, is_nan, law_order_is_numeric, less, lt, nan, rank, sign, sign_of, value, INFINITY, NEG_INFINITY};

verus! {

/// Double-precision arithmetic on bit patterns.
pub struct Arith<A, L> {
    /// The sum of two accumulators.
    pub add: A,
    /// A sample and its square, each as an accumulator.
    pub lift: L,
}

impl<A: Fn(u64, u64) -> u64, L: Fn(u32) -> (u64, u64)> Arith<A, L> {
    /// Both operations are defined on every pattern.
    pub open spec fn total(self) -> bool {
        &&& forall|x: u64, y: u64| #[trigger] call_requires(self.add, (x, y))
        &&& forall|v: u32| #[trigger] call_requires(self.lift, (v,))
    }

    /// Each operation gives the same result on the same patterns.
    pub open spec fn functional(self) -> bool {
        &&& forall|x: u64, y: u64, r: u64, q: u64| #[trigger]
            call_ensures(self.add, (x, y), r) && #[trigger] call_ensures(self.add, (x, y), q) ==> r == q
        &&& forall|v: u32, x: u64, y: u64, x2: u64, y2: u64| #[trigger]
            self.lifts(v, x, y) && #[trigger] self.lifts(v, x2, y2) ==> x == x2 && y == y2
    }

    /// `x` and `y` are the sample `v` and its square as accumulators.
    pub open spec fn lifts(self, v: u32, x: u64, y: u64) -> bool {
        call_ensures(self.lift, (v,), (x, y))
    }

    /// `r` is the sample `v`, or its square, as an accumulator.
    pub open spec fn term(self, squared: bool, v: u32, r: u64) -> bool {
        if squared {
            exists|x: u64| self.lifts(v, x, r)
        } else {
            exists|y: u64| self.lifts(v, r, y)
        }
    }
}

/// How the terms of a sum are bracketed.
pub enum Sum {
    /// The empty sum.
    Zero,
    /// One sample.
    Term(u32),
    /// The sum of two sums, the left one first.
    Plus(Box<Sum>, Box<Sum>),
}

/// The samples of a sum, from left to right.
pub open spec fn terms(t: Sum) -> Seq<u32>
    decreases t,
{
    match t {
        Sum::Zero => Seq::empty(),
        Sum::Term(v) => seq![v],
        Sum::Plus(a, b) => terms(*a) + terms(*b),
    }
}

/// `r` is a value of the sum `t` of the samples, or of their squares.
pub open spec fn evaluates<A: Fn(u64, u64) -> u64, L: Fn(u32) -> (u64, u64)>(
    ops: Arith<A, L>,
    squared: bool,
    t: Sum,
    r: u64,
) -> bool
    decreases t,
{
    match t {
        Sum::Zero => r == 0,
        Sum::Term(v) => ops.term(squared, v, r),
        Sum::Plus(a, b) => exists|x: u64, y: u64|
            evaluates(ops, squared, *a, x) && evaluates(ops, squared, *b, y) && #[trigger] call_ensures(
                ops.add,
                (x, y),
                r,
            ),
    }
}

/// `r` is a value of the sum of the samples `s` in order (or of their squares), however bracketed.
pub open spec fn sums_to<A: Fn(u64, u64) -> u64, L: Fn(u32) -> (u64, u64)>(
    ops: Arith<A, L>,
    squared: bool,
    s: Seq<u32>,
    r: u64,
) -> bool {
    exists|t: Sum| terms(t) == s && #[trigger] evaluates(ops, squared, t, r)
}

/// The sum of `t` and `u`. An empty one adds nothing, not even a zero.
pub open spec fn plus(t: Sum, u: Sum) -> Sum {
    if t is Zero {
        u
    } else if u is Zero {
        t
    } else {
        Sum::Plus(Box::new(t), Box::new(u))
    }
}

pub proof fn lemma_plus_terms(t: Sum, u: Sum)
    ensures
        terms(plus(t, u)) == terms(t) + terms(u),
{
    if t is Zero || u is Zero {
        assert(terms(plus(t, u)) =~= terms(t) + terms(u));
    }
}

/// The sum of `s` that adds one sample after the other, starting from nothing.
pub open spec fn running(s: Seq<u32>) -> Sum
    decreases s.len(),
{
    if s.len() == 0 {
        Sum::Zero
    } else {
        Sum::Plus(Box::new(running(s.drop_last())), Box::new(Sum::Term(s.last())))
    }
}

pub proof fn lemma_running_terms(s: Seq<u32>)
    ensures
        terms(running(s)) == s,
    decreases s.len(),
{
    if s.len() > 0 {
        lemma_running_terms(s.drop_last());
        assert(s.drop_last() + seq![s.last()] =~= s);
        assert(terms(Sum::Term(s.last())) == seq![s.last()]);
    } else {
        assert(s =~= Seq::empty());
    }
}

proof fn lemma_term<A: Fn(u64, u64) -> u64, L: Fn(u32) -> (u64, u64)>(ops: Arith<A, L>, v: u32, x: u64, y: u64)
    requires
        ops.lifts(v, x, y),
    ensures
        evaluates(ops, false, Sum::Term(v), x),
        evaluates(ops, true, Sum::Term(v), y),
{
}

/// Sample `i` is the first minimum of `s`: a number below infinity that no sample undercuts and
/// that every earlier number exceeds.
pub open spec fn first_min(s: Seq<u32>, i: int) -> bool {
    &&& 0 <= i < s.len()
    &&& less(s[i], INFINITY)
    &&& forall|j: int| 0 <= j < s.len() ==> !less(#[trigger] s[j], s[i])
    &&& forall|j: int| 0 <= j < i ==> is_nan(#[trigger] s[j]) || less(s[i], s[j])
}

/// Sample `i` is the first maximum of `s`.
pub open spec fn first_max(s: Seq<u32>, i: int) -> bool {
    &&& 0 <= i < s.len()
    &&& less(NEG_INFINITY, s[i])
    &&& forall|j: int| 0 <= j < s.len() ==> !less(s[i], #[trigger] s[j])
    &&& forall|j: int| 0 <= j < i ==> is_nan(#[trigger] s[j]) || less(s[j], s[i])
}

/// `v` at position `pos` is the first minimum of the run `s` that starts at `base`. A run without
/// a number below infinity has infinity for its minimum: where the run starts if it starts with
/// infinity, else at position zero.
pub open spec fn min_of(s: Seq<u32>, base: int, v: u32, pos: int) -> bool {
    ||| exists|i: int| #[trigger] first_min(s, i) && v == s[i] && pos == base + i
    ||| {
        &&& forall|j: int| 0 <= j < s.len() ==> !less(#[trigger] s[j], INFINITY)
        &&& v == INFINITY
        &&& pos == start_of(s, base, INFINITY)
    }
}

/// `v` at position `pos` is the first maximum of the run `s` that starts at `base`. A run without
/// a number above negative infinity has that for its maximum: where the run starts if it starts
/// with negative infinity, else at position zero.
pub open spec fn max_of(s: Seq<u32>, base: int, v: u32, pos: int) -> bool {
    ||| exists|i: int| #[trigger] first_max(s, i) && v == s[i] && pos == base + i
    ||| {
        &&& forall|j: int| 0 <= j < s.len() ==> !less(NEG_INFINITY, #[trigger] s[j])
        &&& v == NEG_INFINITY
        &&& pos == start_of(s, base, NEG_INFINITY)
    }
}

/// Where the run `s` starts if its first sample is `v`, else zero.
pub open spec fn start_of(s: Seq<u32>, base: int, v: u32) -> int {
    if s.len() > 0 && s[0] == v {
        base
    } else {
        0
    }
}

/// The signs of `s`, without those of samples that have none.
pub open spec fn signs(s: Seq<u32>) -> Seq<int>
    decreases s.len(),
{
    if s.len() == 0 {
        Seq::empty()
    } else if sign_of(s.last()) == 0 {
        signs(s.drop_last())
    } else {
        signs(s.drop_last()).push(sign_of(s.last()))
    }
}

/// 1 where two neighbouring signs differ and neither is missing, else 0.
pub open spec fn flip(a: int, b: int) -> int {
    if a != 0 && b != 0 && a != b {
        1
    } else {
        0
    }
}

/// How often neighbours in `q` differ.
pub open spec fn flips(q: Seq<int>) -> int
    decreases q.len(),
{
    if q.len() < 2 {
        0
    } else {
        flips(q.drop_last()) + (if q[q.len() - 2] != q.last() {
            1int
        } else {
            0
        })
    }
}

/// The zero crossings of `s`: sign changes between consecutive samples that have a sign.
pub open spec fn crossings(s: Seq<u32>) -> int {
    flips(signs(s))
}

/// The first entry of `q`, or 0 where there is none.
pub open spec fn head_sign(q: Seq<int>) -> int {
    if q.len() == 0 {
        0
    } else {
        q.first()
    }
}

/// The last entry of `q`, or 0 where there is none.
pub open spec fn tail_sign(q: Seq<int>) -> int {
    if q.len() == 0 {
        0
    } else {
        q.last()
    }
}

proof fn lemma_signs_nonzero(s: Seq<u32>)
    ensures
        forall|i: int| 0 <= i < signs(s).len() ==> #[trigger] signs(s)[i] != 0,
        signs(s).len() <= s.len(),
    decreases s.len(),
{
    if s.len() > 0 {
        lemma_signs_nonzero(s.drop_last());
    }
}

proof fn lemma_signs_concat(s: Seq<u32>, t: Seq<u32>)
    ensures
        signs(s + t) == signs(s) + signs(t),
    decreases t.len(),
{
    if t.len() == 0 {
        assert(s + t =~= s);
    } else {
        lemma_signs_concat(s, t.drop_last());
        assert((s + t).drop_last() =~= s + t.drop_last());
        assert((s + t).last() == t.last());
        assert(signs(s + t) =~= signs(s) + signs(t));
    }
}

proof fn lemma_flips_concat(p: Seq<int>, q: Seq<int>)
    requires
        forall|i: int| 0 <= i < p.len() ==> #[trigger] p[i] != 0,
        forall|i: int| 0 <= i < q.len() ==> #[trigger] q[i] != 0,
    ensures
        flips(p + q) == flips(p) + flips(q) + flip(tail_sign(p), head_sign(q)),
    decreases q.len(),
{
    if q.len() == 0 {
        assert(p + q =~= p);
    } else {
        lemma_flips_concat(p, q.drop_last());
        assert((p + q).drop_last() =~= p + q.drop_last());
        assert((p + q).last() == q.last());
        if q.len() == 1 {
            assert(q.drop_last() =~= Seq::<int>::empty());
        }
        if p.len() == 0 {
            assert(p + q =~= q);
        }
    }
}

proof fn lemma_flips_bound(q: Seq<int>)
    ensures
        0 <= flips(q) <= q.len(),
        q.len() > 0 ==> flips(q) < q.len(),
    decreases q.len(),
{
    if q.len() >= 2 {
        lemma_flips_bound(q.drop_last());
    }
}

/// A run has fewer zero crossings than samples.
pub proof fn lemma_crossings_bound(s: Seq<u32>)
    ensures
        0 <= crossings(s) <= s.len(),
        s.len() > 0 ==> crossings(s) < s.len(),
{
    lemma_signs_nonzero(s);
    lemma_flips_bound(signs(s));
}

proof fn lemma_crossings_concat(s: Seq<u32>, t: Seq<u32>)
    ensures
        crossings(s + t) == crossings(s) + crossings(t) + flip(tail_sign(signs(s)), head_sign(signs(t))),
        head_sign(signs(s + t)) == (if head_sign(signs(s)) != 0 {
            head_sign(signs(s))
        } else {
            head_sign(signs(t))
        }),
        tail_sign(signs(s + t)) == (if tail_sign(signs(t)) != 0 {
            tail_sign(signs(t))
        } else {
            tail_sign(signs(s))
        }),
{
    lemma_signs_nonzero(s);
    lemma_signs_nonzero(t);
    lemma_signs_concat(s, t);
    lemma_flips_concat(signs(s), signs(t));
    let p = signs(s);
    let q = signs(t);
    if p.len() > 0 {
        assert(p[0] != 0 && p[p.len() - 1] != 0);
    }
    if q.len() > 0 {
        assert(q[0] != 0 && q[q.len() - 1] != 0);
    }
}

proof fn lemma_min_concat(s: Seq<u32>, t: Seq<u32>, base: int, v: u32, p: int, w: u32, q: int)
    requires
        s.len() > 0,
        min_of(s, base, v, p),
        min_of(t, base + s.len(), w, q),
    ensures
        less(w, v) ==> min_of(s + t, base, w, q),
        !less(w, v) ==> min_of(s + t, base, v, p),
{
    let u = s + t;
    assert forall|j: int| 0 <= j < s.len() implies #[trigger] u[j] == s[j] by {}
    assert forall|j: int| s.len() <= j < u.len() implies #[trigger] u[j] == t[j - s.len()] by {}
    let none_s = forall|j: int| 0 <= j < s.len() ==> !less(#[trigger] s[j], INFINITY);
    let none_t = forall|j: int| 0 <= j < t.len() ==> !less(#[trigger] t[j], INFINITY);
    if less(w, v) {
        let i = choose|i: int| #[trigger] first_min(t, i) && w == t[i] && q == base + s.len() + i;
        assert(first_min(u, s.len() + i)) by {
            assert(u[s.len() + i] == t[i]);
            assert forall|j: int| 0 <= j < s.len() implies is_nan(#[trigger] s[j]) || less(w, s[j]) by {
                if !(none_s && v == INFINITY) {
                    let k = choose|k: int| #[trigger] first_min(s, k) && v == s[k] && p == base + k;
                    assert(!less(s[j], s[k]));
                }
            }
        }
    } else {
        if none_s && v == INFINITY && p == start_of(s, base, INFINITY) {
            assert(u[0] == s[0]);
            if exists|i: int| #[trigger] first_min(t, i) && w == t[i] && q == base + s.len() + i {
                let i = choose|i: int| #[trigger] first_min(t, i) && w == t[i] && q == base + s.len() + i;
                assert(less(w, INFINITY));
                assert(false);
            }
        } else {
            let k = choose|k: int| #[trigger] first_min(s, k) && v == s[k] && p == base + k;
            assert(first_min(u, k)) by {
                assert forall|j: int| 0 <= j < t.len() implies !less(#[trigger] t[j], v) by {
                    if exists|i: int| #[trigger] first_min(t, i) && w == t[i] && q == base + s.len() + i {
                        let i = choose|i: int| #[trigger] first_min(t, i) && w == t[i] && q == base + s.len() + i;
                        assert(!less(t[j], t[i]));
                    } else {
                        assert(!less(t[j], INFINITY));
                    }
                }
            }
        }
    }
}

proof fn lemma_max_concat(s: Seq<u32>, t: Seq<u32>, base: int, v: u32, p: int, w: u32, q: int)
    requires
        s.len() > 0,
        max_of(s, base, v, p),
        max_of(t, base + s.len(), w, q),
    ensures
        less(v, w) ==> max_of(s + t, base, w, q),
        !less(v, w) ==> max_of(s + t, base, v, p),
{
    let u = s + t;
    assert forall|j: int| 0 <= j < s.len() implies #[trigger] u[j] == s[j] by {}
    assert forall|j: int| s.len() <= j < u.len() implies #[trigger] u[j] == t[j - s.len()] by {}
    let none_s = forall|j: int| 0 <= j < s.len() ==> !less(NEG_INFINITY, #[trigger] s[j]);
    let none_t = forall|j: int| 0 <= j < t.len() ==> !less(NEG_INFINITY, #[trigger] t[j]);
    if less(v, w) {
        let i = choose|i: int| #[trigger] first_max(t, i) && w == t[i] && q == base + s.len() + i;
        assert(first_max(u, s.len() + i)) by {
            assert(u[s.len() + i] == t[i]);
            assert forall|j: int| 0 <= j < s.len() implies is_nan(#[trigger] s[j]) || less(s[j], w) by {
                if !(none_s && v == NEG_INFINITY) {
                    let k = choose|k: int| #[trigger] first_max(s, k) && v == s[k] && p == base + k;
                    assert(!less(s[k], s[j]));
                }
            }
        }
    } else {
        if none_s && v == NEG_INFINITY && p == start_of(s, base, NEG_INFINITY) {
            assert(u[0] == s[0]);
            if exists|i: int| #[trigger] first_max(t, i) && w == t[i] && q == base + s.len() + i {
                let i = choose|i: int| #[trigger] first_max(t, i) && w == t[i] && q == base + s.len() + i;
                assert(less(NEG_INFINITY, w));
                assert(false);
            }
        } else {
            let k = choose|k: int| #[trigger] first_max(s, k) && v == s[k] && p == base + k;
            assert(first_max(u, k)) by {
                assert forall|j: int| 0 <= j < t.len() implies !less(v, #[trigger] t[j]) by {
                    if exists|i: int| #[trigger] first_max(t, i) && w == t[i] && q == base + s.len() + i {
                        let i = choose|i: int| #[trigger] first_max(t, i) && w == t[i] && q == base + s.len() + i;
                        assert(!less(t[i], t[j]));
                    } else {
                        assert(!less(NEG_INFINITY, t[j]));
                    }
                }
            }
        }
    }
}

/// The aggregate of a run of samples. [`Agg::identity`] is that of the empty run.
#[derive(Debug, Clone, Copy, PartialEq, Eq, Structural)]
pub struct Agg {
    /// Number of samples in the run.
    pub n: u64,
    /// Sum of the samples, as a double-precision pattern.
    pub sum: u64,
    /// Sum of the squared samples, as a double-precision pattern.
    pub sum_sq: u64,
    /// Minimum sample; infinity for the empty run.
    pub min: u32,
    /// Absolute index of the first occurrence of `min`.
    pub min_pos: u64,
    /// Maximum sample; negative infinity for the empty run.
    pub max: u32,
    /// Absolute index of the first occurrence of `max`.
    pub max_pos: u64,
    /// Zero crossings inside the run: sign changes between consecutive nonzero samples.
    pub zero_crossings: u64,
    /// Sign of the first nonzero sample, 0 if there is none.
    pub first_nz_sign: i8,
    /// Sign of the last nonzero sample, 0 if there is none.
    pub last_nz_sign: i8,
}

impl Agg {
    /// All but the sums describes the run `s` that starts at absolute index `base`. The empty run has
    /// the identity.
    pub open spec fn describes(self, s: Seq<u32>, base: int) -> bool {
        &&& self.n == s.len()
        &&& s.len() == 0 ==> self == Agg::spec_identity()
        &&& min_of(s, base, self.min, self.min_pos as int)
        &&& max_of(s, base, self.max, self.max_pos as int)
        &&& self.zero_crossings == crossings(s)
        &&& self.first_nz_sign == head_sign(signs(s))
        &&& self.last_nz_sign == tail_sign(signs(s))
    }

    /// The sums are those of the samples `s` and of their squares, however bracketed.
    pub open spec fn totals<A: Fn(u64, u64) -> u64, L: Fn(u32) -> (u64, u64)>(
        self,
        ops: Arith<A, L>,
        s: Seq<u32>,
    ) -> bool {
        &&& sums_to(ops, false, s, self.sum)
        &&& sums_to(ops, true, s, self.sum_sq)
    }

    /// The sums are those that `t` brackets. Only the identity has empty ones.
    pub open spec fn adds_up<A: Fn(u64, u64) -> u64, L: Fn(u32) -> (u64, u64)>(self, ops: Arith<A, L>, t: Sum) -> bool {
        &&& if t is Zero {
            self == Agg::spec_identity()
        } else {
            self.n > 0
        }
        &&& evaluates(ops, false, t, self.sum)
        &&& evaluates(ops, true, t, self.sum_sq)
    }

    /// Without samples it is the identity, as every aggregate of a run is.
    pub open spec fn of_a_run(self) -> bool {
        self.n == 0 ==> self == Agg::spec_identity()
    }

    /// `self` followed by `other`, with the given sums. Where one of them is the identity, it is the
    /// other.
    pub open spec fn merged(self, other: Agg, sum: u64, sum_sq: u64) -> Agg {
        if self == Agg::spec_identity() {
            other
        } else if other == Agg::spec_identity() {
            self
        } else {
            self.joined(other, sum, sum_sq)
        }
    }

    /// `self` followed by `other`, neither of them the identity, with the given sums.
    pub open spec fn joined(self, other: Agg, sum: u64, sum_sq: u64) -> Agg {
        Agg {
            n: (self.n + other.n) as u64,
            sum,
            sum_sq,
            min: if less(other.min, self.min) {
                other.min
            } else {
                self.min
            },
            min_pos: if less(other.min, self.min) {
                other.min_pos
            } else {
                self.min_pos
            },
            max: if less(self.max, other.max) {
                other.max
            } else {
                self.max
            },
            max_pos: if less(self.max, other.max) {
                other.max_pos
            } else {
                self.max_pos
            },
            zero_crossings: (self.zero_crossings + other.zero_crossings + flip(
                self.last_nz_sign as int,
                other.first_nz_sign as int,
            )) as u64,
            first_nz_sign: if self.first_nz_sign != 0 {
                self.first_nz_sign
            } else {
                other.first_nz_sign
            },
            last_nz_sign: if other.last_nz_sign != 0 {
                other.last_nz_sign
            } else {
                self.last_nz_sign
            },
        }
    }

    /// The counts of `self` followed by `other` fit.
    pub open spec fn fits(self, other: Agg) -> bool {
        self != Agg::spec_identity() && other != Agg::spec_identity() ==> {
            &&& self.n + other.n <= u64::MAX
            &&& self.zero_crossings + other.zero_crossings + flip(
                self.last_nz_sign as int,
                other.first_nz_sign as int,
            ) <= u64::MAX
        }
    }

    /// The neutral element: the aggregate of the empty run.
    pub fn identity() -> (r: Agg)
        ensures
            r == Agg::spec_identity(),
            forall|base: int| #[trigger] r.describes(Seq::empty(), base),
    {
        let r = Agg {
            n: 0,
            sum: 0,
            sum_sq: 0,
            min: INFINITY,
            min_pos: 0,
            max: NEG_INFINITY,
            max_pos: 0,
            zero_crossings: 0,
            first_nz_sign: 0,
            last_nz_sign: 0,
        };
        r
    }

    /// What [`Agg::identity`] returns.
    pub open spec fn spec_identity() -> Agg {
        Agg {
            n: 0,
            sum: 0,
            sum_sq: 0,
            min: INFINITY,
            min_pos: 0,
            max: NEG_INFINITY,
            max_pos: 0,
            zero_crossings: 0,
            first_nz_sign: 0,
            last_nz_sign: 0,
        }
    }

    /// What [`Agg::from_sample`] returns, given the sample and its square as accumulators.
    pub open spec fn single(v: u32, pos: u64, sum: u64, sum_sq: u64) -> Agg {
        Agg {
            n: 1,
            sum,
            sum_sq,
            min: v,
            min_pos: pos,
            max: v,
            max_pos: pos,
            zero_crossings: 0,
            first_nz_sign: sign_of(v) as i8,
            last_nz_sign: sign_of(v) as i8,
        }
    }

    /// The aggregate of the single sample `v` at absolute index `pos`.
    pub fn from_sample<A: Fn(u64, u64) -> u64, L: Fn(u32) -> (u64, u64)>(
        v: u32,
        pos: u64,
        ops: &Arith<A, L>,
    ) -> (r: Agg)
        requires
            ops.total(),
        ensures
            r == Agg::single(v, pos, r.sum, r.sum_sq),
            ops.lifts(v, r.sum, r.sum_sq),
    {
        let s: i8 = sign(v);
        let lifted: (u64, u64) = (ops.lift)(v);
        Agg {
            n: 1,
            sum: lifted.0,
            sum_sq: lifted.1,
            min: v,
            min_pos: pos,
            max: v,
            max_pos: pos,
            zero_crossings: 0,
            first_nz_sign: s,
            last_nz_sign: s,
        }
    }

    /// The aggregate of the run of the single sample `v` at absolute index `pos`: that of the sample,
    /// unless the sample is no number and so no extreme of its run.
    fn from_run<A: Fn(u64, u64) -> u64, L: Fn(u32) -> (u64, u64)>(v: u32, pos: u64, ops: &Arith<A, L>) -> (r: Agg)
        requires
            ops.total(),
        ensures
            r.describes(seq![v], pos as int),
            ops.lifts(v, r.sum, r.sum_sq),
    {
        let mut one: Agg = Agg::from_sample(v, pos, ops);
        if nan(v) {
            one.min = INFINITY;
            one.min_pos = 0;
            one.max = NEG_INFINITY;
            one.max_pos = 0;
        }
        proof {
            lemma_one_sample(one, v, pos as int);
        }
        one
    }

    /// Folds a contiguous slice of samples that starts at absolute index `start_pos`. The sums add
    /// one sample after the other.
    pub fn from_samples<A: Fn(u64, u64) -> u64, L: Fn(u32) -> (u64, u64)>(
        samples: &[u32],
        start_pos: u64,
        ops: &Arith<A, L>,
    ) -> (r: Agg)
        requires
            ops.total(),
            samples@.len() == 0 || start_pos + samples@.len() - 1 <= u64::MAX,
        ensures
            r.describes(samples@, start_pos as int),
            r.adds_up(*ops, running(samples@)),
            r.totals(*ops, samples@),
    {
        let mut acc: Agg = Agg::identity();
        let mut i: usize = 0;
        proof {
            assert(samples@.take(0) =~= Seq::empty());
        }
        while i < samples.len()
            invariant
                ops.total(),
                samples@.len() == 0 || start_pos + samples@.len() - 1 <= u64::MAX,
                i <= samples@.len(),
                acc.describes(samples@.take(i as int), start_pos as int),
                acc.adds_up(*ops, running(samples@.take(i as int))),
            decreases samples@.len() - i,
        {
            let v: u32 = samples[i];
            let one: Agg = Agg::from_run(v, start_pos + i as u64, ops);
            let ghost before = samples@.take(i as int);
            let ghost after = samples@.take(i + 1);
            proof {
                assert(after.drop_last() =~= before);
                assert(after.last() == v);
                assert(after =~= before + seq![v]);
                lemma_term(*ops, v, one.sum, one.sum_sq);
                law_merge_describes_concatenation(acc, one, before, seq![v], start_pos as int, 0, 0);
            }
            if i == 0 {
                // The sums start from zero, so a negative zero loses its sign.
                acc = Agg { sum: (ops.add)(0, one.sum), sum_sq: (ops.add)(0, one.sum_sq), ..one };
                proof {
                    assert(before =~= Seq::empty());
                    assert(after =~= seq![v]);
                    assert(evaluates(*ops, false, running(before), 0));
                    assert(evaluates(*ops, true, running(before), 0));
                    assert(evaluates(*ops, false, running(after), acc.sum));
                    assert(evaluates(*ops, true, running(after), acc.sum_sq));
                }
            } else {
                let next: Agg = acc.combine(&one, ops);
                proof {
                    law_merge_describes_concatenation(
                        acc,
                        one,
                        before,
                        seq![v],
                        start_pos as int,
                        next.sum,
                        next.sum_sq,
                    );
                    law_combine_adds_the_sums(*ops, acc, one, next, running(before), Sum::Term(v));
                }
                acc = next;
            }
            i = i + 1;
        }
        proof {
            assert(samples@.take(samples@.len() as int) =~= samples@);
            lemma_running_terms(samples@);
        }
        acc
    }

    /// Combines `self` with `other`, whose samples immediately follow. The empty run is neutral on
    /// either side.
    pub fn combine<A: Fn(u64, u64) -> u64, L: Fn(u32) -> (u64, u64)>(
        &self,
        other: &Agg,
        ops: &Arith<A, L>,
    ) -> (r: Agg)
        requires
            ops.total(),
            self.fits(*other),
        ensures
            r == self.merged(*other, r.sum, r.sum_sq),
            *self != Agg::spec_identity() && *other != Agg::spec_identity() ==> {
                &&& call_ensures(ops.add, (self.sum, other.sum), r.sum)
                &&& call_ensures(ops.add, (self.sum_sq, other.sum_sq), r.sum_sq)
            },
    {
        let none: Agg = Agg::identity();
        if *self == none {
            return *other;
        }
        if *other == none {
            return *self;
        }
        // A strict comparison keeps the earlier occurrence on a tie.
        let (min, min_pos): (u32, u64) = if lt(other.min, self.min) {
            (other.min, other.min_pos)
        } else {
            (self.min, self.min_pos)
        };
        let (max, max_pos): (u32, u64) = if lt(self.max, other.max) {
            (other.max, other.max_pos)
        } else {
            (self.max, self.max_pos)
        };
        // A crossing at the seam: the signs on its two sides differ.
        let boundary: u64 = if self.last_nz_sign != 0 && other.first_nz_sign != 0 && self.last_nz_sign
            != other.first_nz_sign {
            1
        } else {
            0
        };
        let first_nz_sign: i8 = if self.first_nz_sign != 0 {
            self.first_nz_sign
        } else {
            other.first_nz_sign
        };
        let last_nz_sign: i8 = if other.last_nz_sign != 0 {
            other.last_nz_sign
        } else {
            self.last_nz_sign
        };
        Agg {
            n: self.n + other.n,
            sum: (ops.add)(self.sum, other.sum),
            sum_sq: (ops.add)(self.sum_sq, other.sum_sq),
            min,
            min_pos,
            max,
            max_pos,
            zero_crossings: self.zero_crossings + other.zero_crossings + boundary,
            first_nz_sign,
            last_nz_sign,
        }
    }
}

/// Merging the aggregates of adjacent runs gives the aggregate of their concatenation.
pub proof fn law_merge_describes_concatenation(a: Agg, b: Agg, s: Seq<u32>, t: Seq<u32>, base: int, sum: u64, sum_sq: u64)
    requires
        a.describes(s, base),
        b.describes(t, base + s.len()),
        s.len() + t.len() <= u64::MAX,
    ensures
        a.fits(b),
        a.merged(b, sum, sum_sq).describes(s + t, base),
{
    if s.len() == 0 {
        assert(s + t =~= t);
    } else if t.len() == 0 {
        assert(s + t =~= s);
    } else {
        lemma_min_concat(s, t, base, a.min, a.min_pos as int, b.min, b.min_pos as int);
        lemma_max_concat(s, t, base, a.max, a.max_pos as int, b.max, b.max_pos as int);
    }
    lemma_crossings_concat(s, t);
    lemma_crossings_bound(s + t);
}

/// The aggregate of a single sample describes its run, where what is no number sets no extreme.
proof fn lemma_one_sample(a: Agg, v: u32, pos: int)
    requires
        a.n == 1,
        is_nan(v) ==> a.min == INFINITY && a.min_pos == 0 && a.max == NEG_INFINITY && a.max_pos == 0,
        !is_nan(v) ==> a.min == v && a.min_pos == pos && a.max == v && a.max_pos == pos,
        a.zero_crossings == 0,
        a.first_nz_sign == sign_of(v),
        a.last_nz_sign == sign_of(v),
    ensures
        a.describes(seq![v], pos),
{
    let t = seq![v];
    assert(t.drop_last() =~= Seq::empty());
    assert(t.last() == v);
    assert(signs(t.drop_last()) == Seq::<int>::empty());
    if sign_of(v) != 0 {
        assert(signs(t) =~= seq![sign_of(v)]);
    } else {
        assert(signs(t) =~= Seq::<int>::empty());
    }
    assert(t[0] == v);
    if less(v, INFINITY) {
        assert(first_min(t, 0));
    }
    if less(NEG_INFINITY, v) {
        assert(first_max(t, 0));
    }
}

/// A run has one description: two aggregates of it agree in everything but the sums.
pub proof fn law_description_is_unique(a: Agg, b: Agg, s: Seq<u32>, base: int)
    requires
        a.describes(s, base),
        b.describes(s, base),
    ensures
        b == (Agg { sum: b.sum, sum_sq: b.sum_sq, ..a }),
{
    if exists|i: int| #[trigger] first_min(s, i) {
        let i = choose|i: int| #[trigger] first_min(s, i);
        assert forall|j: int| #[trigger] first_min(s, j) implies i == j by {}
    }
    if exists|i: int| #[trigger] first_max(s, i) {
        let i = choose|i: int| #[trigger] first_max(s, i);
        assert forall|j: int| #[trigger] first_max(s, j) implies i == j by {}
    }
}

/// The empty run is neutral: before or after any aggregate it changes nothing.
pub proof fn law_identity_is_neutral(a: Agg, sum: u64, sum_sq: u64)
    ensures
        Agg::spec_identity().fits(a),
        a.fits(Agg::spec_identity()),
        Agg::spec_identity().merged(a, sum, sum_sq) == a,
        a.merged(Agg::spec_identity(), sum, sum_sq) == a,
{
}

/// Merging is associative in everything but the sums, unless an extreme of the one in the middle is
/// no number.
pub proof fn law_merge_is_associative(a: Agg, b: Agg, c: Agg, sum: u64, sum_sq: u64)
    requires
        a.of_a_run() && b.of_a_run() && c.of_a_run(),
        !is_nan(b.min),
        !is_nan(b.max),
        a.n + b.n + c.n <= u64::MAX,
        a.zero_crossings + b.zero_crossings + c.zero_crossings + 2 <= u64::MAX,
        // The signs of an aggregate are both missing or both present.
        b.first_nz_sign == 0 <==> b.last_nz_sign == 0,
    ensures
        a.merged(b, sum, sum_sq).merged(c, sum, sum_sq) == a.merged(b.merged(c, sum, sum_sq), sum, sum_sq),
{
}

/// Summing two adjacent runs sums their concatenation.
proof fn lemma_sums_concat<A: Fn(u64, u64) -> u64, L: Fn(u32) -> (u64, u64)>(
    ops: Arith<A, L>,
    squared: bool,
    s: Seq<u32>,
    x: u64,
    t: Seq<u32>,
    y: u64,
    r: u64,
)
    requires
        sums_to(ops, squared, s, x),
        sums_to(ops, squared, t, y),
        call_ensures(ops.add, (x, y), r),
    ensures
        sums_to(ops, squared, s + t, r),
{
    let a = choose|a: Sum| terms(a) == s && #[trigger] evaluates(ops, squared, a, x);
    let b = choose|b: Sum| terms(b) == t && #[trigger] evaluates(ops, squared, b, y);
    let p = Sum::Plus(Box::new(a), Box::new(b));
    assert(terms(p) == s + t);
    assert(evaluates(ops, squared, p, r));
}

/// Combining two aggregates adds the sum of the second one to that of the first, as a whole. `r`
/// stands for what [`Agg::combine`] returns.
pub proof fn law_combine_adds_the_sums<A: Fn(u64, u64) -> u64, L: Fn(u32) -> (u64, u64)>(
    ops: Arith<A, L>,
    a: Agg,
    b: Agg,
    r: Agg,
    t: Sum,
    u: Sum,
)
    requires
        a.adds_up(ops, t),
        b.adds_up(ops, u),
        a.fits(b),
        r == a.merged(b, r.sum, r.sum_sq),
        a != Agg::spec_identity() && b != Agg::spec_identity() ==> {
            &&& call_ensures(ops.add, (a.sum, b.sum), r.sum)
            &&& call_ensures(ops.add, (a.sum_sq, b.sum_sq), r.sum_sq)
        },
    ensures
        r.adds_up(ops, plus(t, u)),
{
    if !(t is Zero) && !(u is Zero) {
        let p = plus(t, u);
        assert(evaluates(ops, false, p, r.sum));
        assert(evaluates(ops, true, p, r.sum_sq));
    }
}

/// A bracketed sum has one value, where each operation has one result.
proof fn lemma_one_value<A: Fn(u64, u64) -> u64, L: Fn(u32) -> (u64, u64)>(
    ops: Arith<A, L>,
    squared: bool,
    t: Sum,
    r: u64,
    q: u64,
)
    requires
        ops.functional(),
        evaluates(ops, squared, t, r),
        evaluates(ops, squared, t, q),
    ensures
        r == q,
    decreases t,
{
    match t {
        Sum::Zero => {},
        Sum::Term(v) => {},
        Sum::Plus(a, b) => {
            let (x, y): (u64, u64) = choose|x: u64, y: u64|
                evaluates(ops, squared, *a, x) && evaluates(ops, squared, *b, y) && #[trigger] call_ensures(
                    ops.add,
                    (x, y),
                    r,
                );
            let (x2, y2): (u64, u64) = choose|x: u64, y: u64|
                evaluates(ops, squared, *a, x) && evaluates(ops, squared, *b, y) && #[trigger] call_ensures(
                    ops.add,
                    (x, y),
                    q,
                );
            lemma_one_value(ops, squared, *a, x, x2);
            lemma_one_value(ops, squared, *b, y, y2);
        },
    }
}

/// A run has one aggregate for each bracketing, sums included, where each operation has one result.
pub proof fn law_an_aggregate_is_unique<A: Fn(u64, u64) -> u64, L: Fn(u32) -> (u64, u64)>(
    ops: Arith<A, L>,
    a: Agg,
    b: Agg,
    s: Seq<u32>,
    base: int,
    t: Sum,
)
    requires
        ops.functional(),
        a.describes(s, base),
        b.describes(s, base),
        a.adds_up(ops, t),
        b.adds_up(ops, t),
    ensures
        a == b,
{
    law_description_is_unique(a, b, s, base);
    lemma_one_value(ops, false, t, a.sum, b.sum);
    lemma_one_value(ops, true, t, a.sum_sq, b.sum_sq);
}

/// A sum, however bracketed, is one of its samples in order.
pub proof fn law_a_bracketed_sum_is_one_of_its_samples<A: Fn(u64, u64) -> u64, L: Fn(u32) -> (u64, u64)>(
    ops: Arith<A, L>,
    a: Agg,
    t: Sum,
)
    requires
        a.adds_up(ops, t),
    ensures
        a.totals(ops, terms(t)),
{
}

/// Combining the aggregates of two adjacent runs gives the aggregate of their concatenation, sums
/// included. `r` stands for what [`Agg::combine`] returns.
pub proof fn law_combine_summarizes_concatenation<A: Fn(u64, u64) -> u64, L: Fn(u32) -> (u64, u64)>(
    ops: Arith<A, L>,
    a: Agg,
    b: Agg,
    r: Agg,
    s: Seq<u32>,
    t: Seq<u32>,
    base: int,
)
    requires
        a.describes(s, base),
        b.describes(t, base + s.len()),
        s.len() + t.len() <= u64::MAX,
        r == a.merged(b, r.sum, r.sum_sq),
        a != Agg::spec_identity() && b != Agg::spec_identity() ==> {
            &&& call_ensures(ops.add, (a.sum, b.sum), r.sum)
            &&& call_ensures(ops.add, (a.sum_sq, b.sum_sq), r.sum_sq)
        },
    ensures
        r.describes(s + t, base),
        a.totals(ops, s) && b.totals(ops, t) ==> r.totals(ops, s + t),
{
    law_merge_describes_concatenation(a, b, s, t, base, r.sum, r.sum_sq);
    if s.len() == 0 {
        assert(s + t =~= t);
    } else if t.len() == 0 {
        assert(s + t =~= s);
    } else if a.totals(ops, s) && b.totals(ops, t) {
        lemma_sums_concat(ops, false, s, a.sum, t, b.sum, r.sum);
        lemma_sums_concat(ops, true, s, a.sum_sq, t, b.sum_sq, r.sum_sq);
    }
}

/// The extremes of a run bound every number in it, and each is the first sample with its value.
pub proof fn law_extremes_bound_the_run(a: Agg, s: Seq<u32>, base: int)
    requires
        a.describes(s, base),
    ensures
        forall|j: int| 0 <= j < s.len() ==> !less(#[trigger] s[j], a.min) && !less(a.max, s[j]),
        (exists|j: int| 0 <= j < s.len() && finite(#[trigger] s[j])) ==> {
            &&& base <= a.min_pos < base + s.len()
            &&& s[a.min_pos - base] == a.min
            &&& base <= a.max_pos < base + s.len()
            &&& s[a.max_pos - base] == a.max
            &&& forall|j: int| 0 <= j < a.min_pos - base && !is_nan(#[trigger] s[j]) ==> rank(s[j]) != rank(a.min)
            &&& forall|j: int| 0 <= j < a.max_pos - base && !is_nan(#[trigger] s[j]) ==> rank(s[j]) != rank(a.max)
        },
{
}

/// A run without a sign, such as silence, has no zero crossing.
pub proof fn law_silence_has_no_crossings(s: Seq<u32>)
    requires
        forall|j: int| 0 <= j < s.len() ==> sign_of(#[trigger] s[j]) == 0,
    ensures
        crossings(s) == 0,
        signs(s) == Seq::<int>::empty(),
    decreases s.len(),
{
    if s.len() > 0 {
        assert(sign_of(s[s.len() - 1]) == 0);
        assert forall|j: int| 0 <= j < s.drop_last().len() implies sign_of(#[trigger] s.drop_last()[j]) == 0 by {
            assert(s.drop_last()[j] == s[j]);
        }
        law_silence_has_no_crossings(s.drop_last());
    }
}

/// The extremes are those of the numbers: every number of the run lies between them, each stands at
/// its position, and what comes before it is strictly inside. A run with no number below infinity has
/// infinity for its minimum, and one with no number above negative infinity has that for its maximum.
pub proof fn law_extremes_are_the_numeric_ones(a: Agg, s: Seq<u32>, base: int)
    requires
        a.describes(s, base),
    ensures
        a.n == s.len(),
        forall|j: int|
            0 <= j < s.len() && !is_nan(#[trigger] s[j]) ==> value(a.min) <= value(s[j]) <= value(a.max),
        (exists|j: int| 0 <= j < s.len() && !is_nan(#[trigger] s[j]) && value(s[j]) < value(0x7f80_0000)) ==> {
            &&& base <= a.min_pos < base + s.len()
            &&& s[a.min_pos - base] == a.min
            &&& !is_nan(a.min)
            &&& forall|j: int| 0 <= j < a.min_pos - base && !is_nan(#[trigger] s[j]) ==> value(a.min) < value(s[j])
        },
        (exists|j: int| 0 <= j < s.len() && !is_nan(#[trigger] s[j]) && value(s[j]) > value(0xff80_0000)) ==> {
            &&& base <= a.max_pos < base + s.len()
            &&& s[a.max_pos - base] == a.max
            &&& !is_nan(a.max)
            &&& forall|j: int| 0 <= j < a.max_pos - base && !is_nan(#[trigger] s[j]) ==> value(s[j]) < value(a.max)
        },
        (forall|j: int| 0 <= j < s.len() ==> is_nan(#[trigger] s[j]) || s[j] == 0x7f80_0000) ==> {
            &&& a.min == 0x7f80_0000
            &&& a.min_pos == (if s.len() > 0 && s[0] == 0x7f80_0000 {
                base
            } else {
                0
            })
        },
        (forall|j: int| 0 <= j < s.len() ==> is_nan(#[trigger] s[j]) || s[j] == 0xff80_0000) ==> {
            &&& a.max == 0xff80_0000
            &&& a.max_pos == (if s.len() > 0 && s[0] == 0xff80_0000 {
                base
            } else {
                0
            })
        },
{
    assert forall|j: int| 0 <= j < s.len() && !is_nan(#[trigger] s[j]) implies value(a.min) <= value(s[j]) <= value(
        a.max,
    ) by {
        law_order_is_numeric(s[j], a.min);
        law_order_is_numeric(a.max, s[j]);
    }
    if exists|j: int| 0 <= j < s.len() && !is_nan(#[trigger] s[j]) && value(s[j]) < value(0x7f80_0000) {
        let j = choose|j: int| 0 <= j < s.len() && !is_nan(#[trigger] s[j]) && value(s[j]) < value(0x7f80_0000);
        law_order_is_numeric(s[j], INFINITY);
        assert(less(s[j], INFINITY));
        let i = choose|i: int| #[trigger] first_min(s, i) && a.min == s[i] && a.min_pos == base + i;
        assert forall|k: int| 0 <= k < i && !is_nan(#[trigger] s[k]) implies value(a.min) < value(s[k]) by {
            law_order_is_numeric(a.min, s[k]);
        }
    }
    if exists|j: int| 0 <= j < s.len() && !is_nan(#[trigger] s[j]) && value(s[j]) > value(0xff80_0000) {
        let j = choose|j: int| 0 <= j < s.len() && !is_nan(#[trigger] s[j]) && value(s[j]) > value(0xff80_0000);
        law_order_is_numeric(NEG_INFINITY, s[j]);
        assert(less(NEG_INFINITY, s[j]));
        let i = choose|i: int| #[trigger] first_max(s, i) && a.max == s[i] && a.max_pos == base + i;
        assert forall|k: int| 0 <= k < i && !is_nan(#[trigger] s[k]) implies value(s[k]) < value(a.max) by {
            law_order_is_numeric(s[k], a.max);
        }
    }
}

/// The last sample of a run that has a sign, or -1 where none has.
proof fn lemma_last_signed(s: Seq<u32>) -> (k: int)
    ensures
        -1 <= k < s.len(),
        k < 0 ==> tail_sign(signs(s)) == 0,
        k >= 0 ==> sign_of(s[k]) != 0 && tail_sign(signs(s)) == sign_of(s[k]),
        forall|j: int| k < j < s.len() ==> sign_of(#[trigger] s[j]) == 0,
    decreases s.len(),
{
    if s.len() == 0 {
        -1
    } else if sign_of(s.last()) != 0 {
        s.len() - 1
    } else {
        let rest = s.drop_last();
        let k = lemma_last_signed(rest);
        assert forall|j: int| k < j < s.len() implies sign_of(#[trigger] s[j]) == 0 by {
            if j < s.len() - 1 {
                assert(rest[j] == s[j]);
            }
        }
        k
    }
}

/// The zero crossings count the changes of sign. An empty run has none. One sample more adds one
/// exactly where its number is on the other side of zero from the last number before it that is not
/// zero; what is no number counts as little as zero does.
pub proof fn law_a_crossing_is_a_change_of_sign(a: Agg, b: Agg, s: Seq<u32>, v: u32, base: int)
    requires
        a.describes(s, base),
        b.describes(s.push(v), base),
    ensures
        s.len() == 0 ==> a.zero_crossings == 0,
        (!is_nan(v) && exists|k: int|
            {
                &&& 0 <= k < s.len()
                &&& !is_nan(#[trigger] s[k])
                &&& (value(s[k]) < 0 && value(v) > 0) || (value(s[k]) > 0 && value(v) < 0)
                &&& forall|j: int| k < j < s.len() ==> is_nan(#[trigger] s[j]) || value(s[j]) == 0
            }) ==> b.zero_crossings == a.zero_crossings + 1,
        !(!is_nan(v) && exists|k: int|
            {
                &&& 0 <= k < s.len()
                &&& !is_nan(#[trigger] s[k])
                &&& (value(s[k]) < 0 && value(v) > 0) || (value(s[k]) > 0 && value(v) < 0)
                &&& forall|j: int| k < j < s.len() ==> is_nan(#[trigger] s[j]) || value(s[j]) == 0
            }) ==> b.zero_crossings == a.zero_crossings,
{
    let t = seq![v];
    assert(s.push(v) =~= s + t);
    lemma_crossings_concat(s, t);
    assert(t.drop_last() =~= Seq::<u32>::empty());
    assert(signs(t.drop_last()) =~= Seq::<int>::empty());
    assert(head_sign(signs(t)) == sign_of(v));
    assert(flips(signs(t)) == 0);
    let last = lemma_last_signed(s);
    assert forall|j: int| 0 <= j < s.len() implies (sign_of(#[trigger] s[j]) == 0 <==> is_nan(s[j]) || value(s[j]) == 0)
        && (sign_of(s[j]) == 1 <==> !is_nan(s[j]) && value(s[j]) > 0) && (sign_of(s[j]) == -1 <==> !is_nan(s[j])
        && value(s[j]) < 0) by {
        if !is_nan(s[j]) {
            law_order_is_numeric(s[j], s[j]);
        }
    }
    if !is_nan(v) {
        law_order_is_numeric(v, v);
    }
    if last >= 0 {
        assert(s[last] == s[last]);
    }
    if !is_nan(v) && exists|k: int|
        {
            &&& 0 <= k < s.len()
            &&& !is_nan(#[trigger] s[k])
            &&& (value(s[k]) < 0 && value(v) > 0) || (value(s[k]) > 0 && value(v) < 0)
            &&& forall|j: int| k < j < s.len() ==> is_nan(#[trigger] s[j]) || value(s[j]) == 0
        } {
        let k = choose|k: int|
            {
                &&& 0 <= k < s.len()
                &&& !is_nan(#[trigger] s[k])
                &&& (value(s[k]) < 0 && value(v) > 0) || (value(s[k]) > 0 && value(v) < 0)
                &&& forall|j: int| k < j < s.len() ==> is_nan(#[trigger] s[j]) || value(s[j]) == 0
            };
        assert(k == last);
    }
}

/// The value of a bracketed sum, where addition is exact as far as it goes.
proof fn lemma_exact_value<A: Fn(u64, u64) -> u64, L: Fn(u32) -> (u64, u64)>(
    ops: Arith<A, L>,
    squared: bool,
    t: Sum,
    r: u64,
    number: spec_fn(u64) -> int,
    limit: int,
    of: spec_fn(u32) -> int,
    size: spec_fn(u32) -> int,
)
    requires
        evaluates(ops, squared, t, r),
        number(0) == 0,
        forall|x: u64, y: u64, z: u64| #[trigger]
            call_ensures(ops.add, (x, y), z) && -limit <= number(x) + number(y) <= limit ==> number(z) == number(x)
                + number(y),
        forall|v: u32, p: (u64, u64)| #[trigger]
            call_ensures(ops.lift, (v,), p) ==> of(v) == (if squared {
                number(p.1)
            } else {
                number(p.0)
            }),
        forall|v: u32| -size(v) <= #[trigger] of(v) <= size(v),
        terms(t).fold_left(0int, |sum: int, v: u32| sum + size(v)) <= limit,
    ensures
        number(r) == terms(t).fold_left(0int, |sum: int, v: u32| sum + of(v)),
        -terms(t).fold_left(0int, |sum: int, v: u32| sum + size(v)) <= number(r) <= terms(t).fold_left(
            0int,
            |sum: int, v: u32| sum + size(v),
        ),
    decreases t,
{
    let plus_of = |sum: int, v: u32| sum + of(v);
    let plus_size = |sum: int, v: u32| sum + size(v);
    match t {
        Sum::Zero => {
            assert(terms(t).fold_left(0int, plus_of) == 0);
            assert(terms(t).fold_left(0int, plus_size) == 0);
        },
        Sum::Term(v) => {
            assert(terms(t) == seq![v]);
            reveal_with_fuel(Seq::fold_left, 2);
            assert(seq![v].drop_last() =~= Seq::<u32>::empty());
            assert(seq![v].fold_left(0int, plus_of) == of(v));
            assert(seq![v].fold_left(0int, plus_size) == size(v));
            if squared {
                let x = choose|x: u64| ops.lifts(v, x, r);
                assert(call_ensures(ops.lift, (v,), (x, r)));
            } else {
                let y = choose|y: u64| ops.lifts(v, r, y);
                assert(call_ensures(ops.lift, (v,), (r, y)));
            }
        },
        Sum::Plus(a, b) => {
            let (x, y): (u64, u64) = choose|x: u64, y: u64|
                evaluates(ops, squared, *a, x) && evaluates(ops, squared, *b, y) && #[trigger] call_ensures(
                    ops.add,
                    (x, y),
                    r,
                );
            lemma_fold_concat(terms(*a), terms(*b), of);
            lemma_fold_concat(terms(*a), terms(*b), size);
            lemma_sizes_add_up(terms(*a), of, size);
            lemma_sizes_add_up(terms(*b), of, size);
            lemma_exact_value(ops, squared, *a, x, number, limit, of, size);
            lemma_exact_value(ops, squared, *b, y, number, limit, of, size);
        },
    }
}

/// Sizes add up to no less than nothing.
proof fn lemma_sizes_add_up(s: Seq<u32>, of: spec_fn(u32) -> int, size: spec_fn(u32) -> int)
    requires
        forall|v: u32| -size(v) <= #[trigger] of(v) <= size(v),
    ensures
        s.fold_left(0int, |sum: int, v: u32| sum + size(v)) >= 0,
    decreases s.len(),
{
    let plus_size = |sum: int, v: u32| sum + size(v);
    if s.len() > 0 {
        lemma_sizes_add_up(s.drop_last(), of, size);
        assert(-size(s.last()) <= of(s.last()) <= size(s.last()));
        assert(s.fold_left(0int, plus_size) == plus_size(s.drop_last().fold_left(0int, plus_size), s.last()));
    }
}

/// The sum over a concatenation is the sum of the sums.
proof fn lemma_fold_concat(s: Seq<u32>, t: Seq<u32>, of: spec_fn(u32) -> int)
    ensures
        (s + t).fold_left(0int, |sum: int, v: u32| sum + of(v)) == s.fold_left(0int, |sum: int, v: u32| sum + of(v))
            + t.fold_left(0int, |sum: int, v: u32| sum + of(v)),
    decreases t.len(),
{
    let plus_one = |sum: int, v: u32| sum + of(v);
    if t.len() == 0 {
        assert(s + t =~= s);
        assert(t.fold_left(0int, plus_one) == 0);
    } else {
        lemma_fold_concat(s, t.drop_last(), of);
        assert((s + t).drop_last() =~= s + t.drop_last());
        assert((s + t).last() == t.last());
        assert((s + t).fold_left(0int, plus_one) == (s + t).drop_last().fold_left(0int, plus_one) + of(t.last()));
        assert(t.fold_left(0int, plus_one) == t.drop_last().fold_left(0int, plus_one) + of(t.last()));
    }
}

/// Where the arithmetic is exact, the sums are sums over the samples. `number` is what an accumulator stands
/// for, and addition is exact up to `limit`; `of` and `square` are what a sample and its square count, and
/// `size` is how large a sample is at most. The sizes and the squares together stay within the limit.
pub proof fn law_exact_sums_are_those_of_the_samples<A: Fn(u64, u64) -> u64, L: Fn(u32) -> (u64, u64)>(
    ops: Arith<A, L>,
    a: Agg,
    s: Seq<u32>,
    number: spec_fn(u64) -> int,
    limit: int,
    of: spec_fn(u32) -> int,
    size: spec_fn(u32) -> int,
    square: spec_fn(u32) -> int,
)
    requires
        a.totals(ops, s),
        number(0) == 0,
        forall|x: u64, y: u64, z: u64| #[trigger]
            call_ensures(ops.add, (x, y), z) && -limit <= number(x) + number(y) <= limit ==> number(z) == number(x)
                + number(y),
        forall|v: u32, p: (u64, u64)| #[trigger]
            call_ensures(ops.lift, (v,), p) ==> number(p.0) == of(v) && number(p.1) == square(v),
        forall|v: u32| -size(v) <= #[trigger] of(v) <= size(v),
        forall|v: u32| #[trigger] square(v) >= 0,
        s.fold_left(0int, |sum: int, v: u32| sum + size(v)) <= limit,
        s.fold_left(0int, |sum: int, v: u32| sum + square(v)) <= limit,
    ensures
        number(a.sum) == s.fold_left(0int, |sum: int, v: u32| sum + of(v)),
        number(a.sum_sq) == s.fold_left(0int, |sum: int, v: u32| sum + square(v)),
{
    let t = choose|t: Sum| terms(t) == s && #[trigger] evaluates(ops, false, t, a.sum);
    lemma_exact_value(ops, false, t, a.sum, number, limit, of, size);
    let u = choose|t: Sum| terms(t) == s && #[trigger] evaluates(ops, true, t, a.sum_sq);
    lemma_exact_value(ops, true, u, a.sum_sq, number, limit, square, square);
}

} // verus!
