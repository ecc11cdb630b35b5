//! The summary pyramid: precomputed aggregates of ever longer blocks of a sample buffer.
//!
//! A range query scans the raw samples of the unaligned head and tail and covers the leaf-aligned
//! middle with a logarithmic number of precomputed blocks. Its cost does not depend on the length
//! of the range, and its result is that of a direct scan.

use vstd::prelude::*;
use vstd::arithmetic::div_mod::{lemma_div_is_ordered, lemma_fundamental_div_mod, lemma_fundamental_div_mod_converse};
use vstd::arithmetic::mul::{lemma_mul_inequality, lemma_mul_is_associative};
use crate::agg::{
    first_max, first_min, law_an_aggregate_is_unique, law_combine_adds_the_sums,
    law_exact_sums_are_those_of_the_samples, law_merge_describes_concatenation,
    lemma_plus_terms, lemma_running_terms, plus, running, terms, Agg, Arith, Sum,
};
use crate::sample::{finite, is_nan, law_order_is_numeric, less, value, INFINITY, NEG_INFINITY};

verus! {

/// Number of samples per leaf block.
pub const LEAF: usize = 1024;

/// Number of child blocks that a parent block covers.
pub const FANOUT: usize = 8;

/// The number of samples that a full block of level `k` covers.
pub open spec fn width(k: nat) -> nat
    decreases k,
{
    if k == 0 {
        LEAF as nat
    } else {
        FANOUT as nat * width((k - 1) as nat)
    }
}

/// The samples of block `j` where blocks are `w` wide; the last one may be shorter.
pub open spec fn block(source: Seq<u32>, w: nat, j: int) -> Seq<u32> {
    source.subrange(j * w, block_end(source, w, j))
}

/// Where block `j` ends.
pub open spec fn block_end(source: Seq<u32>, w: nat, j: int) -> int {
    if (j + 1) * w < source.len() {
        (j + 1) * w
    } else {
        source.len() as int
    }
}

/// The number of leaves that a full block of level `k` covers.
pub open spec fn span(k: nat) -> nat
    decreases k,
{
    if k == 0 {
        1
    } else {
        FANOUT as nat * span((k - 1) as nat)
    }
}

/// The number of groups of `size` that `n` things make; the last one may be smaller.
pub open spec fn groups(n: nat, size: nat) -> nat {
    ((n + size - 1) / size as int) as nat
}

/// The number of blocks of level `k` over `n` samples. An empty buffer has one empty leaf.
pub open spec fn blocks_in(n: nat, k: nat) -> nat
    decreases k,
{
    if k > 0 {
        groups(blocks_in(n, (k - 1) as nat), FANOUT as nat)
    } else if n == 0 {
        1
    } else {
        groups(n, LEAF as nat)
    }
}

/// The number of levels from one of `blocks` blocks up to one of a single block.
pub open spec fn height_over(blocks: nat) -> nat
    decreases blocks,
{
    if blocks <= 1 {
        1
    } else {
        proof {
            assert(groups(blocks, FANOUT as nat) == ((blocks + 7) / 8) as nat);
        }
        1 + height_over(groups(blocks, FANOUT as nat))
    }
}

/// The number of levels of the pyramid over `n` samples.
pub open spec fn height(n: nat) -> nat {
    height_over(blocks_in(n, 0))
}

/// How the samples of block `j` of level `k` are added: those of a leaf one after the other, those
/// of a higher block child by child.
pub open spec fn block_sum(source: Seq<u32>, k: nat, j: int) -> Sum
    decreases k, 0int, 0int,
{
    if k == 0 {
        running(block(source, LEAF as nat, j))
    } else {
        group_sum(
            source,
            (k - 1) as nat,
            j * FANOUT,
            clamp((j + 1) * FANOUT, blocks_in(source.len(), (k - 1) as nat) as int),
        )
    }
}

/// How the blocks `lo..hi` of level `k` are added: one after the other.
pub open spec fn group_sum(source: Seq<u32>, k: nat, lo: int, hi: int) -> Sum
    decreases k, 1int, hi - lo,
{
    if hi <= lo + 1 {
        block_sum(source, k, lo)
    } else {
        plus(group_sum(source, k, lo, hi - 1), block_sum(source, k, hi - 1))
    }
}

/// `x`, but at most `n`.
pub open spec fn clamp(x: int, n: int) -> int {
    if x < n {
        x
    } else {
        n
    }
}

/// `level` holds the aggregate of each block of `source` of width `w`, in order.
pub open spec fn level_describes(source: Seq<u32>, w: nat, level: Seq<Agg>) -> bool {
    &&& level.len() > 0
    &&& (level.len() - 1) * w <= source.len()
    &&& level.len() * w >= source.len()
    &&& forall|j: int|
        0 <= j < level.len() ==> #[trigger] level[j].describes(block(source, w, j), j * w)
}

/// The sums of `level`, which is level `k`, are those of its blocks.
pub open spec fn level_sums<A: Fn(u64, u64) -> u64, L: Fn(u32) -> (u64, u64)>(
    ops: Arith<A, L>,
    source: Seq<u32>,
    k: nat,
    level: Seq<Agg>,
) -> bool {
    forall|j: int| 0 <= j < level.len() ==> #[trigger] level[j].adds_up(ops, block_sum(source, k, j))
}

/// A block covers at least one leaf.
pub proof fn lemma_span_pos(k: nat)
    ensures
        span(k) >= 1,
    decreases k,
{
    if k > 0 {
        lemma_span_pos((k - 1) as nat);
    }
}

proof fn lemma_width_pos(k: nat)
    ensures
        width(k) >= LEAF,
    decreases k,
{
    if k > 0 {
        lemma_width_pos((k - 1) as nat);
    }
}

/// The precomputed block tree over a sample buffer.
///
/// Building it is the only linear step of an analysis. A caller that keeps a buffer builds one
/// pyramid and makes a borrowing [`Analyzer`] for each query.
pub struct Pyramid {
    levels: Vec<Vec<Agg>>,
    n_samples: usize,
    source: Ghost<Seq<u32>>,
}

impl View for Pyramid {
    type V = Seq<u32>;

    /// The samples that the pyramid was built over.
    closed spec fn view(&self) -> Seq<u32> {
        self.source@
    }
}

impl Pyramid {
    /// Every block holds the aggregate of its samples.
    pub closed spec fn wf(self) -> bool {
        &&& self.n_samples == self@.len()
        &&& self.levels@.len() == height(self@.len())
        &&& forall|k: int|
            0 <= k < self.levels@.len() ==> level_describes(self@, width(k as nat), #[trigger] self.levels@[k]@)
        &&& forall|k: int|
            0 <= k < self.levels@.len() ==> (#[trigger] self.levels@[k])@.len() == blocks_in(self@.len(), k as nat)
    }

    /// The sums in the blocks were added with `ops`.
    pub closed spec fn summed<A: Fn(u64, u64) -> u64, L: Fn(u32) -> (u64, u64)>(self, ops: Arith<A, L>) -> bool {
        forall|k: int|
            0 <= k < self.levels@.len() ==> level_sums(ops, self@, k as nat, #[trigger] self.levels@[k]@)
    }

    /// Builds the summary pyramid over `samples`.
    pub fn build<A: Fn(u64, u64) -> u64, L: Fn(u32) -> (u64, u64)>(samples: &[u32], ops: &Arith<A, L>) -> (r: Pyramid)
        requires
            ops.total(),
        ensures
            r.wf(),
            r@ == samples@,
            r.summed(*ops),
    {
        let n_samples: usize = samples.len();
        let leaf: Vec<Agg> = Self::leaves(samples, ops);
        let mut levels: Vec<Vec<Agg>> = Vec::new();
        let mut top: usize = leaf.len();
        levels.push(leaf);
        let ghost source = samples@;
        while top > 1
            invariant
                ops.total(),
                source == samples@,
                source.len() == n_samples,
                levels@.len() > 0,
                top == levels@.last()@.len(),
                levels@.len() - 1 + height_over(top as nat) == height(source.len()),
                forall|k: int|
                    0 <= k < levels@.len() ==> level_describes(source, width(k as nat), #[trigger] levels@[k]@),
                forall|k: int|
                    0 <= k < levels@.len() ==> (#[trigger] levels@[k])@.len() == blocks_in(source.len(), k as nat),
                forall|k: int| 0 <= k < levels@.len() ==> level_sums(*ops, source, k as nat, #[trigger] levels@[k]@),
            decreases top,
        {
            let last: usize = levels.len() - 1;
            proof {
                lemma_width_pos(last as nat);
            }
            let parent: Vec<Agg> = Self::parents(&levels[last], ops, Ghost(source), Ghost(last as nat));
            top = parent.len();
            let ghost before = levels@;
            levels.push(parent);
            proof {
                assert(width((last + 1) as nat) == FANOUT as nat * width(last as nat));
                assert forall|k: int| 0 <= k < levels@.len() implies level_describes(
                    source,
                    width(k as nat),
                    #[trigger] levels@[k]@,
                ) by {
                    if k <= last {
                        assert(levels@[k] == before[k]);
                    }
                }
                assert forall|k: int| 0 <= k < levels@.len() implies level_sums(
                    *ops,
                    source,
                    k as nat,
                    #[trigger] levels@[k]@,
                ) by {
                    if k <= last {
                        assert(levels@[k] == before[k]);
                    }
                }
                assert forall|k: int| 0 <= k < levels@.len() implies (#[trigger] levels@[k])@.len() == blocks_in(
                    source.len(),
                    k as nat,
                ) by {
                    if k <= last {
                        assert(levels@[k] == before[k]);
                    }
                }
            }
        }
        Pyramid { levels, n_samples, source: Ghost(source) }
    }

    /// Folds each leaf block of `samples`. An empty buffer has one empty leaf.
    fn leaves<A: Fn(u64, u64) -> u64, L: Fn(u32) -> (u64, u64)>(samples: &[u32], ops: &Arith<A, L>) -> (r: Vec<Agg>)
        requires
            ops.total(),
        ensures
            level_describes(samples@, width(0), r@),
            r@.len() == blocks_in(samples@.len(), 0),
            level_sums(*ops, samples@, 0, r@),
    {
        let mut leaf: Vec<Agg> = Vec::new();
        let mut pos: usize = 0;
        let ghost source = samples@;
        while pos < samples.len()
            invariant
                ops.total(),
                source == samples@,
                pos <= samples@.len(),
                pos == (if leaf@.len() * LEAF < source.len() {
                    leaf@.len() * LEAF
                } else {
                    source.len() as int
                }),
                leaf@.len() > 0 ==> (leaf@.len() - 1) * LEAF < source.len(),
                forall|j: int|
                    0 <= j < leaf@.len() ==> #[trigger] leaf@[j].describes(block(source, LEAF as nat, j), j * LEAF),
                level_sums(*ops, source, 0, leaf@),
            decreases samples@.len() - pos,
        {
            let end: usize = if samples.len() - pos > LEAF {
                pos + LEAF
            } else {
                samples.len()
            };
            let part: &[u32] = vstd::slice::slice_subrange(samples, pos, end);
            let agg: Agg = Agg::from_samples(part, pos as u64, ops);
            proof {
                assert(part@ == block(source, LEAF as nat, leaf@.len() as int));
            }
            leaf.push(agg);
            pos = end;
        }
        if leaf.len() == 0 {
            let agg: Agg = Agg::from_samples(samples, 0, ops);
            proof {
                assert(source =~= block(source, LEAF as nat, 0));
            }
            leaf.push(agg);
        }
        leaf
    }

    /// Combines each group of children, which are the blocks of level `k`, into their parent.
    fn parents<A: Fn(u64, u64) -> u64, L: Fn(u32) -> (u64, u64)>(
        child: &Vec<Agg>,
        ops: &Arith<A, L>,
        Ghost(source): Ghost<Seq<u32>>,
        Ghost(k): Ghost<nat>,
    ) -> (r: Vec<Agg>)
        requires
            ops.total(),
            source.len() <= usize::MAX,
            child@.len() > 1,
            child@.len() == blocks_in(source.len(), k),
            level_describes(source, width(k), child@),
            level_sums(*ops, source, k, child@),
        ensures
            0 < r@.len() < child@.len(),
            r@.len() == groups(child@.len(), FANOUT as nat),
            r@.len() == blocks_in(source.len(), k + 1),
            level_describes(source, width(k + 1), r@),
            level_sums(*ops, source, k + 1, r@),
    {
        let mut parent: Vec<Agg> = Vec::new();
        let mut i: usize = 0;
        let ghost w = width(k);
        let ghost v = width(k + 1);
        proof {
            lemma_width_pos(k);
            assert(v == FANOUT as nat * w);
        }
        while i < child.len()
            invariant
                ops.total(),
                w > 0,
                w == width(k),
                v == FANOUT as nat * w,
                source.len() <= usize::MAX,
                child@.len() > 1,
                child@.len() == blocks_in(source.len(), k),
                level_describes(source, w, child@),
                level_sums(*ops, source, k, child@),
                i <= child@.len(),
                i == (if parent@.len() * FANOUT < child@.len() {
                    parent@.len() * FANOUT
                } else {
                    child@.len() as int
                }),
                parent@.len() > 0 ==> (parent@.len() - 1) * FANOUT < child@.len(),
                forall|j: int|
                    0 <= j < parent@.len() ==> #[trigger] parent@[j].describes(block(source, v, j), j * v),
                level_sums(*ops, source, k + 1, parent@),
            decreases child@.len() - i,
        {
            let end: usize = if child.len() - i > FANOUT {
                i + FANOUT
            } else {
                child.len()
            };
            let mut acc: Agg = child[i];
            let mut c: usize = i + 1;
            let ghost from = i * w;
            proof {
                lemma_block_bounds(source, w, child@, i as int);
                assert(child@[i as int].describes(block(source, w, i as int), i * w));
                assert(child@[i as int].adds_up(*ops, block_sum(source, k, i as int)));
            }
            while c < end
                invariant
                    ops.total(),
                    w > 0,
                    source.len() <= usize::MAX,
                    level_describes(source, w, child@),
                    level_sums(*ops, source, k, child@),
                    i < c <= end <= child@.len(),
                    from == i * w,
                    0 <= from <= block_end(source, w, c - 1) <= source.len(),
                    acc.describes(source.subrange(from, block_end(source, w, c - 1)), from),
                    acc.adds_up(*ops, group_sum(source, k, i as int, c as int)),
                decreases end - c,
            {
                let ghost so_far = source.subrange(from, c * w);
                let ghost t = block(source, w, c as int);
                proof {
                    lemma_block_bounds(source, w, child@, c as int);
                    lemma_block_bounds(source, w, child@, c - 1);
                    assert(block_end(source, w, c - 1) == c * w);
                    assert(so_far.len() == c * w - from);
                    assert(so_far + t =~= source.subrange(from, block_end(source, w, c as int)));
                    assert(child@[c as int].describes(t, c * w));
                    law_merge_describes_concatenation(acc, child@[c as int], so_far, t, from, 0, 0);
                }
                let next: Agg = acc.combine(&child[c], ops);
                proof {
                    law_merge_describes_concatenation(acc, child@[c as int], so_far, t, from, next.sum, next.sum_sq);
                    assert(child@[c as int].adds_up(*ops, block_sum(source, k, c as int)));
                    law_combine_adds_the_sums(
                        *ops,
                        acc,
                        child@[c as int],
                        next,
                        group_sum(source, k, i as int, c as int),
                        block_sum(source, k, c as int),
                    );
                }
                acc = next;
                c = c + 1;
            }
            proof {
                let j = parent@.len() as int;
                lemma_parent_block(source, w, child@.len() as int, j, end as int);
                assert(source.subrange(from, block_end(source, w, end - 1)) == block(source, v, j));
                assert(block_sum(source, k + 1, j) == group_sum(source, k, i as int, end as int));
                assert(from == j * v);
                assert(acc.describes(block(source, v, j), j * v));
            }
            let ghost before = parent@;
            parent.push(acc);
            proof {
                assert forall|j: int| 0 <= j < parent@.len() implies #[trigger] parent@[j].describes(
                    block(source, v, j),
                    j * v,
                ) by {
                    if j < before.len() {
                        assert(parent@[j] == before[j]);
                        assert(before[j].describes(block(source, v, j), j * v));
                    }
                }
            }
            i = end;
        }
        proof {
            lemma_parent_cover(source, w, child@.len() as int, parent@.len() as int);
        }
        parent
    }

    /// Number of samples the pyramid was built over.
    pub fn len(&self) -> (r: usize)
        requires
            self.wf(),
        ensures
            r == self@.len(),
    {
        self.n_samples
    }

    /// Whether the pyramid was built over an empty buffer.
    pub fn is_empty(&self) -> (r: bool)
        requires
            self.wf(),
        ensures
            r == (self@.len() == 0),
    {
        self.n_samples == 0
    }
}

/// Block `j` of a level lies inside the source, and every block but the last is full.
proof fn lemma_block_bounds(source: Seq<u32>, w: nat, level: Seq<Agg>, j: int)
    requires
        w > 0,
        level_describes(source, w, level),
        0 <= j < level.len(),
    ensures
        0 <= j * w <= block_end(source, w, j) <= source.len(),
        j + 1 < level.len() ==> block_end(source, w, j) == (j + 1) * w,
{
    lemma_mul_inequality(j, level.len() - 1, w as int);
    assert((j + 1) * w == j * w + w) by (nonlinear_arith);
    assert(j * w >= 0) by (nonlinear_arith)
        requires
            j >= 0,
            w > 0,
    ;
    if j + 1 < level.len() {
        lemma_mul_inequality(j + 1, level.len() - 1, w as int);
    }
}

/// The children of parent block `j` end where it ends.
proof fn lemma_parent_block(source: Seq<u32>, w: nat, children: int, j: int, end: int)
    requires
        w > 0,
        j >= 0,
        j * FANOUT < children,
        end == (if (j + 1) * FANOUT < children {
            (j + 1) * FANOUT
        } else {
            children
        }),
        (children - 1) * w <= source.len(),
        children * w >= source.len(),
    ensures
        (j * FANOUT) * w == j * (FANOUT as nat * w),
        block_end(source, w, end - 1) == block_end(source, FANOUT as nat * w, j),
{
    lemma_mul_is_associative(j, FANOUT as int, w as int);
    lemma_mul_is_associative(j + 1, FANOUT as int, w as int);
    if (j + 1) * FANOUT < children {
        lemma_mul_inequality((j + 1) * FANOUT, children - 1, w as int);
    } else {
        lemma_mul_inequality(children, (j + 1) * FANOUT, w as int);
    }
}

/// Enough parents for all children cover the source, and no parent starts behind its end.
proof fn lemma_parent_cover(source: Seq<u32>, w: nat, children: int, parents: int)
    requires
        w > 0,
        children >= 1,
        parents >= 1,
        parents * FANOUT >= children,
        (parents - 1) * FANOUT < children,
        (children - 1) * w <= source.len(),
        children * w >= source.len(),
    ensures
        parents * (FANOUT as nat * w) >= source.len(),
        (parents - 1) * (FANOUT as nat * w) <= source.len(),
{
    lemma_mul_is_associative(parents, FANOUT as int, w as int);
    lemma_mul_is_associative(parents - 1, FANOUT as int, w as int);
    lemma_mul_inequality(children, parents * FANOUT, w as int);
    lemma_mul_inequality((parents - 1) * FANOUT, children - 1, w as int);
}

/// A pyramid that an [`Analyzer`] owns or borrows from a longer-lived cache.
enum PyramidRef<'a> {
    Owned(Pyramid),
    Borrowed(&'a Pyramid),
}

impl<'a> PyramidRef<'a> {
    spec fn pyramid(self) -> Pyramid {
        match self {
            PyramidRef::Owned(p) => p,
            PyramidRef::Borrowed(p) => *p,
        }
    }

    fn levels(&self) -> (r: &Vec<Vec<Agg>>)
        ensures
            *r == self.pyramid().levels,
    {
        match self {
            PyramidRef::Owned(p) => &p.levels,
            PyramidRef::Borrowed(p) => &p.levels,
        }
    }
}

/// An analyzer over a borrowed sample buffer with a summary pyramid.
pub struct Analyzer<'a> {
    samples: &'a [u32],
    pyramid: PyramidRef<'a>,
}

/// The first leaf that starts at or after sample `start`.
pub open spec fn first_leaf(start: int) -> int {
    (start + LEAF - 1) / LEAF as int
}

/// The samples `start..end` as a range query reads them: whole leaves from the pyramid's `source`,
/// the rest from the buffer. Where the two agree it is the range of the buffer.
pub open spec fn spliced(samples: Seq<u32>, source: Seq<u32>, start: int, end: int) -> Seq<u32> {
    Seq::new(
        (end - start) as nat,
        |i: int|
            if first_leaf(start) * LEAF <= start + i < (end / LEAF as int) * LEAF {
                source[start + i]
            } else {
                samples[start + i]
            },
    )
}

/// The highest level, from `k` on, whose block at leaf `i` is aligned and ends by leaf `end`, in a
/// pyramid of `levels` levels.
pub open spec fn grown(levels: nat, i: int, end: int, k: nat) -> nat
    decreases levels - k,
{
    if k + 1 < levels && i + span(k + 1) <= end && i % span(k + 1) as int == 0 {
        grown(levels, i, end, k + 1)
    } else {
        k
    }
}

/// The blocks that cover the leaves `i..end`, each with its level and its number in that level: from
/// left to right the coarsest that fits.
pub open spec fn cover(levels: nat, i: int, end: int) -> Seq<(nat, int)>
    decreases (if i < end {
        end - i
    } else {
        0
    }),
{
    if i >= end {
        Seq::empty()
    } else {
        let k = grown(levels, i, end, 0);
        proof {
            lemma_span_pos(k);
        }
        seq![(k, i / span(k) as int)] + cover(levels, i + span(k), end)
    }
}

/// How `blocks` are added to `t`: one after the other.
pub open spec fn stitched(source: Seq<u32>, t: Sum, blocks: Seq<(nat, int)>) -> Sum
    decreases blocks.len(),
{
    if blocks.len() == 0 {
        t
    } else {
        plus(stitched(source, t, blocks.drop_last()), block_sum(source, blocks.last().0, blocks.last().1))
    }
}

/// The blocks that a query of `start..end` takes from a pyramid over `n` samples.
pub open spec fn blocks_of(n: nat, start: int, end: int) -> Seq<(nat, int)> {
    cover(height(n), first_leaf(start), end / LEAF as int)
}

/// How the samples of `start..end` are added. Those of the head and of the tail come one after the
/// other from the buffer, and the leaves between them come in blocks of the pyramid's `source`.
/// Without a whole leaf all come from the buffer.
pub open spec fn range_sum(samples: Seq<u32>, source: Seq<u32>, start: int, end: int) -> Sum {
    let first = first_leaf(start);
    let last = end / LEAF as int;
    if start >= end {
        Sum::Zero
    } else if first >= last {
        running(samples.subrange(start, end))
    } else {
        plus(
            stitched(source, running(samples.subrange(start, first * LEAF)), blocks_of(source.len(), start, end)),
            running(samples.subrange(last * LEAF, end)),
        )
    }
}

/// `v` is the minimum of `s`; infinity where `s` has no number below it.
pub open spec fn is_min(s: Seq<u32>, v: u32) -> bool {
    ||| exists|i: int| #[trigger] first_min(s, i) && v == s[i]
    ||| (forall|j: int| 0 <= j < s.len() ==> !less(#[trigger] s[j], INFINITY)) && v == INFINITY
}

/// `v` is the maximum of `s`; negative infinity where `s` has no number above it.
pub open spec fn is_max(s: Seq<u32>, v: u32) -> bool {
    ||| exists|i: int| #[trigger] first_max(s, i) && v == s[i]
    ||| (forall|j: int| 0 <= j < s.len() ==> !less(NEG_INFINITY, #[trigger] s[j])) && v == NEG_INFINITY
}

proof fn lemma_one_min(s: Seq<u32>, v: u32, w: u32)
    requires
        is_min(s, v),
        is_min(s, w),
    ensures
        v == w,
{
    if exists|i: int| #[trigger] first_min(s, i) {
        let i = choose|i: int| #[trigger] first_min(s, i);
        assert forall|j: int| #[trigger] first_min(s, j) implies i == j by {}
    }
}

proof fn lemma_one_max(s: Seq<u32>, v: u32, w: u32)
    requires
        is_max(s, v),
        is_max(s, w),
    ensures
        v == w,
{
    if exists|i: int| #[trigger] first_max(s, i) {
        let i = choose|i: int| #[trigger] first_max(s, i);
        assert forall|j: int| #[trigger] first_max(s, j) implies i == j by {}
    }
}

/// Where bin `b` of `bins` over `start..end` begins. Bin `b` ends where the next one begins.
pub open spec fn bin_edge(start: int, end: int, bins: int, b: int) -> int {
    start + (end - start) * b / bins
}

/// `pair` is the minimum and maximum of bin `b` of the samples `lo..hi`, or zeros where the bin has
/// no samples.
pub open spec fn envelope_bin(samples: Seq<u32>, lo: int, hi: int, bins: int, b: int, pair: (u32, u32)) -> bool {
    let bs = bin_edge(lo, hi, bins, b);
    let be = bin_edge(lo, hi, bins, b + 1);
    if lo < hi && bs < be {
        is_min(samples.subrange(bs, be), pair.0) && is_max(samples.subrange(bs, be), pair.1)
    } else {
        pair == (0u32, 0u32)
    }
}

impl<'a> Analyzer<'a> {
    /// The sample buffer.
    pub closed spec fn samples(self) -> Seq<u32> {
        self.samples@
    }

    /// The pyramid.
    pub closed spec fn tree(self) -> Pyramid {
        self.pyramid.pyramid()
    }

    /// The pyramid is well-formed and as long as the buffer.
    pub open spec fn wf(self) -> bool {
        &&& self.tree().wf()
        &&& self.tree()@.len() == self.samples().len()
    }

    /// The samples that a query of `start..end` covers, with both clamped to the buffer.
    pub open spec fn run(self, start: int, end: int) -> Seq<u32> {
        let n = self.samples().len() as int;
        if clamp(start, n) < clamp(end, n) {
            spliced(self.samples(), self.tree()@, clamp(start, n), clamp(end, n))
        } else {
            Seq::empty()
        }
    }

    /// How a query of `start..end` adds the samples, with both clamped to the buffer.
    pub open spec fn bracketing(self, start: int, end: int) -> Sum {
        let n = self.samples().len() as int;
        range_sum(self.samples(), self.tree()@, clamp(start, n), clamp(end, n))
    }

    /// With an up-to-date pyramid a query covers the range of the buffer itself.
    pub proof fn law_run_is_the_range(self, start: int, end: int)
        requires
            self.tree()@ == self.samples(),
            0 <= start <= end <= self.samples().len(),
        ensures
            self.run(start, end) == self.samples().subrange(start, end),
    {
        assert(self.run(start, end) =~= self.samples().subrange(start, end));
    }

    /// With an up-to-date pyramid the bins of a waveform are those of the buffer.
    pub proof fn law_bins_are_those_of_the_buffer(self, start: int, end: int, bins: int, b: int, pair: (u32, u32))
        requires
            self.tree()@ == self.samples(),
            0 <= start,
            0 <= end,
            0 <= b < bins,
            self.bin_is(start, end, bins, b, pair),
        ensures
            envelope_bin(
                self.samples(),
                clamp(start, self.samples().len() as int),
                clamp(end, self.samples().len() as int),
                bins,
                b,
                pair,
            ),
    {
        let lo = clamp(start, self.samples().len() as int);
        let hi = clamp(end, self.samples().len() as int);
        if lo < hi {
            lemma_bin_edges(lo, hi, bins, b);
            self.law_run_is_the_range(bin_edge(lo, hi, bins, b), bin_edge(lo, hi, bins, b + 1));
        }
    }

    /// A borrowed pyramid answers as an owned one does: two analyzers of the same samples with
    /// pyramids over the same samples give the same aggregate of every range, where each operation of
    /// `ops` has one result, and the same bins of every waveform. `a` and `b` stand for what
    /// [`Analyzer::range`] returns, `p` and `q` for a bin that [`Analyzer::waveform`] returns.
    pub proof fn law_a_borrowed_pyramid_answers_alike<A: Fn(u64, u64) -> u64, L: Fn(u32) -> (u64, u64)>(
        self,
        other: Analyzer,
        ops: Arith<A, L>,
        start: int,
        end: int,
        a: Agg,
        b: Agg,
        bins: int,
        i: int,
        p: (u32, u32),
        q: (u32, u32),
    )
        requires
            self.samples() == other.samples(),
            self.tree()@ == other.tree()@,
            a.describes(self.run(start, end), clamp(start, self.samples().len() as int)),
            b.describes(other.run(start, end), clamp(start, other.samples().len() as int)),
            a.adds_up(ops, self.bracketing(start, end)),
            b.adds_up(ops, other.bracketing(start, end)),
            ops.functional(),
            self.bin_is(start, end, bins, i, p),
            other.bin_is(start, end, bins, i, q),
        ensures
            a == b,
            p == q,
    {
        let n = self.samples().len() as int;
        law_an_aggregate_is_unique(ops, a, b, self.run(start, end), clamp(start, n), self.bracketing(start, end));
        let lo = clamp(start, n);
        let hi = clamp(end, n);
        let part = self.run(bin_edge(lo, hi, bins, i), bin_edge(lo, hi, bins, i + 1));
        if lo < hi && bin_edge(lo, hi, bins, i) < bin_edge(lo, hi, bins, i + 1) {
            assert(is_min(part, p.0) && is_min(part, q.0));
            assert(is_max(part, p.1) && is_max(part, q.1));
            lemma_one_min(part, p.0, q.0);
            lemma_one_max(part, p.1, q.1);
        }
    }

    /// Builds the summary pyramid over `samples` and owns it.
    pub fn new<A: Fn(u64, u64) -> u64, L: Fn(u32) -> (u64, u64)>(samples: &'a [u32], ops: &Arith<A, L>) -> (r: Self)
        requires
            ops.total(),
        ensures
            r.wf(),
            r.samples() == samples@,
            r.tree()@ == samples@,
            r.tree().summed(*ops),
    {
        Analyzer { samples, pyramid: PyramidRef::Owned(Pyramid::build(samples, ops)) }
    }

    /// Analyzes `samples` with a pyramid already built over them.
    ///
    /// A pyramid of another length is ruled out. One of the right length over other contents is
    /// not noticed: the whole leaves of a query then speak of the pyramid's samples.
    pub fn with_pyramid(samples: &'a [u32], pyramid: &'a Pyramid) -> (r: Self)
        requires
            pyramid.wf(),
            pyramid@.len() == samples@.len(),
        ensures
            r.wf(),
            r.samples() == samples@,
            r.tree() == *pyramid,
    {
        Analyzer { samples, pyramid: PyramidRef::Borrowed(pyramid) }
    }

    /// Total number of samples.
    pub fn len(&self) -> (r: usize)
        ensures
            r == self.samples().len(),
    {
        self.samples.len()
    }

    /// Whether there are no samples.
    pub fn is_empty(&self) -> (r: bool)
        ensures
            r == (self.samples().len() == 0),
    {
        self.samples.len() == 0
    }

    /// The aggregate over the half-open range `start..end`, clamped to the buffer. A reversed or
    /// empty range gives the identity.
    pub fn range<A: Fn(u64, u64) -> u64, L: Fn(u32) -> (u64, u64)>(
        &self,
        start: usize,
        end: usize,
        ops: &Arith<A, L>,
    ) -> (r: Agg)
        requires
            self.wf(),
            ops.total(),
        ensures
            r.describes(self.run(start as int, end as int), clamp(start as int, self.samples().len() as int)),
            self.tree().summed(*ops) ==> r.adds_up(*ops, self.bracketing(start as int, end as int)),
            start >= end || start >= self.samples().len() ==> r == Agg::spec_identity(),
    {
        let n: usize = self.samples.len();
        let start: usize = if start < n {
            start
        } else {
            n
        };
        let end: usize = if end < n {
            end
        } else {
            n
        };
        if start >= end {
            return Agg::identity();
        }
        // The whole leaves inside the range.
        let first: usize = if start % LEAF == 0 {
            start / LEAF
        } else {
            start / LEAF + 1
        };
        let last: usize = end / LEAF;
        proof {
            assert(first == first_leaf(start as int));
        }
        if first >= last {
            let part: &[u32] = vstd::slice::slice_subrange(self.samples, start, end);
            proof {
                assert(part@ =~= spliced(self.samples(), self.tree()@, start as int, end as int));
            }
            return Agg::from_samples(part, start as u64, ops);
        }
        self.across(start, end, first, last, ops)
    }

    /// The aggregate over a range with the whole leaves `first..last` inside it.
    fn across<A: Fn(u64, u64) -> u64, L: Fn(u32) -> (u64, u64)>(
        &self,
        start: usize,
        end: usize,
        first: usize,
        last: usize,
        ops: &Arith<A, L>,
    ) -> (r: Agg)
        requires
            self.wf(),
            ops.total(),
            end <= self.samples().len(),
            first == first_leaf(start as int),
            last == end / LEAF,
            first < last,
        ensures
            r.describes(spliced(self.samples(), self.tree()@, start as int, end as int), start as int),
            self.tree().summed(*ops) ==> r.adds_up(
                *ops,
                range_sum(self.samples(), self.tree()@, start as int, end as int),
            ),
    {
        let ghost source = self.tree()@;
        let ghost run = spliced(self.samples(), source, start as int, end as int);
        let head: &[u32] = vstd::slice::slice_subrange(self.samples, start, first * LEAF);
        let tail: &[u32] = vstd::slice::slice_subrange(self.samples, last * LEAF, end);
        let acc: Agg = Agg::from_samples(head, start as u64, ops);
        let mid: Agg = self.combine_aligned(acc, first, last, ops, Ghost(head@), Ghost(start as int));
        let rest: Agg = Agg::from_samples(tail, (last * LEAF) as u64, ops);
        let ghost covered = head@ + source.subrange(first * LEAF, last * LEAF);
        proof {
            assert(covered + tail@ =~= run);
            law_merge_describes_concatenation(mid, rest, covered, tail@, start as int, 0, 0);
        }
        let r: Agg = mid.combine(&rest, ops);
        proof {
            law_merge_describes_concatenation(mid, rest, covered, tail@, start as int, r.sum, r.sum_sq);
            if self.tree().summed(*ops) {
                law_combine_adds_the_sums(
                    *ops,
                    mid,
                    rest,
                    r,
                    stitched(source, running(head@), blocks_of(source.len(), start as int, end as int)),
                    running(tail@),
                );
            }
        }
        r
    }

    /// Extends `acc` over the leaves `start_leaf..end_leaf` with the coarsest blocks that fit.
    fn combine_aligned<A: Fn(u64, u64) -> u64, L: Fn(u32) -> (u64, u64)>(
        &self,
        acc: Agg,
        start_leaf: usize,
        end_leaf: usize,
        ops: &Arith<A, L>,
        Ghost(prefix): Ghost<Seq<u32>>,
        Ghost(base): Ghost<int>,
    ) -> (r: Agg)
        requires
            self.wf(),
            ops.total(),
            start_leaf <= end_leaf,
            end_leaf * LEAF <= self.samples().len(),
            0 <= base,
            base + prefix.len() == start_leaf * LEAF,
            acc.describes(prefix, base),
            acc.adds_up(*ops, running(prefix)),
        ensures
            r.describes(prefix + self.tree()@.subrange(start_leaf * LEAF, end_leaf * LEAF), base),
            self.tree().summed(*ops) ==> r.adds_up(
                *ops,
                stitched(
                    self.tree()@,
                    running(prefix),
                    cover(height(self.tree()@.len()), start_leaf as int, end_leaf as int),
                ),
            ),
    {
        let levels: &Vec<Vec<Agg>> = self.pyramid.levels();
        let ghost source = self.tree()@;
        let ghost h = height(source.len());
        let ghost whole = cover(h, start_leaf as int, end_leaf as int);
        let ghost mut done: Seq<(nat, int)> = Seq::empty();
        let ghost from = start_leaf * LEAF;
        let mut acc: Agg = acc;
        let mut i: usize = start_leaf;
        proof {
            assert(prefix + source.subrange(from, i * LEAF) =~= prefix);
            assert(done + whole =~= whole);
        }
        while i < end_leaf
            invariant
                self.wf(),
                ops.total(),
                source == self.tree()@,
                *levels == self.tree().levels,
                h == height(source.len()),
                start_leaf <= i <= end_leaf,
                end_leaf * LEAF <= source.len() <= usize::MAX,
                0 <= base,
                base + prefix.len() == start_leaf * LEAF,
                from == start_leaf * LEAF,
                acc.describes(prefix + source.subrange(from, i * LEAF), base),
                done + cover(h, i as int, end_leaf as int) == whole,
                self.tree().summed(*ops) ==> acc.adds_up(*ops, stitched(source, running(prefix), done)),
            decreases end_leaf - i,
        {
            let mut level: usize = 0;
            let mut leaves: usize = 1;
            proof {
                assert(width(0) == LEAF);
            }
            while level < levels.len() - 1 && leaves <= (end_leaf - i) / FANOUT && i % (leaves * FANOUT) == 0
                invariant
                    *levels == self.tree().levels,
                    self.wf(),
                    h == levels@.len(),
                    i < end_leaf,
                    level < levels@.len(),
                    1 <= leaves <= end_leaf - i,
                    i % leaves == 0,
                    leaves == span(level as nat),
                    width(level as nat) == leaves * LEAF,
                    grown(h, i as int, end_leaf as int, level as nat) == grown(h, i as int, end_leaf as int, 0),
                decreases levels@.len() - level,
            {
                proof {
                    assert(width((level + 1) as nat) == FANOUT as nat * width(level as nat));
                    assert(span((level + 1) as nat) == FANOUT as nat * span(level as nat));
                }
                level = level + 1;
                leaves = leaves * FANOUT;
            }
            let j: usize = i / leaves;
            let ghost w = width(level as nat);
            let ghost s = prefix + source.subrange(from, i * LEAF);
            let ghost t = block(source, w, j as int);
            let ghost b = levels@[level as int]@[j as int];
            proof {
                assert(span((level + 1) as nat) == FANOUT as nat * span(level as nat));
                assert(level == grown(h, i as int, end_leaf as int, 0));
                assert(level_describes(source, width(level as nat), levels@[level as int]@));
                lemma_aligned_block(source, w, levels@[level as int]@, i as int, leaves as int);
                assert(t =~= source.subrange(i * LEAF, (i + leaves) * LEAF));
                assert(s + t =~= prefix + source.subrange(from, (i + leaves) * LEAF));
                assert(b.describes(t, j * w));
                law_merge_describes_concatenation(acc, b, s, t, base, 0, 0);
            }
            let next: Agg = acc.combine(&levels[level][j], ops);
            proof {
                law_merge_describes_concatenation(acc, b, s, t, base, next.sum, next.sum_sq);
                let more = done.push((level as nat, j as int));
                assert(more.drop_last() =~= done);
                if self.tree().summed(*ops) {
                    assert(level_sums(*ops, source, level as nat, levels@[level as int]@));
                    law_combine_adds_the_sums(
                        *ops,
                        acc,
                        b,
                        next,
                        stitched(source, running(prefix), done),
                        block_sum(source, level as nat, j as int),
                    );
                }
                assert(more + cover(h, (i + leaves) as int, end_leaf as int) =~= whole);
                done = more;
            }
            acc = next;
            i = i + leaves;
        }
        proof {
            assert(done =~= whole);
        }
        acc
    }

    /// The minimum and maximum of each of `bins` equal parts of `start..end`: what a waveform view
    /// draws. A bin without samples reports zero for both.
    pub fn waveform<A: Fn(u64, u64) -> u64, L: Fn(u32) -> (u64, u64)>(
        &self,
        start: usize,
        end: usize,
        bins: usize,
        ops: &Arith<A, L>,
    ) -> (r: Vec<(u32, u32)>)
        requires
            self.wf(),
            ops.total(),
        ensures
            r@.len() == bins,
            forall|b: int| 0 <= b < bins ==> self.bin_is(start as int, end as int, bins as int, b, #[trigger] r@[b]),
    {
        let n: usize = self.samples.len();
        let lo: usize = if start < n {
            start
        } else {
            n
        };
        let hi: usize = if end < n {
            end
        } else {
            n
        };
        let mut out: Vec<(u32, u32)> = Vec::new();
        let mut b: usize = 0;
        while b < bins
            invariant
                self.wf(),
                ops.total(),
                lo == clamp(start as int, self.samples().len() as int),
                hi == clamp(end as int, self.samples().len() as int),
                b <= bins,
                out@.len() == b,
                forall|k: int|
                    0 <= k < b ==> self.bin_is(start as int, end as int, bins as int, k, #[trigger] out@[k]),
            decreases bins - b,
        {
            if lo >= hi {
                out.push((0, 0));
            } else {
                let span: usize = hi - lo;
                proof {
                    lemma_bin_edges(lo as int, hi as int, bins as int, b as int);
                    lemma_wide_product(span, b, bins);
                }
                let bs: usize = lo + ((span as u128 * b as u128) / bins as u128) as usize;
                let be: usize = lo + ((span as u128 * (b as u128 + 1)) / bins as u128) as usize;
                if bs >= be {
                    out.push((0, 0));
                } else {
                    let a: Agg = self.range(bs, be, ops);
                    out.push((a.min, a.max));
                }
            }
            b = b + 1;
        }
        out
    }

    /// `pair` is the minimum and maximum of bin `b`.
    pub open spec fn bin_is(self, start: int, end: int, bins: int, b: int, pair: (u32, u32)) -> bool {
        let n = self.samples().len() as int;
        let lo = clamp(start, n);
        let hi = clamp(end, n);
        let bs = bin_edge(lo, hi, bins, b);
        let be = bin_edge(lo, hi, bins, b + 1);
        if lo < hi && bs < be {
            is_min(self.run(bs, be), pair.0) && is_max(self.run(bs, be), pair.1)
        } else {
            pair == (0u32, 0u32)
        }
    }
}

/// A block that starts at leaf `i` and spans `span` leaves is in its level, and full.
proof fn lemma_aligned_block(source: Seq<u32>, w: nat, level: Seq<Agg>, i: int, span: int)
    requires
        level_describes(source, w, level),
        span >= 1,
        i >= 0,
        i % span == 0,
        w == span * LEAF,
        (i + span) * LEAF <= source.len(),
    ensures
        0 <= i / span < level.len(),
        (i / span) * w == i * LEAF,
        block_end(source, w, i / span) == (i + span) * LEAF,
{
    let j = i / span;
    lemma_fundamental_div_mod(i, span);
    assert(j >= 0) by (nonlinear_arith)
        requires
            j == i / span,
            i >= 0,
            span >= 1,
    ;
    assert(j * w == i * LEAF) by (nonlinear_arith)
        requires
            i == span * j,
            w == span * LEAF,
    ;
    assert((j + 1) * w == (i + span) * LEAF) by (nonlinear_arith)
        requires
            j * w == i * LEAF,
            w == span * LEAF,
    ;
    if j >= level.len() {
        lemma_mul_inequality(level.len() as int, j, w as int);
    }
}

/// The edges of a bin lie in the range and in order.
pub proof fn lemma_bin_edges(start: int, end: int, bins: int, b: int)
    requires
        start <= end,
        0 <= b < bins,
    ensures
        start <= bin_edge(start, end, bins, b) <= bin_edge(start, end, bins, b + 1) <= end,
        bin_edge(start, end, bins, 0) == start,
        bin_edge(start, end, bins, bins) == end,
{
    let span = end - start;
    assert(0 <= span * b <= span * (b + 1) <= span * bins) by (nonlinear_arith)
        requires
            span >= 0,
            0 <= b < bins,
    ;
    lemma_div_is_ordered(0, span * b, bins);
    lemma_div_is_ordered(span * b, span * (b + 1), bins);
    lemma_div_is_ordered(span * (b + 1), span * bins, bins);
    lemma_fundamental_div_mod_converse(span * bins, bins, span, 0);
    lemma_fundamental_div_mod_converse(0, bins, 0, 0);
}

/// The product of two machine words fits in a double one.
proof fn lemma_wide_product(span: usize, b: usize, bins: usize)
    requires
        b < bins,
    ensures
        0 <= span * b <= u128::MAX,
        0 <= span * (b + 1) <= u128::MAX,
{
    assert(span * b <= 0xffff_ffff_ffff_ffff * 0xffff_ffff_ffff_ffff) by (nonlinear_arith)
        requires
            span <= 0xffff_ffff_ffff_ffff,
            b <= 0xffff_ffff_ffff_ffff,
    ;
    assert(span * (b + 1) <= 0xffff_ffff_ffff_ffff * 0xffff_ffff_ffff_ffff) by (nonlinear_arith)
        requires
            span <= 0xffff_ffff_ffff_ffff,
            b + 1 <= 0xffff_ffff_ffff_ffff,
    ;
    assert(span * b >= 0 && span * (b + 1) >= 0) by (nonlinear_arith)
        requires
            span >= 0,
            b >= 0,
    ;
}

/// The bins of a waveform tile its range: bins meet at their edges, and the first and last edges
/// are those of the range. So every position lies in a bin.
pub proof fn law_bins_tile_the_range(start: int, end: int, bins: int, pos: int) -> (b: int)
    requires
        start <= pos < end,
        bins > 0,
    ensures
        0 <= b < bins,
        bin_edge(start, end, bins, b) <= pos < bin_edge(start, end, bins, b + 1),
{
    lemma_bin_edges(start, end, bins, 0);
    lemma_bin_of(start, end, bins, pos, bins)
}

/// The bin of `pos` among the first `upto`.
proof fn lemma_bin_of(start: int, end: int, bins: int, pos: int, upto: int) -> (b: int)
    requires
        start <= pos < bin_edge(start, end, bins, upto),
        bin_edge(start, end, bins, 0) == start,
        0 <= upto <= bins,
    ensures
        0 <= b < upto,
        bin_edge(start, end, bins, b) <= pos < bin_edge(start, end, bins, b + 1),
    decreases upto,
{
    if bin_edge(start, end, bins, upto - 1) <= pos {
        upto - 1
    } else {
        lemma_bin_of(start, end, bins, pos, upto - 1)
    }
}

/// The blocks of a level cover the buffer, and none starts behind its end.
proof fn lemma_blocks_cover(n: nat, k: nat)
    ensures
        blocks_in(n, k) >= 1,
        blocks_in(n, k) * width(k) >= n,
        (blocks_in(n, k) - 1) * width(k) <= n,
        n > 0 ==> (blocks_in(n, k) - 1) * width(k) < n,
    decreases k,
{
    if k == 0 {
        let leaves = blocks_in(n, k) as int;
        assert(n > 0 ==> leaves == (n + 1023) / 1024);
        assert(width(k) == 1024);
        assert(blocks_in(n, k) * width(k) == leaves * 1024);
        assert((blocks_in(n, k) - 1) * width(k) == (leaves - 1) * 1024);
    } else {
        let m = (k - 1) as nat;
        lemma_blocks_cover(n, m);
        lemma_width_pos(m);
        let children = blocks_in(n, m) as int;
        let parents = blocks_in(n, k) as int;
        let w = width(m) as int;
        assert(parents == (children + 7) / 8);
        assert(width(k) == 8 * w);
        assert(parents * (8 * w) == (parents * 8) * w) by (nonlinear_arith);
        assert((parents - 1) * (8 * w) == ((parents - 1) * 8) * w) by (nonlinear_arith);
        lemma_mul_inequality(children, parents * 8, w);
        lemma_mul_inequality((parents - 1) * 8, children - 1, w);
        assert(blocks_in(n, k) * width(k) == (parents * 8) * w);
        assert((blocks_in(n, k) - 1) * width(k) == ((parents - 1) * 8) * w);
    }
}

/// A block of level `k` covers its number of leaves.
proof fn lemma_width_is_span(k: nat)
    ensures
        width(k) == span(k) * LEAF,
    decreases k,
{
    if k > 0 {
        let m = (k - 1) as nat;
        lemma_width_is_span(m);
        assert(8 * (span(m) * LEAF) == (8 * span(m)) * LEAF) by (nonlinear_arith);
    }
}

/// The sum of a block is that of its samples.
proof fn lemma_block_terms(source: Seq<u32>, k: nat, j: int)
    requires
        0 <= j < blocks_in(source.len(), k),
    ensures
        terms(block_sum(source, k, j)) == block(source, width(k), j),
    decreases k, 0int, 0int,
{
    if k == 0 {
        lemma_running_terms(block(source, LEAF as nat, j));
    } else {
        let m = (k - 1) as nat;
        let children = blocks_in(source.len(), m) as int;
        let hi = clamp((j + 1) * FANOUT, children);
        assert(blocks_in(source.len(), k) == (children + 7) / 8);
        lemma_blocks_cover(source.len(), m);
        lemma_width_pos(m);
        lemma_group_terms(source, m, j * FANOUT, hi);
        lemma_parent_block(source, width(m), children, j, hi);
    }
}

/// The sum of neighbouring blocks is that of their samples.
proof fn lemma_group_terms(source: Seq<u32>, k: nat, lo: int, hi: int)
    requires
        0 <= lo < hi <= blocks_in(source.len(), k),
    ensures
        terms(group_sum(source, k, lo, hi)) == source.subrange(lo * width(k), block_end(source, width(k), hi - 1)),
    decreases k, 1int, hi - lo,
{
    lemma_block_terms(source, k, hi - 1);
    if hi > lo + 1 {
        lemma_group_terms(source, k, lo, hi - 1);
        lemma_plus_terms(group_sum(source, k, lo, hi - 1), block_sum(source, k, hi - 1));
        lemma_blocks_cover(source.len(), k);
        lemma_width_pos(k);
        let w = width(k) as int;
        let last = blocks_in(source.len(), k) - 1;
        lemma_mul_inequality(lo, hi - 1, w);
        lemma_mul_inequality(hi - 1, last, w);
        assert(lo * w >= 0) by (nonlinear_arith)
            requires
                lo >= 0,
                w > 0,
        ;
        assert((hi - 1 + 1) * w == (hi - 1) * w + w) by (nonlinear_arith);
        assert(block_end(source, width(k), hi - 2) == (hi - 1) * w);
        assert(source.subrange(lo * w, (hi - 1) * w) + block(source, width(k), hi - 1) =~= source.subrange(
            lo * w,
            block_end(source, width(k), hi - 1),
        ));
    }
}

/// The level that is picked exists, and its block is aligned and fits.
proof fn lemma_grown(levels: nat, i: int, end: int, k: nat)
    requires
        k < levels,
        0 <= i,
        i + span(k) <= end,
        i % span(k) as int == 0,
    ensures
        k <= grown(levels, i, end, k) < levels,
        i + span(grown(levels, i, end, k)) <= end,
        i % span(grown(levels, i, end, k)) as int == 0,
    decreases levels - k,
{
    if k + 1 < levels && i + span(k + 1) <= end && i % span(k + 1) as int == 0 {
        lemma_grown(levels, i, end, k + 1);
    }
}

/// Adding a block and then others is adding all of them.
proof fn lemma_stitched_first(source: Seq<u32>, t: Sum, b: (nat, int), rest: Seq<(nat, int)>)
    ensures
        stitched(source, t, seq![b] + rest) == stitched(source, plus(t, block_sum(source, b.0, b.1)), rest),
    decreases rest.len(),
{
    let all = seq![b] + rest;
    if rest.len() == 0 {
        assert(all.drop_last() =~= Seq::empty());
        assert(stitched(source, t, all.drop_last()) == t);
        assert(all.last() == b);
    } else {
        assert(all.drop_last() =~= seq![b] + rest.drop_last());
        assert(all.last() == rest.last());
        lemma_stitched_first(source, t, b, rest.drop_last());
    }
}

/// The sum over a cover of the leaves `i..end` is that of their samples.
proof fn lemma_cover_terms(source: Seq<u32>, t: Sum, i: int, end: int)
    requires
        0 <= i <= end,
        end * LEAF <= source.len(),
    ensures
        terms(stitched(source, t, cover(height(source.len()), i, end))) == terms(t) + source.subrange(
            i * LEAF,
            end * LEAF,
        ),
    decreases end - i,
{
    let h = height(source.len());
    if i < end {
        assert(i % span(0) as int == 0);
        lemma_grown(h, i, end, 0);
        let k = grown(h, i, end, 0);
        let wide = span(k) as int;
        let j = i / wide;
        let w = width(k);
        lemma_span_pos(k);
        lemma_width_is_span(k);
        lemma_blocks_cover(source.len(), k);
        lemma_fundamental_div_mod(i, wide);
        assert(j * w == i * LEAF && (j + 1) * w == (i + wide) * LEAF && j >= 0) by (nonlinear_arith)
            requires
                i == wide * j,
                w == wide * LEAF,
                i >= 0,
                wide >= 1,
        ;
        if j >= blocks_in(source.len(), k) {
            lemma_mul_inequality(blocks_in(source.len(), k) as int, j, w as int);
        }
        lemma_block_terms(source, k, j);
        let u = plus(t, block_sum(source, k, j));
        lemma_stitched_first(source, t, (k, j), cover(h, i + wide, end));
        lemma_cover_terms(source, u, i + wide, end);
        lemma_plus_terms(t, block_sum(source, k, j));
        assert(terms(u) == terms(t) + block(source, w, j));
        assert(terms(u) + source.subrange((i + wide) * LEAF, end * LEAF) =~= terms(t) + source.subrange(
            i * LEAF,
            end * LEAF,
        ));
    } else {
        assert(terms(t) + source.subrange(i * LEAF, end * LEAF) =~= terms(t));
    }
}

/// The sum of a range is that of the samples that the query covers, in order and each once.
pub proof fn law_a_range_adds_its_samples(samples: Seq<u32>, source: Seq<u32>, start: int, end: int)
    requires
        samples.len() == source.len(),
        0 <= start < end <= samples.len(),
    ensures
        terms(range_sum(samples, source, start, end)) == spliced(samples, source, start, end),
{
    let first = first_leaf(start);
    let last = end / LEAF as int;
    let run = spliced(samples, source, start, end);
    if first >= last {
        lemma_running_terms(samples.subrange(start, end));
        assert(samples.subrange(start, end) =~= run);
    } else {
        let head = samples.subrange(start, first * LEAF);
        let tail = samples.subrange(last * LEAF, end);
        lemma_running_terms(head);
        lemma_running_terms(tail);
        lemma_cover_terms(source, running(head), first, last);
        lemma_plus_terms(stitched(source, running(head), blocks_of(source.len(), start, end)), running(tail));
        assert(head + source.subrange(first * LEAF, last * LEAF) + tail =~= run);
    }
}

/// Blocks widen with their level, and what is aligned to one is aligned to those below it.
proof fn lemma_spans_nest(m: nat, k: nat, i: int)
    requires
        m <= k,
    ensures
        span(m) <= span(k),
        i % span(k) as int == 0 ==> i % span(m) as int == 0,
    decreases k,
{
    if m < k {
        let below = (k - 1) as nat;
        lemma_spans_nest(m, below, i);
        lemma_span_pos(below);
        let s = span(below) as int;
        assert(span(k) == 8 * s);
        if i % span(k) as int == 0 {
            lemma_fundamental_div_mod(i, 8 * s);
            let q = i / (8 * s);
            assert(i == (8 * q) * s) by (nonlinear_arith)
                requires
                    i == (8 * s) * q,
            ;
            lemma_fundamental_div_mod_converse(i, s, 8 * q, 0);
        }
    }
}

/// The level that is picked is the highest one that is aligned and fits.
proof fn lemma_picked(levels: nat, i: int, end: int, k: nat, m: nat)
    requires
        m <= k < levels,
        i % span(k) as int == 0,
        i + span(k) <= end,
        k + 1 >= levels || i + span(k + 1) > end || i % span(k + 1) as int != 0,
    ensures
        grown(levels, i, end, m) == k,
    decreases k - m,
{
    if m < k {
        lemma_spans_nest(m + 1, k, i);
        lemma_picked(levels, i, end, k, m + 1);
    }
}

/// Taking one block more.
proof fn lemma_cover_step(levels: nat, i: int, end: int, k: nat)
    requires
        i < end,
        grown(levels, i, end, 0) == k,
    ensures
        cover(levels, i, end).len() == 1 + cover(levels, i + span(k), end).len(),
{
    lemma_span_pos(k);
}

/// From a leaf that is aligned to level `k`, with at most `c` blocks of that level to go, few blocks
/// cover the rest: the levels only fall.
proof fn lemma_falling_cover(levels: nat, k: nat, c: nat, i: int, end: int)
    requires
        k < levels,
        c < FANOUT,
        0 <= i <= end,
        i % span(k) as int == 0,
        end - i < (c + 1) * span(k),
    ensures
        cover(levels, i, end).len() <= c + 7 * k,
    decreases k, c,
{
    lemma_span_pos(k);
    let s = span(k) as int;
    assert(span(k + 1) == 8 * s);
    if i < end {
        if end - i < s {
            if k > 0 {
                let below = (k - 1) as nat;
                lemma_spans_nest(below, k, i);
                assert(s == 8 * span(below));
                lemma_falling_cover(levels, below, 7, i, end);
            }
        } else {
            assert(c > 0) by (nonlinear_arith)
                requires
                    end - i < (c + 1) * s,
                    end - i >= s,
                    c >= 0,
            ;
            assert((c + 1) * s <= 8 * s && (c + 1) * s == (c - 1 + 1) * s + s) by (nonlinear_arith)
                requires
                    c <= 7,
                    s >= 1,
            ;
            lemma_picked(levels, i, end, k, 0);
            lemma_cover_step(levels, i, end, k);
            lemma_fundamental_div_mod(i, s);
            assert(i + s == (i / s + 1) * s) by (nonlinear_arith)
                requires
                    i == s * (i / s),
            ;
            lemma_fundamental_div_mod_converse(i + s, s, i / s + 1, 0);
            lemma_falling_cover(levels, k, (c - 1) as nat, i + s, end);
        }
    }
}

/// From a leaf that is aligned to level `k`, with `m` blocks of that level to the next leaf that is
/// aligned to the level above, few blocks cover the rest: the levels rise, and then fall.
proof fn lemma_rising_cover(levels: nat, k: nat, m: nat, i: int, end: int)
    requires
        k < levels,
        m < FANOUT,
        0 <= i <= end <= span((levels - 1) as nat),
        i % span(k) as int == 0,
        k + 1 < levels ==> (i + m * span(k)) % span(k + 1) as int == 0,
    ensures
        cover(levels, i, end).len() <= m + 7 * (levels - 1 - k) + 7 * (levels - 1) + 1,
    decreases levels - k, m,
{
    lemma_span_pos(k);
    let s = span(k) as int;
    assert(span(k + 1) == 8 * s);
    if i < end {
        if k + 1 == levels {
            lemma_fundamental_div_mod(i, s);
            assert(i == 0) by (nonlinear_arith)
                requires
                    0 <= i < s,
                    i == s * (i / s),
            ;
            if end == s {
                lemma_picked(levels, i, end, k, 0);
                lemma_cover_step(levels, i, end, k);
            } else if k > 0 {
                let below = (k - 1) as nat;
                lemma_spans_nest(below, k, i);
                assert(s == 8 * span(below));
                lemma_falling_cover(levels, below, 7, i, end);
            }
        } else if m == 0 {
            assert(m * span(k) == 0) by (nonlinear_arith)
                requires
                    m == 0,
            ;
            assert(i % span(k + 1) as int == 0);
            let next = lemma_blocks_to_alignment(k + 1, i);
            lemma_rising_cover(levels, k + 1, next, i, end);
        } else if end - i < s {
            if k > 0 {
                let below = (k - 1) as nat;
                lemma_spans_nest(below, k, i);
                assert(s == 8 * span(below));
                lemma_falling_cover(levels, below, 7, i, end);
            }
        } else {
            assert(i % (8 * s) != 0) by {
                if i % (8 * s) == 0 {
                    lemma_fundamental_div_mod(i, 8 * s);
                    lemma_fundamental_div_mod(i + m * s, 8 * s);
                    let p = i / (8 * s);
                    let q = (i + m * s) / (8 * s);
                    assert(false) by (nonlinear_arith)
                        requires
                            i == (8 * s) * p,
                            i + m * s == (8 * s) * q,
                            0 < m < 8,
                            s >= 1,
                    ;
                }
            }
            lemma_picked(levels, i, end, k, 0);
            lemma_cover_step(levels, i, end, k);
            lemma_fundamental_div_mod(i, s);
            assert(i + s == (i / s + 1) * s) by (nonlinear_arith)
                requires
                    i == s * (i / s),
            ;
            lemma_fundamental_div_mod_converse(i + s, s, i / s + 1, 0);
            assert(i + s + (m - 1) * s == i + m * s) by (nonlinear_arith);
            lemma_rising_cover(levels, k, (m - 1) as nat, i + s, end);
        }
    }
}

/// How many blocks of level `k` there are from the aligned leaf `i` to one that is aligned to the
/// level above.
proof fn lemma_blocks_to_alignment(k: nat, i: int) -> (m: nat)
    requires
        0 <= i,
        i % span(k) as int == 0,
    ensures
        m < FANOUT,
        (i + m * span(k)) % span(k + 1) as int == 0,
{
    lemma_span_pos(k);
    let s = span(k) as int;
    assert(span(k + 1) == 8 * s);
    lemma_fundamental_div_mod(i, s);
    let q = i / s;
    let m: nat = ((8 - q % 8) % 8) as nat;
    let up = (q + m) / 8;
    assert(q + m == 8 * up);
    assert(i + m * s == up * (8 * s)) by (nonlinear_arith)
        requires
            i == s * q,
            q + m == 8 * up,
    ;
    lemma_fundamental_div_mod_converse(i + m * s, 8 * s, up, 0);
    m
}

/// The top level is a single block, and the one below it is not.
proof fn lemma_top_level(n: nat, k: nat)
    requires
        height(n) == k + height_over(blocks_in(n, k)),
        k > 0 ==> blocks_in(n, (k - 1) as nat) > 1,
    ensures
        height(n) >= 1,
        blocks_in(n, (height(n) - 1) as nat) == 1,
        height(n) > 1 ==> blocks_in(n, (height(n) - 2) as nat) > 1,
    decreases blocks_in(n, k),
{
    lemma_blocks_cover(n, k);
    if blocks_in(n, k) > 1 {
        assert(blocks_in(n, k + 1) == (blocks_in(n, k) + 7) / 8);
        lemma_top_level(n, k + 1);
    }
}

/// What a query takes does not grow with its range. The head and the tail that it scans are shorter
/// than a leaf each, or there is no whole leaf between them and the range is shorter than two. The
/// rest comes in few blocks for each level, and the number of levels is logarithmic: each is
/// [`FANOUT`] times as wide as the one below, and the second highest is narrower than the buffer.
pub proof fn law_a_range_takes_few_blocks(n: nat, start: int, end: int)
    requires
        0 <= start <= end <= n,
    ensures
        blocks_of(n, start, end).len() <= 2 * FANOUT * height(n),
        height(n) > 1 ==> width((height(n) - 2) as nat) < n,
        first_leaf(start) * LEAF - start < LEAF,
        end - end / LEAF as int * LEAF < LEAF,
        first_leaf(start) >= end / LEAF as int ==> end - start < 2 * LEAF,
{
    let h = height(n);
    lemma_top_level(n, 0);
    let top = (h - 1) as nat;
    lemma_blocks_cover(n, top);
    lemma_width_is_span(top);
    assert(1 * width(top) == width(top));
    if h > 1 {
        let below = (h - 2) as nat;
        lemma_blocks_cover(n, below);
        lemma_width_pos(below);
        lemma_mul_inequality(1, blocks_in(n, below) - 1, width(below) as int);
    }
    let i = first_leaf(start);
    let last = end / LEAF as int;
    assert(i == (start + 1023) / 1024 && last == end / 1024);
    assert(2 * FANOUT * h == 16 * h);
    let blocks = cover(h, i, last);
    assert(blocks_of(n, start, end) == blocks);
    if i < last {
        assert(span(top) * LEAF >= n);
        assert(last <= span(top));
        assert(i % span(0) as int == 0);
        let m = lemma_blocks_to_alignment(0, i);
        lemma_rising_cover(h, 0, m, i, last);
        assert(blocks.len() <= m + 7 * (h - 1) + 7 * (h - 1) + 1);
    } else {
        assert(blocks.len() == 0);
    }
}

/// Clamping gives the smaller of two numbers.
pub proof fn law_clamping_gives_the_smaller(x: int, n: int)
    ensures
        clamp(x, n) <= x,
        clamp(x, n) <= n,
        clamp(x, n) == x || clamp(x, n) == n,
{
}

/// Every bin has its even share of the range. Where bin `b` begins, `b` of `bins` parts of the range
/// lie before it, rounded down to whole samples; so each bin is as wide as a part, rounded down or up.
pub proof fn law_bins_share_the_range_evenly(start: int, end: int, bins: int, b: int)
    requires
        start <= end,
        0 <= b < bins,
    ensures
        (bin_edge(start, end, bins, b) - start) * bins <= (end - start) * b < (bin_edge(start, end, bins, b) - start + 1)
            * bins,
        bin_edge(start, end, bins, b + 1) - bin_edge(start, end, bins, b) >= (end - start) / bins,
        bin_edge(start, end, bins, b + 1) - bin_edge(start, end, bins, b) <= (end - start + bins - 1) / bins,
        bin_edge(start, end, bins, 0) == start,
        bin_edge(start, end, bins, bins) == end,
{
    let x = end - start;
    lemma_bin_edges(start, end, bins, b);
    lemma_share(x, bins, b);
    lemma_share(x, bins, b + 1);
    let p = bin_edge(start, end, bins, b) - start;
    let q = bin_edge(start, end, bins, b + 1) - start;
    let w = q - p;
    assert(x * (b + 1) == x * b + x) by (nonlinear_arith);
    assert(q * bins == p * bins + w * bins && (q + 1) * bins == p * bins + w * bins + bins && (p + 1) * bins == p * bins
        + bins) by (nonlinear_arith)
        requires
            w == q - p,
    ;
    let floor = x / bins;
    lemma_fundamental_div_mod(x, bins);
    assert(w >= floor) by (nonlinear_arith)
        requires
            x - bins < w * bins,
            x == bins * floor + x % bins,
            0 <= x % bins,
            bins > 0,
    ;
    let top = x + bins - 1;
    let ceiling = top / bins;
    lemma_fundamental_div_mod(top, bins);
    assert(w <= ceiling) by (nonlinear_arith)
        requires
            w * bins < x + bins,
            top == x + bins - 1,
            top == bins * ceiling + top % bins,
            top % bins < bins,
            bins > 0,
    ;
}

/// A quotient is the largest whole number that is not above the fraction.
proof fn lemma_share(x: int, bins: int, b: int)
    requires
        bins > 0,
    ensures
        (x * b / bins) * bins <= x * b < (x * b / bins + 1) * bins,
{
    let q = x * b / bins;
    lemma_fundamental_div_mod(x * b, bins);
    assert(q * bins == bins * q && (q + 1) * bins == bins * q + bins) by (nonlinear_arith);
}

/// A position lies in a bin exactly where its share of the range does.
proof fn lemma_bin_holds(start: int, end: int, bins: int, b: int, pos: int)
    requires
        start <= pos < end,
        0 <= b < bins,
    ensures
        bin_edge(start, end, bins, b) <= pos < bin_edge(start, end, bins, b + 1) <==> (end - start) * b < (pos - start
            + 1) * bins <= (end - start) * (b + 1),
{
    let x = end - start;
    let m = pos - start;
    lemma_share(x, bins, b);
    lemma_share(x, bins, b + 1);
    let p = x * b / bins;
    let q = x * (b + 1) / bins;
    let low = x * b;
    let high = x * (b + 1);
    assert(p <= m <==> low < (m + 1) * bins) by (nonlinear_arith)
        requires
            p * bins <= low < (p + 1) * bins,
            bins > 0,
    ;
    assert(m < q <==> (m + 1) * bins <= high) by (nonlinear_arith)
        requires
            q * bins <= high < (q + 1) * bins,
            bins > 0,
    ;
}

/// Every sample is drawn. The range `lo..hi` is dealt out to the bins evenly: the sample at `pos` falls
/// into bin `b` where the end of the sample lies in share `b` of the range. The numbers in a bin lie
/// between the two values of its pair.
pub proof fn law_a_bin_spans_its_samples(
    samples: Seq<u32>,
    lo: int,
    hi: int,
    bins: int,
    b: int,
    pair: (u32, u32),
    pos: int,
)
    requires
        envelope_bin(samples, lo, hi, bins, b, pair),
        0 <= lo <= pos < hi <= samples.len(),
        0 <= b < bins,
        (hi - lo) * b < (pos - lo + 1) * bins <= (hi - lo) * (b + 1),
        !is_nan(samples[pos]),
    ensures
        value(pair.0) <= value(samples[pos]) <= value(pair.1),
{
    lemma_bin_holds(lo, hi, bins, b, pos);
    lemma_bin_edges(lo, hi, bins, b);
    let bs = bin_edge(lo, hi, bins, b);
    let be = bin_edge(lo, hi, bins, b + 1);
    let s = samples.subrange(bs, be);
    assert(s[pos - bs] == samples[pos]);
    law_order_is_numeric(samples[pos], pair.0);
    law_order_is_numeric(pair.1, samples[pos]);
}

/// Nothing is drawn that is not there: where bin `b` holds a finite number, such as that at `pos`, both values
/// of its pair are samples of the bin. The law gives back where they stand.
pub proof fn law_a_bin_shows_its_samples(
    samples: Seq<u32>,
    lo: int,
    hi: int,
    bins: int,
    b: int,
    pair: (u32, u32),
    pos: int,
) -> (r: (int, int))
    requires
        envelope_bin(samples, lo, hi, bins, b, pair),
        0 <= lo <= pos < hi <= samples.len(),
        0 <= b < bins,
        (hi - lo) * b < (pos - lo + 1) * bins <= (hi - lo) * (b + 1),
        finite(samples[pos]),
    ensures
        lo <= r.0 < hi,
        (hi - lo) * b < (r.0 - lo + 1) * bins <= (hi - lo) * (b + 1),
        samples[r.0] == pair.0,
        lo <= r.1 < hi,
        (hi - lo) * b < (r.1 - lo + 1) * bins <= (hi - lo) * (b + 1),
        samples[r.1] == pair.1,
{
    let bs = bin_edge(lo, hi, bins, b);
    let be = bin_edge(lo, hi, bins, b + 1);
    lemma_bin_edges(lo, hi, bins, b);
    lemma_bin_holds(lo, hi, bins, b, pos);
    let s = samples.subrange(bs, be);
    assert(s[pos - bs] == samples[pos]);
    assert(less(s[pos - bs], INFINITY) && less(NEG_INFINITY, s[pos - bs]));
    let i = choose|i: int| #[trigger] first_min(s, i) && pair.0 == s[i];
    let k = choose|i: int| #[trigger] first_max(s, i) && pair.1 == s[i];
    lemma_bin_holds(lo, hi, bins, b, bs + i);
    lemma_bin_holds(lo, hi, bins, b, bs + k);
    (bs + i, bs + k)
}

/// A bin that holds a sample, such as that at `pos`, but no finite number has a pair of infinities.
pub proof fn law_a_bin_without_a_finite_number_is_infinite(
    samples: Seq<u32>,
    lo: int,
    hi: int,
    bins: int,
    b: int,
    pair: (u32, u32),
    pos: int,
)
    requires
        envelope_bin(samples, lo, hi, bins, b, pair),
        0 <= lo <= pos < hi <= samples.len(),
        0 <= b < bins,
        (hi - lo) * b < (pos - lo + 1) * bins <= (hi - lo) * (b + 1),
        forall|i: int|
            lo <= i < hi && (hi - lo) * b < (i - lo + 1) * bins <= (hi - lo) * (b + 1) ==> !finite(
                #[trigger] samples[i],
            ),
    ensures
        pair.0 == 0x7f80_0000 || pair.0 == 0xff80_0000,
        pair.1 == 0x7f80_0000 || pair.1 == 0xff80_0000,
{
    let bs = bin_edge(lo, hi, bins, b);
    let be = bin_edge(lo, hi, bins, b + 1);
    lemma_bin_edges(lo, hi, bins, b);
    lemma_bin_holds(lo, hi, bins, b, pos);
    let s = samples.subrange(bs, be);
    assert forall|i: int| 0 <= i < s.len() implies !finite(#[trigger] s[i]) by {
        lemma_bin_holds(lo, hi, bins, b, bs + i);
        assert(s[i] == samples[bs + i]);
    }
}

/// A bin that holds no sample has a pair of zeros.
pub proof fn law_an_empty_bin_is_zero(samples: Seq<u32>, lo: int, hi: int, bins: int, b: int, pair: (u32, u32))
    requires
        envelope_bin(samples, lo, hi, bins, b, pair),
        0 <= lo,
        hi <= samples.len(),
        0 <= b < bins,
        forall|i: int|
            #![trigger samples[i]]
            lo <= i < hi ==> !((hi - lo) * b < (i - lo + 1) * bins <= (hi - lo) * (b + 1)),
    ensures
        pair == (0u32, 0u32),
{
    let bs = bin_edge(lo, hi, bins, b);
    let be = bin_edge(lo, hi, bins, b + 1);
    if lo < hi {
        lemma_bin_edges(lo, hi, bins, b);
        if bs < be {
            lemma_bin_holds(lo, hi, bins, b, bs);
            assert(samples.subrange(bs, be)[0] == samples[bs]);
        }
    }
}

impl<'a> Analyzer<'a> {
    /// With an up-to-date pyramid a query covers what the range has of the buffer, wherever its ends
    /// lie: nothing of it where it is empty or reversed.
    pub proof fn law_a_query_covers_what_the_range_has_of_the_buffer(self, start: int, end: int)
        requires
            self.tree()@ == self.samples(),
            0 <= start,
            0 <= end,
        ensures
            start < end <= self.samples().len() ==> self.run(start, end) == self.samples().subrange(start, end),
            start < self.samples().len() < end ==> self.run(start, end) == self.samples().skip(start),
            start >= end || start >= self.samples().len() ==> self.run(start, end) == Seq::<u32>::empty(),
    {
        assert(start < end <= self.samples().len() ==> self.run(start, end) =~= self.samples().subrange(start, end));
        assert(start < self.samples().len() < end ==> self.run(start, end) =~= self.samples().skip(start));
    }

    /// A waveform draws the range of the buffer: the bins are dealt out from `start` to `end`, or to the
    /// end of the buffer where the range goes on behind it. The sample at `pos` lies between the two
    /// values of its bin.
    pub proof fn law_a_waveform_spans_the_buffer(
        self,
        start: int,
        end: int,
        bins: int,
        b: int,
        pair: (u32, u32),
        pos: int,
    )
        requires
            self.tree()@ == self.samples(),
            self.bin_is(start, end, bins, b, pair),
            0 <= start <= pos < end,
            pos < self.samples().len(),
            0 <= b < bins,
            ({
                let width = if end <= self.samples().len() {
                    end - start
                } else {
                    self.samples().len() - start
                };
                width * b < (pos - start + 1) * bins <= width * (b + 1)
            }),
            !is_nan(self.samples()[pos]),
        ensures
            value(pair.0) <= value(self.samples()[pos]) <= value(pair.1),
    {
        self.law_bins_are_those_of_the_buffer(start, end, bins, b, pair);
        let hi = clamp(end, self.samples().len() as int);
        law_a_bin_spans_its_samples(self.samples(), start, hi, bins, b, pair, pos);
    }

    /// Where the arithmetic is exact, the sums of a range are sums over its samples, as
    /// [`law_exact_sums_are_those_of_the_samples`] has it. `r` stands for what [`Analyzer::range`] returns.
    pub proof fn law_an_exact_range_sum_is_that_of_its_samples<A: Fn(u64, u64) -> u64, L: Fn(u32) -> (u64, u64)>(
        self,
        ops: Arith<A, L>,
        start: int,
        end: int,
        r: Agg,
        number: spec_fn(u64) -> int,
        limit: int,
        of: spec_fn(u32) -> int,
        size: spec_fn(u32) -> int,
        square: spec_fn(u32) -> int,
    )
        requires
            self.tree()@ == self.samples(),
            0 <= start <= end <= self.samples().len(),
            r.adds_up(ops, self.bracketing(start, end)),
            number(0) == 0,
            forall|x: u64, y: u64, z: u64| #[trigger]
                call_ensures(ops.add, (x, y), z) && -limit <= number(x) + number(y) <= limit ==> number(z) == number(x)
                    + number(y),
            forall|v: u32, p: (u64, u64)| #[trigger]
                call_ensures(ops.lift, (v,), p) ==> number(p.0) == of(v) && number(p.1) == square(v),
            forall|v: u32| -size(v) <= #[trigger] of(v) <= size(v),
            forall|v: u32| #[trigger] square(v) >= 0,
            self.samples().subrange(start, end).fold_left(0int, |sum: int, v: u32| sum + size(v)) <= limit,
            self.samples().subrange(start, end).fold_left(0int, |sum: int, v: u32| sum + square(v)) <= limit,
        ensures
            number(r.sum) == self.samples().subrange(start, end).fold_left(0int, |sum: int, v: u32| sum + of(v)),
            number(r.sum_sq) == self.samples().subrange(start, end).fold_left(0int, |sum: int, v: u32| sum + square(v)),
    {
        let s = self.samples().subrange(start, end);
        let t = self.bracketing(start, end);
        if start < end {
            law_a_range_adds_its_samples(self.samples(), self.tree()@, start, end);
            assert(spliced(self.samples(), self.tree()@, start, end) =~= s);
        } else {
            assert(s =~= Seq::<u32>::empty());
            assert(terms(t) =~= s);
        }
        assert(r.totals(ops, s));
        law_exact_sums_are_those_of_the_samples(ops, r, s, number, limit, of, size, square);
    }
}

} // verus!
