use vstd::prelude::*;
use crate::alphabet::{Alphabet, AlphabetIndex};
use crate::fm_index::FMIndex;
use crate::range::Range;

verus! {

/// A node of the implicit suffix-trie traversal: the BWT row range
/// reached, the depth (number of symbols consumed so far), and the
/// symbol that was consumed last.
#[derive(Clone, Copy, PartialEq, Eq, Structural, Debug)]
pub struct Position {
    /// Range over the suffix array.
    pub range: Range,

    /// Depth of the position node.
    pub depth: usize,

    /// Index of the incoming character.
    pub index: AlphabetIndex,
}

impl Position {
    pub fn new(range: Range, depth: usize, index: AlphabetIndex) -> (r: Self)
        ensures
            r.range == range,
            r.depth == depth,
            r.index == index,
    {
        Self { range, depth, index }
    }

    pub fn range(&self) -> (r: &Range)
        ensures
            r == self.range,
    {
        &self.range
    }

    pub fn character(&self) -> (c: AlphabetIndex)
        ensures
            c == self.index,
    {
        self.index
    }

    pub fn row(&self) -> (d: usize)
        ensures
            d == self.depth,
    {
        self.depth
    }
}

/// The children of a trie node, in symbol order: for every symbol
/// `c < cmax` whose left extension of `[s, e)` is non-empty, the
/// extended range at the next depth.
pub open spec fn child_positions<A: Alphabet>(
    idx: FMIndex<A>,
    s: int,
    e: int,
    depth: int,
    cmax: int,
) -> Seq<Position>
    decreases cmax,
{
    if cmax <= 0 {
        Seq::empty()
    } else {
        let prev = child_positions(idx, s, e, depth, cmax - 1);
        let c = cmax - 1;
        let cs = idx.counts_at(c) + idx.occ_spec(c, s);
        let ce = idx.counts_at(c) + idx.occ_spec(c, e);
        if cs < ce {
            prev.push(
                Position {
                    range: Range { start: cs as usize, end: ce as usize },
                    depth: (depth + 1) as usize,
                    index: c as AlphabetIndex,
                },
            )
        } else {
            prev
        }
    }
}

/// Last-in-first-out frontier of the approximate-match traversal over
/// an FM index.
pub struct SearchTree<'a, A: Alphabet> {
    /// The FM index over which the tree is spanned.
    pub fm_index: &'a FMIndex<A>,

    /// The search space.
    pub search_space: Vec<Position>,
}

impl<'a, A: Alphabet> SearchTree<'a, A> {
    /// The index the tree searches.
    pub closed spec fn index(self) -> FMIndex<A> {
        *self.fm_index
    }

    pub fn new(fm_index: &'a FMIndex<A>) -> (r: Self)
        ensures
            r.search_space@.len() == 0,
            r.index() == *fm_index,
    {
        let search_space: Vec<Position> = Vec::new();
        Self { fm_index, search_space }
    }

    /// Push, for every alphabet symbol, the non-empty left extension of
    /// `range` at the next depth, in symbol order.
    pub fn extend_search_space(&mut self, range: &Range, depth: usize)
        requires
            old(self).index().wf(),
            range.start <= range.end,
            range.end as int <= old(self).index().n() + 1,
            depth < usize::MAX,
        ensures
            final(self).index() == old(self).index(),
            final(self).search_space@ == old(self).search_space@ + child_positions(
                old(self).index(),
                range.start as int,
                range.end as int,
                depth as int,
                A::sigma(),
            ),
            forall|q: int|
                old(self).search_space@.len() <= q < final(self).search_space@.len() ==> {
                    let p = #[trigger] final(self).search_space@[q];
                    &&& p.depth == depth + 1
                    &&& p.range.start < p.range.end
                    &&& p.range.end as int <= old(self).index().n() + 1
                },
    {
        proof {
            A::alphabet_facts();
        }
        let ghost base = self.search_space@;
        let mut range_copy = range.clone();
        let alphabet_length = self.fm_index.alphabet().len();
        let mut c: usize = 0;
        while c < alphabet_length
            invariant
                self.fm_index == old(self).fm_index,
                self.index().wf(),
                alphabet_length == A::sigma(),
                c <= alphabet_length,
                range.start <= range.end,
                range.end as int <= self.index().n() + 1,
                depth < usize::MAX,
                self.search_space@ == base + child_positions(
                    self.index(),
                    range.start as int,
                    range.end as int,
                    depth as int,
                    c as int,
                ),
                forall|q: int|
                    base.len() <= q < self.search_space@.len() ==> {
                        let p = #[trigger] self.search_space@[q];
                        &&& p.depth == depth + 1
                        &&& p.range.start < p.range.end
                        &&& p.range.end as int <= self.index().n() + 1
                    },
            decreases alphabet_length - c,
        {
            let ghost pre = self.search_space@;
            if self.fm_index.add_char_left(c, range, &mut range_copy) {
                self.search_space.push(Position::new(range_copy, depth + 1, c as AlphabetIndex));
            }
            proof {
                assert(self.search_space@ =~= base + child_positions(
                    self.index(),
                    range.start as int,
                    range.end as int,
                    depth as int,
                    c as int + 1,
                ));
            }
            c = c + 1;
        }
    }

    /// Pop the most recently pushed node, if any.
    pub fn next(&mut self) -> (r: Option<Position>)
        ensures
            final(self).index() == old(self).index(),
            old(self).search_space@.len() == 0 ==> r is None && final(self).search_space@ == old(
                self,
            ).search_space@,
            old(self).search_space@.len() > 0 ==> r == Some(old(self).search_space@.last())
                && final(self).search_space@ == old(self).search_space@.drop_last(),
    {
        self.search_space.pop()
    }
}

/// Weight of one frontier node in the termination measure of the
/// traversal: the deeper a node, the lighter it weighs, so replacing a
/// node by its children shrinks the total.
pub open spec fn node_weight(p: Position, maxd: int, sigma: int) -> int {
    if p.depth as int <= maxd {
        vstd::arithmetic::power::pow(sigma + 1, (maxd - p.depth) as nat)
    } else {
        0
    }
}

/// Total weight of a frontier.
pub open spec fn frontier_measure(stack: Seq<Position>, maxd: int, sigma: int) -> int
    decreases stack.len(),
{
    if stack.len() == 0 {
        0
    } else {
        frontier_measure(stack.drop_last(), maxd, sigma) + node_weight(stack.last(), maxd, sigma)
    }
}

pub proof fn lemma_weight_positive(p: Position, maxd: int, sigma: int)
    requires
        sigma >= 0,
        p.depth as int <= maxd,
    ensures
        node_weight(p, maxd, sigma) >= 1,
{
    vstd::arithmetic::power::lemma_pow_positive(sigma + 1, (maxd - p.depth) as nat);
}

pub proof fn lemma_measure_nonneg(stack: Seq<Position>, maxd: int, sigma: int)
    requires
        sigma >= 0,
    ensures
        frontier_measure(stack, maxd, sigma) >= 0,
    decreases stack.len(),
{
    if stack.len() > 0 {
        lemma_measure_nonneg(stack.drop_last(), maxd, sigma);
        if stack.last().depth as int <= maxd {
            lemma_weight_positive(stack.last(), maxd, sigma);
        }
    }
}

pub proof fn lemma_measure_concat(s1: Seq<Position>, s2: Seq<Position>, maxd: int, sigma: int)
    ensures
        frontier_measure(s1 + s2, maxd, sigma) == frontier_measure(s1, maxd, sigma)
            + frontier_measure(s2, maxd, sigma),
    decreases s2.len(),
{
    if s2.len() == 0 {
        assert(s1 + s2 =~= s1);
    } else {
        lemma_measure_concat(s1, s2.drop_last(), maxd, sigma);
        assert((s1 + s2).drop_last() =~= s1 + s2.drop_last());
        assert((s1 + s2).last() == s2.last());
        assert((s1 + s2).len() > 0);
    }
}

/// The children of a node at depth `d < maxd` weigh together strictly
/// less than the node itself.
pub proof fn lemma_children_measure<A: Alphabet>(
    idx: FMIndex<A>,
    s: int,
    e: int,
    depth: int,
    cmax: int,
    maxd: int,
    sigma: int,
)
    requires
        0 <= cmax <= sigma,
        0 <= depth,
        depth + 1 <= maxd,
        maxd <= usize::MAX,
    ensures
        frontier_measure(child_positions(idx, s, e, depth, cmax), maxd, sigma) <= cmax
            * vstd::arithmetic::power::pow(sigma + 1, (maxd - depth - 1) as nat),
    decreases cmax,
{
    let w = vstd::arithmetic::power::pow(sigma + 1, (maxd - depth - 1) as nat);
    if cmax == 0 {
        assert(child_positions(idx, s, e, depth, 0) =~= Seq::empty());
    } else {
        lemma_children_measure(idx, s, e, depth, cmax - 1, maxd, sigma);
        let prev = child_positions(idx, s, e, depth, cmax - 1);
        let cur = child_positions(idx, s, e, depth, cmax);
        vstd::arithmetic::power::lemma_pow_positive(sigma + 1, (maxd - depth - 1) as nat);
        if cur.len() > prev.len() {
            assert(cur.drop_last() =~= prev);
            assert(node_weight(cur.last(), maxd, sigma) == w);
        } else {
            assert(cur =~= prev);
        }
        assert((cmax - 1) * w + w == cmax * w) by (nonlinear_arith);
    }
}

} // verus!
