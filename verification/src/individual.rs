use crate::gene::{flip, Gene};
use crate::random::index_between;
use vstd::prelude::*;

verus! {

/// A candidate solution: a bit string and the cached count of its one-bits.
#[derive(Debug)]
pub struct Individual {
    pub rank: i32,
    pub genes: Vec<Gene>,
}

/// The sum of a sequence of bits: for zeros and ones, the number of ones.
pub open spec fn ones(bits: Seq<int>) -> int
    decreases bits.len(),
{
    if bits.len() == 0 {
        0
    } else {
        ones(bits.drop_last()) + bits.last()
    }
}

/// Whether a rank can hold the sum of the bits.
pub open spec fn rankable(bits: Seq<int>) -> bool {
    i32::MIN <= ones(bits) <= i32::MAX
}

/// The number of positions below `n` at which `a` and `b` differ.
pub open spec fn differing(a: Seq<int>, b: Seq<int>, n: int) -> int
    decreases n,
{
    if n <= 0 {
        0
    } else {
        differing(a, b, n - 1) + if a[n - 1] == b[n - 1] {
            0int
        } else {
            1int
        }
    }
}

/// The Hamming distance of two bit strings of one length.
pub open spec fn hamming(a: Seq<int>, b: Seq<int>) -> int
    recommends
        a.len() == b.len(),
{
    differing(a, b, a.len() as int)
}

/// `a` with the positions `r1 <= i < r2` taken from `donor`.
pub open spec fn grafted(a: Seq<int>, donor: Seq<int>, r1: int, r2: int) -> Seq<int> {
    Seq::new(
        a.len(),
        |i: int|
            if r1 <= i < r2 {
                donor[i]
            } else {
                a[i]
            },
    )
}

/// `child` is `parent` with exactly one bit flipped.
pub open spec fn is_mutant(child: Seq<int>, parent: Seq<int>) -> bool {
    exists|r: int|
        0 <= r < parent.len() && child == #[trigger] parent.update(r, flip(parent[r]))
}

/// `child` is `parent` with a segment of `donor` grafted in; the segment
/// `r1 <= i < r2` may be empty and ends before the last position.
pub open spec fn is_cross(child: Seq<int>, parent: Seq<int>, donor: Seq<int>) -> bool {
    exists|r1: int, r2: int|
        0 <= r1 <= r2 < parent.len() - 1 && child == #[trigger] grafted(parent, donor, r1, r2)
}

/// The sum of bits lies between nothing and the length.
pub proof fn lemma_ones_bounds(bits: Seq<int>)
    requires
        forall|i: int| 0 <= i < bits.len() ==> bits[i] == 0 || bits[i] == 1,
    ensures
        0 <= ones(bits) <= bits.len(),
    decreases bits.len(),
{
    if bits.len() > 0 {
        lemma_ones_bounds(bits.drop_last());
    }
}

/// Replacing one bit moves the sum by the difference of the two bits.
pub proof fn lemma_ones_update(bits: Seq<int>, r: int, bit: int)
    requires
        0 <= r < bits.len(),
    ensures
        ones(bits.update(r, bit)) == ones(bits) - bits[r] + bit,
    decreases bits.len(),
{
    let after = bits.update(r, bit);
    if r == bits.len() - 1 {
        assert(after.drop_last() == bits.drop_last());
    } else {
        lemma_ones_update(bits.drop_last(), r, bit);
        assert(after.drop_last() == bits.drop_last().update(r, bit));
    }
}

/// A bit string with one position replaced differs from what it was at
/// that position alone, and there only where the new bit is another.
pub proof fn lemma_update_differing(a: Seq<int>, r: int, bit: int, n: int)
    requires
        0 <= r < a.len(),
        0 <= n <= a.len(),
    ensures
        differing(a.update(r, bit), a, n) == if r < n && bit != a[r] {
            1int
        } else {
            0int
        },
    decreases n,
{
    if n > 0 {
        lemma_update_differing(a, r, bit, n - 1);
    }
}

/// Below `n`, a graft differs from the receiving string at no more
/// positions than the part of the segment that lies below `n`.
pub proof fn lemma_graft_differing(a: Seq<int>, donor: Seq<int>, r1: int, r2: int, n: int)
    requires
        0 <= n <= a.len(),
        0 <= r1,
    ensures
        differing(grafted(a, donor, r1, r2), a, n) <= if n <= r1 || r2 <= r1 {
            0
        } else if n <= r2 {
            n - r1
        } else {
            r2 - r1
        },
        0 <= differing(grafted(a, donor, r1, r2), a, n),
    decreases n,
{
    if n > 0 {
        lemma_graft_differing(a, donor, r1, r2, n - 1);
    }
}

/// A graft of the segment `r1 <= i < r2` is within Hamming distance
/// `r2 - r1` of the receiving string.
pub proof fn lemma_graft_distance(a: Seq<int>, donor: Seq<int>, r1: int, r2: int)
    requires
        0 <= r1 <= r2 <= a.len(),
    ensures
        0 <= hamming(grafted(a, donor, r1, r2), a) <= r2 - r1,
{
    lemma_graft_differing(a, donor, r1, r2, a.len() as int);
}

impl View for Individual {
    type V = Seq<int>;

    open spec fn view(&self) -> Seq<int> {
        Seq::new(self.genes@.len(), |i: int| self.genes@[i]@)
    }
}

impl Clone for Individual {
    fn clone(&self) -> (copy: Individual)
        ensures
            copy@ == self@,
            copy.rank == self.rank,
            copy.genes@ == self.genes@,
    {
        let mut genes: Vec<Gene> = Vec::new();
        let mut i: usize = 0;
        while i < self.genes.len()
            invariant
                i <= self.genes@.len(),
                genes@ == self.genes@.take(i as int),
            decreases self.genes@.len() - i,
        {
            genes.push(self.genes[i]);
            assert(genes@ == self.genes@.take(i + 1));
            i += 1;
        }
        assert(genes@ == self.genes@);
        let copy = Individual { rank: self.rank, genes };
        assert(copy@ == self@);
        copy
    }
}

impl Individual {
    /// Every gene holds zero or one, and the genes are few enough for their
    /// sum to fit the rank.
    pub open spec fn binary(&self) -> bool {
        &&& self.genes@.len() <= i32::MAX
        &&& forall|i: int| 0 <= i < self.genes@.len() ==> (#[trigger] self.genes@[i]).binary()
    }

    /// The genes are binary and the rank is the number of ones among them.
    pub open spec fn wf(&self) -> bool {
        &&& self.binary()
        &&& self.rank == ones(self@)
    }

    /// The sum of binary genes lies between nothing and their number, so a
    /// rank can hold it.
    pub proof fn lemma_binary_sum(&self)
        requires
            self.binary(),
        ensures
            0 <= ones(self@) <= self@.len(),
            rankable(self@),
    {
        assert forall|i: int| 0 <= i < self@.len() implies self@[i] == 0 || self@[i] == 1 by {
            assert(self.genes@[i].binary());
        }
        lemma_ones_bounds(self@);
    }

    /// The rank of a well-formed individual lies between nothing and the
    /// number of its genes.
    pub proof fn lemma_rank_in_range(&self)
        requires
            self.wf(),
        ensures
            0 <= self.rank <= self@.len(),
    {
        self.lemma_binary_sum();
    }

    /// An individual of `gene_length` genes drawn at random, with its rank.
    pub fn new(gene_length: usize) -> (fresh: Individual)
        requires
            gene_length <= i32::MAX,
        ensures
            fresh.wf(),
            fresh@.len() == gene_length,
    {
        let mut genes: Vec<Gene> = Vec::new();
        let mut i: usize = 0;
        while i < gene_length
            invariant
                i <= gene_length,
                genes@.len() == i,
                forall|k: int| 0 <= k < genes@.len() ==> (#[trigger] genes@[k]).binary(),
            decreases gene_length - i,
        {
            genes.push(Gene::new());
            i += 1;
        }
        let mut fresh = Individual { rank: 0, genes };
        fresh.fitness();
        fresh
    }

    /// Sets the rank to the sum of the genes: for binary genes, the number
    /// of ones among them. The sum has to fit the rank, as that of binary
    /// genes does.
    pub fn fitness(&mut self)
        requires
            old(self).binary() || rankable(old(self)@),
        ensures
            final(self).genes == old(self).genes,
            final(self).rank == ones(old(self)@),
            old(self).binary() ==> final(self).wf(),
    {
        let mut sum: i128 = 0;
        let mut i: usize = 0;
        while i < self.genes.len()
            invariant
                i <= self.genes@.len(),
                self.genes == old(self).genes,
                sum == ones(self@.take(i as int)),
                -0x8000_0000 * i <= sum <= 0x8000_0000 * i,
            decreases self.genes@.len() - i,
        {
            proof {
                assert(self@.take(i + 1).drop_last() == self@.take(i as int));
            }
            sum = sum + self.genes[i].0 as i128;
            i += 1;
        }
        proof {
            assert(self@.take(i as int) == self@);
            if self.binary() {
                self.lemma_binary_sum();
            }
        }
        self.rank = sum as i32;
    }

    /// Flips the gene at `r` and refreshes the rank: a one becomes zero, and
    /// any other value becomes one. Exactly that gene changes. Where the
    /// rank was fresh and the genes binary, it moves by one.
    ///
    /// The sum of the genes after the flip has to fit the rank, as that of
    /// binary genes does.
    pub fn mutate_at(&mut self, r: usize)
        requires
            r < old(self)@.len(),
            old(self).binary() || rankable(
                old(self)@.update(r as int, flip(old(self)@[r as int])),
            ),
        ensures
            final(self)@ == old(self)@.update(r as int, flip(old(self)@[r as int])),
            final(self).rank == ones(final(self)@),
            final(self).rank == ones(old(self)@) + flip(old(self)@[r as int]) - old(self)@[r as int],
            hamming(final(self)@, old(self)@) == 1,
            old(self).binary() ==> final(self).wf(),
            old(self).wf() ==> final(self).rank == old(self).rank + 1 || final(self).rank == old(self).rank - 1,
    {
        let flipped = self.genes[r].flipped();
        self.genes.set(r, flipped);
        proof {
            let before = old(self)@;
            assert(self@ == before.update(r as int, flip(before[r as int])));
            if old(self).binary() {
                assert(old(self).genes@[r as int].binary());
                assert forall|i: int| 0 <= i < self.genes@.len() implies (
                #[trigger] self.genes@[i]).binary() by {
                    if i != r {
                        assert(old(self).genes@[i].binary());
                    }
                }
            }
            lemma_ones_update(before, r as int, flip(before[r as int]));
            lemma_update_differing(before, r as int, flip(before[r as int]), before.len() as int);
        }
        self.fitness();
    }

    /// Flips one gene, chosen at random among all of them, and refreshes the
    /// rank: a one becomes zero, and any other value becomes one.
    ///
    /// Whichever gene is flipped, the sum of the genes after it has to fit
    /// the rank, as that of binary genes does.
    pub fn mutate(&mut self)
        requires
            old(self)@.len() >= 1,
            old(self).binary() || forall|r: int|
                0 <= r < old(self)@.len() ==> rankable(
                    #[trigger] old(self)@.update(r, flip(old(self)@[r])),
                ),
        ensures
            is_mutant(final(self)@, old(self)@),
            final(self).rank == ones(final(self)@),
            hamming(final(self)@, old(self)@) == 1,
            old(self).binary() ==> final(self).wf(),
            old(self).wf() ==> final(self).rank == old(self).rank + 1 || final(self).rank == old(self).rank - 1,
    {
        let r = index_between(0, self.genes.len());
        proof {
            let after = old(self)@.update(r as int, flip(old(self)@[r as int]));
            assert(old(self).binary() || rankable(after));
        }
        self.mutate_at(r);
    }

    /// Overwrites the genes at `r1 <= i < r2` with the donor's genes at the
    /// same positions and refreshes the rank. The donor is left as it is.
    pub fn graft(&mut self, other: &Individual, r1: usize, r2: usize)
        requires
            old(self).binary(),
            other.binary(),
            r2 <= old(self)@.len(),
            r2 <= other@.len(),
        ensures
            final(self).wf(),
            final(self)@ == grafted(old(self)@, other@, r1 as int, r2 as int),
            r1 <= r2 ==> 0 <= hamming(final(self)@, old(self)@) <= r2 - r1,
    {
        let mut i: usize = r1;
        while i < r2
            invariant
                r2 <= self.genes@.len(),
                r2 <= other.genes@.len(),
                self.genes@.len() == old(self).genes@.len(),
                self.binary(),
                other.binary(),
                r1 <= i,
                i <= r2 || i == r1,
                self@ == grafted(old(self)@, other@, r1 as int, i as int),
            decreases r2 - i,
        {
            let gene = other.genes[i];
            let ghost before = self.genes@;
            let ghost bits = self@;
            self.genes.set(i, gene);
            proof {
                assert(other.genes@[i as int].binary());
                assert forall|k: int| 0 <= k < self.genes@.len() implies (
                #[trigger] self.genes@[k]).binary() by {
                    if k != i {
                        assert(before[k].binary());
                    }
                }
                assert(self@ =~= bits.update(i as int, other@[i as int]));
                assert(self@ =~= grafted(old(self)@, other@, r1 as int, i + 1));
            }
            i += 1;
        }
        proof {
            assert(self@ =~= grafted(old(self)@, other@, r1 as int, r2 as int));
            if r1 <= r2 {
                lemma_graft_distance(old(self)@, other@, r1 as int, r2 as int);
            }
        }
        self.fitness();
    }

    /// Grafts a segment of the donor, chosen at random, into this
    /// individual: the segment starts at `r1` and ends before `r2`, with
    /// `0 <= r1 <= r2 < len - 1`, so it may be empty and never reaches the
    /// last gene.
    pub fn crossover(&mut self, other: &Individual)
        requires
            old(self).binary(),
            other.binary(),
            old(self)@.len() >= 2,
            other@.len() >= old(self)@.len() - 1,
        ensures
            final(self).wf(),
            is_cross(final(self)@, old(self)@, other@),
            0 <= hamming(final(self)@, old(self)@) < old(self)@.len() - 1,
            final(self)@.last() == old(self)@.last(),
    {
        let r1 = index_between(0, self.genes.len() - 1);
        let r2 = index_between(r1, self.genes.len() - 1);
        self.graft(other, r1, r2);
    }
}

} // verus!
