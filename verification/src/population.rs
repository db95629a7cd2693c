use crate::error::EngineError;
use crate::individual::{is_cross, is_mutant, Individual};
use crate::random::{draw_between, index_between};
use crate::rate::{Rate, DRAW_STEPS};
use vstd::prelude::*;

verus! {

/// The working set of candidate solutions, with the engine's parameters.
///
/// `gene_length` is both the number of genes of every individual and the
/// size to which a generation refills the population.
#[derive(Debug)]
pub struct Population {
    pub gene_length: usize,
    pub mutate_rate: Rate,
    pub elite_rate: Rate,
    pub individuals: Vec<Individual>,
}

/// The ranks never rise from one position to a later one.
pub open spec fn descending(s: Seq<Individual>) -> bool {
    forall|i: int, j: int| 0 <= i <= j < s.len() ==> s[i].rank >= s[j].rank
}

/// `s` holds the individuals of `t`, each as often as `t` does, fittest
/// first.
pub open spec fn is_ranking_of(s: Seq<Individual>, t: Seq<Individual>) -> bool {
    descending(s) && s.to_multiset() == t.to_multiset()
}

/// `child` is a mutant of a member of the pool other than its last.
pub open spec fn is_mutant_of_pool(child: Seq<int>, pool: Seq<Individual>) -> bool {
    exists|i: int| 0 <= i < pool.len() - 1 && is_mutant(child, (#[trigger] pool[i])@)
}

/// `child` descends from the pool under the mutation rate: it is a mutant
/// of a parent, or a cross of a parent with a donor, where parent and donor
/// are any members of the pool but its last. Under a rate of one it is a
/// mutant.
pub open spec fn is_child(child: Seq<int>, pool: Seq<Individual>, rate: Rate) -> bool {
    &&& exists|i: int, j: int|
        #![trigger pool[i], pool[j]]
        0 <= i < pool.len() - 1 && 0 <= j < pool.len() - 1 && (is_mutant(child, pool[i]@)
            || is_cross(child, pool[i]@, pool[j]@))
    &&& rate.numerator == rate.denominator ==> is_mutant_of_pool(child, pool)
}

/// `grown` starts with the founders, and each later member is a child of
/// the members before it under the mutation rate.
pub open spec fn bred_from(grown: Seq<Individual>, founders: Seq<Individual>, rate: Rate) -> bool {
    &&& founders.len() <= grown.len()
    &&& grown.take(founders.len() as int) == founders
    &&& forall|k: int|
        founders.len() <= k < grown.len() ==> is_child(
            (#[trigger] grown[k])@,
            grown.take(k),
            rate,
        )
}

/// Sequences with the same members have the same length, and each member
/// of one occurs in the other.
pub proof fn lemma_same_members(s: Seq<Individual>, t: Seq<Individual>)
    requires
        s.to_multiset() == t.to_multiset(),
    ensures
        s.len() == t.len(),
        forall|i: int| 0 <= i < s.len() ==> t.contains(#[trigger] s[i]),
{
    s.to_multiset_ensures();
    t.to_multiset_ensures();
    assert forall|i: int| 0 <= i < s.len() implies t.contains(#[trigger] s[i]) by {
        assert(s.contains(s[i]));
        assert(s.to_multiset().count(s[i]) > 0);
        assert(t.to_multiset().count(s[i]) > 0);
    }
}

/// The head of a ranking is a fittest member: no member outranks it.
pub proof fn lemma_head_outranks(ranking: Seq<Individual>, members: Seq<Individual>)
    requires
        is_ranking_of(ranking, members),
    ensures
        forall|i: int|
            0 <= i < members.len() ==> (#[trigger] members[i]).rank <= ranking.first().rank,
{
    lemma_same_members(members, ranking);
    assert forall|i: int| 0 <= i < members.len() implies (#[trigger] members[i]).rank
        <= ranking.first().rank by {
        assert(ranking.contains(members[i]));
        let k = choose|k: int| 0 <= k < ranking.len() && ranking[k] == members[i];
        assert(ranking[0].rank >= ranking[k].rank);
    }
}

/// Moving one member to another place keeps the members.
pub proof fn lemma_move_keeps_members(s: Seq<Individual>, from: int, to: int)
    requires
        0 <= to <= from < s.len(),
    ensures
        s.remove(from).insert(to, s[from]).to_multiset() == s.to_multiset(),
{
    let taken = s.remove(from);
    let moved = taken.insert(to, s[from]);
    s.to_multiset_ensures();
    moved.to_multiset_ensures();
    let x = s[from];
    assert(moved.remove(to) =~= taken);
    assert(moved[to] == x);
    assert(taken.to_multiset() == s.to_multiset().remove(x));
    assert(moved.remove(to).to_multiset() == moved.to_multiset().remove(x));
    assert(moved.contains(x) && s.contains(x));
    assert(moved.to_multiset().count(x) > 0 && s.to_multiset().count(x) > 0);
    assert forall|y: Individual| moved.to_multiset().count(y) == s.to_multiset().count(y) by {
        assert(moved.to_multiset().remove(x).count(y) == s.to_multiset().remove(x).count(y));
    }
    assert(moved.to_multiset() =~= s.to_multiset());
}

impl View for Population {
    type V = Seq<Seq<int>>;

    /// The bit strings of the individuals, in their order.
    open spec fn view(&self) -> Seq<Seq<int>> {
        Seq::new(self.individuals@.len(), |i: int| self.individuals@[i]@)
    }
}

impl Clone for Population {
    fn clone(&self) -> (copy: Population)
        ensures
            copy.same_parameters(self),
            copy@ == self@,
            forall|i: int|
                0 <= i < self.individuals@.len() ==> (#[trigger] copy.individuals@[i]).rank
                    == self.individuals@[i].rank,
            self.wf() ==> copy.wf(),
    {
        let mut individuals: Vec<Individual> = Vec::new();
        let mut i: usize = 0;
        while i < self.individuals.len()
            invariant
                i <= self.individuals@.len(),
                individuals@.len() == i,
                forall|k: int|
                    0 <= k < i ==> (#[trigger] individuals@[k]).genes@
                        == self.individuals@[k].genes@ && individuals@[k].rank
                        == self.individuals@[k].rank,
            decreases self.individuals@.len() - i,
        {
            individuals.push(self.individuals[i].clone());
            i += 1;
        }
        let copy = Population {
            gene_length: self.gene_length,
            mutate_rate: self.mutate_rate,
            elite_rate: self.elite_rate,
            individuals,
        };
        proof {
            assert forall|k: int| 0 <= k < copy.individuals@.len() implies (
            #[trigger] copy.individuals@[k])@ == self.individuals@[k]@ by {
                assert(copy.individuals@[k].genes@ == self.individuals@[k].genes@);
            }
            if self.wf() {
                assert forall|k: int| 0 <= k < copy.individuals@.len() implies (
                #[trigger] copy.individuals@[k]).wf() && copy.individuals@[k]@.len()
                    == copy.gene_length by {
                    assert(self.individuals@[k].wf());
                    assert(copy.individuals@[k].genes@ == self.individuals@[k].genes@);
                }
            }
            assert(copy@ =~= self@);
        }
        copy
    }
}

impl Population {
    /// The parameters are in range, and every individual is well formed
    /// with `gene_length` genes.
    pub open spec fn wf(&self) -> bool {
        &&& 2 <= self.gene_length <= i32::MAX
        &&& self.mutate_rate.wf()
        &&& self.elite_rate.wf()
        &&& forall|i: int|
            0 <= i < self.individuals@.len() ==> (#[trigger] self.individuals@[i]).wf()
                && self.individuals@[i]@.len() == self.gene_length
    }

    /// The parameters with which a population can be made: at least one
    /// individual, at least two genes each and no more than a rank can
    /// count, and both rates in the unit interval.
    pub open spec fn valid_parameters(
        gene_length: usize,
        individual_length: usize,
        mutate_rate: Rate,
        elite_rate: Rate,
    ) -> bool {
        &&& 1 <= individual_length
        &&& 2 <= gene_length <= i32::MAX
        &&& mutate_rate.wf()
        &&& elite_rate.wf()
    }

    /// How many individuals the elite rate keeps of this population.
    pub open spec fn survivors(&self) -> int {
        self.elite_rate.share(self.individuals@.len() as int)
    }

    /// Whether the two populations have the same parameters.
    pub open spec fn same_parameters(&self, other: &Population) -> bool {
        &&& self.gene_length == other.gene_length
        &&& self.mutate_rate == other.mutate_rate
        &&& self.elite_rate == other.elite_rate
    }

    /// A population of `individual_length` random individuals of
    /// `gene_length` genes each. Parameters out of range are refused.
    pub fn new(
        gene_length: usize,
        individual_length: usize,
        mutate_rate: Rate,
        elite_rate: Rate,
    ) -> (r: Result<Population, EngineError>)
        ensures
            r is Ok <==> Self::valid_parameters(
                gene_length,
                individual_length,
                mutate_rate,
                elite_rate,
            ),
            r matches Err(e) ==> e == EngineError::InvalidParameter,
            r matches Ok(p) ==> p.wf() && p@.len() == individual_length
                && p.gene_length == gene_length && p.mutate_rate == mutate_rate && p.elite_rate
                == elite_rate,
    {
        if individual_length < 1 || gene_length < 2 || gene_length > 0x7fff_ffff
            || mutate_rate.denominator == 0 || mutate_rate.numerator > mutate_rate.denominator
            || elite_rate.denominator == 0 || elite_rate.numerator > elite_rate.denominator {
            return Err(EngineError::InvalidParameter);
        }
        let mut individuals: Vec<Individual> = Vec::new();
        let mut i: usize = 0;
        while i < individual_length
            invariant
                i <= individual_length,
                gene_length <= i32::MAX,
                individuals@.len() == i,
                forall|k: int|
                    0 <= k < individuals@.len() ==> (#[trigger] individuals@[k]).wf()
                        && individuals@[k]@.len() == gene_length,
            decreases individual_length - i,
        {
            individuals.push(Individual::new(gene_length));
            i += 1;
        }
        Ok(Population { gene_length, mutate_rate, elite_rate, individuals })
    }

    /// Sorts the individuals by rank, fittest first. A population that is
    /// sorted already is left as it is.
    pub fn evaluate(&mut self)
        ensures
            is_ranking_of(final(self).individuals@, old(self).individuals@),
            final(self).individuals@.len() == old(self).individuals@.len(),
            descending(old(self).individuals@) ==> final(self).individuals@ == old(self).individuals@,
            final(self).same_parameters(old(self)),
            old(self).wf() ==> final(self).wf(),
    {
        let mut i: usize = 0;
        while i < self.individuals.len()
            invariant
                self.same_parameters(old(self)),
                self.individuals@.len() == old(self).individuals@.len(),
                i <= self.individuals@.len(),
                descending(self.individuals@.take(i as int)),
                self.individuals@.to_multiset() == old(self).individuals@.to_multiset(),
                descending(old(self).individuals@) ==> self.individuals@ == old(self).individuals@,
            decreases self.individuals@.len() - i,
        {
            let rank = self.individuals[i].rank;
            let mut j: usize = i;
            while j > 0 && self.individuals[j - 1].rank < rank
                invariant
                    j <= i < self.individuals@.len(),
                    rank == self.individuals@[i as int].rank,
                    forall|k: int| j <= k < i ==> self.individuals@[k].rank < rank,
                decreases j,
            {
                j -= 1;
            }
            let ghost before = self.individuals@;
            if j < i {
                let moved = self.individuals.remove(i);
                self.individuals.insert(j, moved);
                proof {
                    lemma_move_keeps_members(before, i as int, j as int);
                    assert(self.individuals@ == before.remove(i as int).insert(
                        j as int,
                        before[i as int],
                    ));
                    assert(before[j as int].rank < before[i as int].rank);
                }
            }
            proof {
                let after = self.individuals@;
                let sorted = before.take(i as int);
                let window = after.take(i + 1);
                assert forall|a: int, b: int| 0 <= a <= b < window.len() implies window[a].rank
                    >= window[b].rank by {
                    assert(window[a] == after[a] && window[b] == after[b]);
                    if a < j {
                        assert(after[a] == sorted[a]);
                        if j > 0 {
                            assert(sorted[a].rank >= sorted[j - 1].rank);
                        }
                    }
                    if b < j {
                        assert(after[b] == sorted[b]);
                    }
                    if a > j {
                        assert(after[a] == sorted[a - 1]);
                    }
                    if b > j {
                        assert(after[b] == sorted[b - 1]);
                        if a > j {
                            assert(sorted[a - 1].rank >= sorted[b - 1].rank);
                        }
                    }
                }
            }
            i += 1;
        }
        proof {
            assert(self.individuals@.take(self.individuals@.len() as int) == self.individuals@);
            lemma_same_members(self.individuals@, old(self).individuals@);
        }
    }

    /// Keeps the fittest: sorts, then cuts the population down to the whole
    /// part of its size times the elite rate.
    pub fn elite(&mut self)
        requires
            old(self).elite_rate.wf(),
        ensures
            final(self).same_parameters(old(self)),
            final(self).individuals@.len() == old(self).elite_rate.share(
                old(self).individuals@.len() as int,
            ),
            final(self).individuals@.len() <= old(self).individuals@.len(),
            exists|ranking: Seq<Individual>|
                #[trigger] is_ranking_of(ranking, old(self).individuals@) && final(self).individuals@ == ranking.take(final(self).individuals@.len() as int),
            descending(final(self).individuals@),
            old(self).wf() ==> final(self).wf(),
    {
        self.evaluate();
        let ghost ranking = self.individuals@;
        let n = self.elite_rate.share_of(self.individuals.len());
        self.individuals.truncate(n);
        proof {
            lemma_same_members(ranking, old(self).individuals@);
            assert(self.individuals@ == ranking.take(n as int));
            assert(is_ranking_of(ranking, old(self).individuals@));
        }
    }

    /// The first individual: the fittest of a sorted population.
    pub fn max(&self) -> (r: Result<&Individual, EngineError>)
        ensures
            r is Err <==> self.individuals@.len() == 0,
            r matches Err(e) ==> e == EngineError::EmptyPopulation,
            r matches Ok(best) ==> *best == self.individuals@.first() && (descending(
                self.individuals@,
            ) ==> forall|i: int|
                0 <= i < self.individuals@.len() ==> (#[trigger] self.individuals@[i]).rank
                    <= best.rank),
    {
        if self.individuals.len() == 0 {
            Err(EngineError::EmptyPopulation)
        } else {
            Ok(&self.individuals[0])
        }
    }

    /// The last individual: the weakest of a sorted population.
    pub fn min(&self) -> (r: Result<&Individual, EngineError>)
        ensures
            r is Err <==> self.individuals@.len() == 0,
            r matches Err(e) ==> e == EngineError::EmptyPopulation,
            r matches Ok(worst) ==> *worst == self.individuals@.last() && (descending(
                self.individuals@,
            ) ==> forall|i: int|
                0 <= i < self.individuals@.len() ==> (#[trigger] self.individuals@[i]).rank
                    >= worst.rank),
    {
        let n = self.individuals.len();
        if n == 0 {
            Err(EngineError::EmptyPopulation)
        } else {
            Ok(&self.individuals[n - 1])
        }
    }

    /// The offspring that the drawn values decide: a copy of the parent at
    /// `i`, mutated where the draw, read as the number `draw / DRAW_STEPS`,
    /// is at or below the mutation rate, and crossed with the donor at `j`
    /// where it is above.
    pub fn offspring(&self, i: usize, draw: u64, j: usize) -> (child: Individual)
        requires
            self.wf(),
            self.individuals@.len() >= 2,
            i < self.individuals@.len() - 1,
            j < self.individuals@.len() - 1,
        ensures
            child.wf(),
            child@.len() == self.gene_length,
            self.mutate_rate.spec_admits(draw) ==> is_mutant(child@, self.individuals@[i as int]@),
            !self.mutate_rate.spec_admits(draw) ==> is_cross(
                child@,
                self.individuals@[i as int]@,
                self.individuals@[j as int]@,
            ),
    {
        let mut child = self.individuals[i].clone();
        proof {
            assert(self.individuals@[i as int].wf());
            assert(self.individuals@[j as int].wf());
            assert(child.genes@ == self.individuals@[i as int].genes@);
        }
        if self.mutate_rate.admits(draw) {
            child.mutate();
        } else {
            child.crossover(&self.individuals[j]);
        }
        child
    }

    /// One offspring of the population. The parent is a member chosen at
    /// random among all but the last. A draw from the unit interval, in
    /// steps of `1 / DRAW_STEPS`, at or below the mutation rate makes the
    /// offspring a mutant of the parent; any other makes it a cross with a
    /// donor chosen in the same way as the parent. A rate of one admits
    /// every draw.
    pub fn breed(&self) -> (child: Individual)
        requires
            self.wf(),
            self.individuals@.len() >= 2,
        ensures
            child.wf(),
            child@.len() == self.gene_length,
            is_child(child@, self.individuals@, self.mutate_rate),
    {
        let i = index_between(0, self.individuals.len() - 1);
        let draw = draw_between(0, DRAW_STEPS);
        let j = if self.mutate_rate.admits(draw) {
            i
        } else {
            index_between(0, self.individuals.len() - 1)
        };
        proof {
            if self.mutate_rate.numerator == self.mutate_rate.denominator {
                self.mutate_rate.lemma_one_admits(draw);
            }
        }
        let child = self.offspring(i, draw, j);
        proof {
            let pool = self.individuals@;
            assert(is_mutant(child@, pool[i as int]@) || is_cross(
                child@,
                pool[i as int]@,
                pool[j as int]@,
            ));
            if self.mutate_rate.numerator == self.mutate_rate.denominator {
                assert(is_mutant(child@, pool[i as int]@));
                assert(is_mutant_of_pool(child@, pool));
            }
        }
        child
    }

    /// One generation: keeps the elite, refills the population with
    /// offspring up to `gene_length` members, and sorts it.
    ///
    /// Fails, with the elite left in place, where the elite has fewer than
    /// two members: a cross needs two parents.
    pub fn evolution(&mut self) -> (r: Result<(), EngineError>)
        requires
            old(self).wf(),
        ensures
            final(self).wf(),
            final(self).same_parameters(old(self)),
            r is Err <==> old(self).survivors() <= 1,
            r matches Err(e) ==> e == EngineError::InsufficientSurvivors,
            descending(final(self).individuals@),
            final(self).individuals@.len() == if old(self).survivors() <= 1
                || old(self).survivors() >= old(self).gene_length {
                old(self).survivors()
            } else {
                old(self).gene_length as int
            },
            r is Ok ==> forall|i: int|
                0 <= i < old(self).individuals@.len() ==> (#[trigger] old(self).individuals@[i]).rank
                    <= final(self).individuals@.first().rank,
            exists|ranking: Seq<Individual>, grown: Seq<Individual>|
                #![trigger bred_from(grown, ranking.take(old(self).survivors()), old(self).mutate_rate)]
                is_ranking_of(ranking, old(self).individuals@) && bred_from(
                    grown,
                    ranking.take(old(self).survivors()),
                    old(self).mutate_rate,
                ) && is_ranking_of(final(self).individuals@, grown),
    {
        self.evaluate();
        let ghost first = self.individuals@;
        self.elite();
        let ghost founders = self.individuals@;
        let ghost ranking = choose|ranking: Seq<Individual>|
            #[trigger] is_ranking_of(ranking, first) && founders == ranking.take(
                founders.len() as int,
            );
        proof {
            assert(founders.len() == old(self).survivors()) by {
                lemma_same_members(first, old(self).individuals@);
            }
            assert(is_ranking_of(ranking, old(self).individuals@));
            assert(bred_from(founders, founders, self.mutate_rate)) by {
                assert(founders.take(founders.len() as int) == founders);
            }
        }
        if self.individuals.len() <= 1 {
            proof {
                assert(is_ranking_of(founders, founders));
            }
            return Err(EngineError::InsufficientSurvivors);
        }
        while self.individuals.len() < self.gene_length
            invariant
                self.wf(),
                self.same_parameters(old(self)),
                founders.len() >= 2,
                bred_from(self.individuals@, founders, self.mutate_rate),
                self.individuals@.len() <= self.gene_length || self.individuals@.len()
                    == founders.len(),
            decreases self.gene_length - self.individuals@.len(),
        {
            let child = self.breed();
            let ghost pool = self.individuals@;
            self.individuals.push(child);
            proof {
                let grown = self.individuals@;
                assert(grown.take(pool.len() as int) == pool);
                assert(grown.take(founders.len() as int) == pool.take(founders.len() as int));
                assert forall|k: int| founders.len() <= k < grown.len() implies is_child(
                    (#[trigger] grown[k])@,
                    grown.take(k),
                    self.mutate_rate,
                ) by {
                    if k < pool.len() {
                        assert(grown[k] == pool[k]);
                        assert(grown.take(k) == pool.take(k));
                    }
                }
            }
        }
        let ghost grown = self.individuals@;
        self.evaluate();
        proof {
            assert(bred_from(grown, ranking.take(old(self).survivors()), old(self).mutate_rate));
            lemma_same_members(self.individuals@, grown);
            lemma_head_outranks(ranking, old(self).individuals@);
            lemma_head_outranks(self.individuals@, grown);
            lemma_same_members(ranking, old(self).individuals@);
            assert(grown[0] == grown.take(founders.len() as int)[0]);
            assert(founders[0] == ranking[0]);
        }
        Ok(())
    }
}

} // verus!
