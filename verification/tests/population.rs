use onemax::error::EngineError;
use onemax::gene::Gene;
use onemax::individual::Individual;
use onemax::population::Population;
use onemax::rate::{Rate, DRAW_STEPS};

fn rate(numerator: u64, denominator: u64) -> Rate {
    Rate::new(numerator, denominator).unwrap()
}

/// An individual of `len` genes whose first `ones` genes are set.
fn with_ones(ones: usize, len: usize) -> Individual {
    let genes: Vec<Gene> = (0..len).map(|i| Gene(if i < ones { 1 } else { 0 })).collect();
    let mut individual = Individual { rank: 0, genes };
    individual.fitness();
    individual
}

fn population_of(ranks: &[usize], len: usize, elite: Rate) -> Population {
    Population {
        gene_length: len,
        mutate_rate: rate(1, 2),
        elite_rate: elite,
        individuals: ranks.iter().map(|r| with_ones(*r, len)).collect(),
    }
}

fn ranks(population: &Population) -> Vec<i32> {
    population.individuals.iter().map(|i| i.rank).collect()
}

fn well_formed(population: &Population) -> bool {
    population.individuals.iter().all(|i| {
        i.genes.len() == population.gene_length
            && i.genes.iter().all(|g| g.0 == 0 || g.0 == 1)
            && i.rank == i.genes.iter().map(|g| g.0).sum::<i32>()
    })
}

fn sorted(population: &Population) -> bool {
    population.individuals.windows(2).all(|w| w[0].rank >= w[1].rank)
}

#[test]
fn construction() {
    let population = Population::new(10, 4, rate(1, 2), rate(1, 2)).unwrap();
    assert_eq!(population.individuals.len(), 4);
    assert_eq!(population.gene_length, 10);
    for individual in &population.individuals {
        assert_eq!(individual.genes.len(), 10);
        assert_eq!(individual.rank, individual.genes.iter().map(|g| g.0).sum::<i32>());
    }
    assert!(well_formed(&population));
}

#[test]
fn construction_refuses_bad_parameters() {
    let half = rate(1, 2);
    let above = Rate { numerator: 3, denominator: 2 };
    let undefined = Rate { numerator: 0, denominator: 0 };
    assert_eq!(Population::new(10, 0, half, half).err(), Some(EngineError::InvalidParameter));
    assert_eq!(Population::new(1, 4, half, half).err(), Some(EngineError::InvalidParameter));
    assert_eq!(Population::new(0, 4, half, half).err(), Some(EngineError::InvalidParameter));
    assert_eq!(Population::new(10, 4, above, half).err(), Some(EngineError::InvalidParameter));
    assert_eq!(Population::new(10, 4, half, above).err(), Some(EngineError::InvalidParameter));
    assert_eq!(Population::new(10, 4, half, undefined).err(), Some(EngineError::InvalidParameter));
    assert!(Population::new(2, 1, rate(0, 1), rate(1, 1)).is_ok());
}

#[test]
fn evaluate_sort() {
    let mut population = population_of(&[3, 7, 5], 8, rate(1, 2));
    population.evaluate();
    assert_eq!(ranks(&population), vec![7, 5, 3]);
    assert!(well_formed(&population));
}

#[test]
fn evaluate_is_idempotent() {
    let mut population = population_of(&[2, 9, 4, 4, 0, 7], 9, rate(1, 2));
    population.evaluate();
    let once = ranks(&population);
    assert_eq!(once, vec![9, 7, 4, 4, 2, 0]);
    population.evaluate();
    assert_eq!(ranks(&population), once);
}

#[test]
fn evaluate_keeps_equal_ranks_in_order() {
    let mut population = population_of(&[1, 2, 1, 2], 4, rate(1, 2));
    population.individuals[0].genes = vec![Gene(0), Gene(0), Gene(0), Gene(1)];
    population.individuals[1].genes = vec![Gene(0), Gene(0), Gene(1), Gene(1)];
    population.evaluate();
    assert_eq!(ranks(&population), vec![2, 2, 1, 1]);
    let first: Vec<i32> = population.individuals[0].genes.iter().map(|g| g.0).collect();
    let third: Vec<i32> = population.individuals[2].genes.iter().map(|g| g.0).collect();
    assert_eq!(first, vec![0, 0, 1, 1]);
    assert_eq!(third, vec![0, 0, 0, 1]);
}

#[test]
fn evaluate_of_nothing_and_of_one() {
    let mut empty = population_of(&[], 4, rate(1, 2));
    empty.evaluate();
    assert!(empty.individuals.is_empty());
    let mut single = population_of(&[3], 4, rate(1, 2));
    single.evaluate();
    assert_eq!(ranks(&single), vec![3]);
}

#[test]
fn elite_truncation() {
    let mut population = population_of(&[4, 9, 1, 7, 3, 8, 0, 2, 6, 5], 10, rate(3, 10));
    population.elite();
    assert_eq!(population.individuals.len(), 3);
    assert_eq!(ranks(&population), vec![9, 8, 7]);
    assert!(well_formed(&population));
}

#[test]
fn elite_sizes() {
    let mut all = population_of(&[1, 3, 2], 4, rate(1, 1));
    all.elite();
    assert_eq!(ranks(&all), vec![3, 2, 1]);
    let mut none = population_of(&[1, 3, 2], 4, rate(0, 1));
    none.elite();
    assert!(none.individuals.is_empty());
    let mut floor = population_of(&[1, 3, 2, 4, 0], 4, rate(1, 2));
    floor.elite();
    assert_eq!(ranks(&floor), vec![4, 3]);
}

#[test]
fn max_and_min_of_sorted_population() {
    let mut population = population_of(&[3, 7, 5], 8, rate(1, 2));
    population.evaluate();
    assert_eq!(population.max().unwrap().rank, 7);
    assert_eq!(population.min().unwrap().rank, 3);
}

#[test]
fn max_and_min_of_empty_population() {
    let population = population_of(&[], 8, rate(1, 2));
    assert_eq!(population.max().err(), Some(EngineError::EmptyPopulation));
    assert_eq!(population.min().err(), Some(EngineError::EmptyPopulation));
}

#[test]
fn insufficient_survivors() {
    let mut population = Population::new(10, 2, rate(1, 2), rate(1, 5)).unwrap();
    assert_eq!(population.evolution(), Err(EngineError::InsufficientSurvivors));
    assert!(population.individuals.is_empty());
}

#[test]
fn one_survivor_is_not_enough() {
    let mut population = population_of(&[2, 5, 3, 1], 16, rate(1, 4));
    assert_eq!(population.evolution(), Err(EngineError::InsufficientSurvivors));
    assert_eq!(ranks(&population), vec![5]);
}

#[test]
fn growth() {
    let mut population = Population::new(16, 8, rate(1, 2), rate(1, 4)).unwrap();
    assert_eq!(population.evolution(), Ok(()));
    assert_eq!(population.individuals.len(), 16);
    assert!(well_formed(&population));
    assert!(sorted(&population));
}

#[test]
fn growth_from_four_at_a_quarter_fails() {
    let mut population = Population::new(16, 4, rate(1, 2), rate(1, 4)).unwrap();
    assert_eq!(population.evolution(), Err(EngineError::InsufficientSurvivors));
    assert_eq!(population.individuals.len(), 1);
}

#[test]
fn evolution_keeps_the_elite() {
    let mut population = population_of(&[6, 1, 5, 0, 2, 3], 6, rate(1, 2));
    assert_eq!(population.evolution(), Ok(()));
    assert_eq!(population.individuals.len(), 6);
    assert_eq!(population.max().unwrap().rank, 6);
    let all = ranks(&population);
    for kept in [6, 5, 3] {
        assert!(all.contains(&kept));
    }
    assert!(well_formed(&population));
    assert!(sorted(&population));
}

#[test]
fn evolution_does_not_shrink_a_large_elite() {
    let mut population = population_of(&[1, 0, 2, 1, 2, 0, 1, 2, 0, 1], 2, rate(1, 2));
    assert_eq!(population.evolution(), Ok(()));
    assert_eq!(ranks(&population), vec![2, 2, 2, 1, 1]);
}

#[test]
fn evolution_with_mutation_only() {
    let mut population = population_of(&[4, 4, 4, 4], 8, rate(1, 2));
    population.mutate_rate = rate(1, 1);
    assert_eq!(population.evolution(), Ok(()));
    assert_eq!(population.individuals.len(), 8);
    for individual in &population.individuals {
        assert!((individual.rank - 4).abs() <= 6);
    }
    assert!(well_formed(&population));
}

#[test]
fn evolution_with_crossover_only_keeps_ranks_of_equal_parents() {
    let mut population = population_of(&[4, 4, 4, 4], 8, rate(1, 2));
    population.mutate_rate = Rate { numerator: 0, denominator: 1 };
    for _ in 0..20 {
        assert_eq!(population.evolution(), Ok(()));
        assert_eq!(ranks(&population), vec![4; 8]);
    }
}

#[test]
fn breed_mixes_mutants_and_crosses() {
    let population = population_of(&[5, 5, 5], 10, rate(1, 2));
    let mut mutants = 0;
    let mut crosses = 0;
    for _ in 0..400 {
        if population.breed().rank == 5 {
            crosses += 1;
        } else {
            mutants += 1;
        }
    }
    assert!(mutants > 100);
    assert!(crosses > 100);
}

#[test]
fn breed_yields_a_neighbour_of_the_pool() {
    let population = population_of(&[5, 5, 5], 10, rate(1, 2));
    for _ in 0..100 {
        let child = population.breed();
        assert_eq!(child.genes.len(), 10);
        assert!((child.rank - 5).abs() <= 1);
        assert_eq!(child.rank, child.genes.iter().map(|g| g.0).sum::<i32>());
    }
    assert_eq!(ranks(&population), vec![5, 5, 5]);
}

#[test]
fn convergence_sanity() {
    let mut population = Population::new(20, 4, rate(3, 10), rate(1, 2)).unwrap();
    population.evaluate();
    let mut best = population.max().unwrap().rank;
    for _ in 0..200 {
        assert_eq!(population.evolution(), Ok(()));
        assert_eq!(population.individuals.len(), 20);
        let now = population.max().unwrap().rank;
        assert!(now >= best);
        best = now;
    }
    assert!(best >= 18);
    assert!(population.min().unwrap().rank <= best);
}

#[test]
fn population_clone_is_independent() {
    let mut population = population_of(&[3, 7, 5], 8, rate(1, 2));
    let copy = population.clone();
    population.evaluate();
    assert_eq!(ranks(&copy), vec![3, 7, 5]);
    assert_eq!(ranks(&population), vec![7, 5, 3]);
}

#[test]
fn offspring_is_a_mutant_for_a_draw_at_or_below_the_rate() {
    let population = population_of(&[3, 2, 1], 6, rate(1, 2));
    for draw in [0, 1, DRAW_STEPS / 2] {
        let child = population.offspring(1, draw, 0);
        let parent: Vec<i32> = population.individuals[1].genes.iter().map(|g| g.0).collect();
        let genes: Vec<i32> = child.genes.iter().map(|g| g.0).collect();
        let changed = parent.iter().zip(genes.iter()).filter(|(a, b)| a != b).count();
        assert_eq!(changed, 1);
        assert_eq!((child.rank - 2).abs(), 1);
    }
    assert_eq!(ranks(&population), vec![3, 2, 1]);
}

#[test]
fn offspring_is_a_cross_for_a_draw_above_the_rate() {
    let population = population_of(&[0, 6, 1], 6, rate(1, 2));
    for draw in [DRAW_STEPS / 2 + 1, DRAW_STEPS - 1] {
        for _ in 0..50 {
            let child = population.offspring(0, draw, 1);
            let genes: Vec<i32> = child.genes.iter().map(|g| g.0).collect();
            let taken = genes.iter().filter(|b| **b == 1).count();
            assert!(taken <= 4);
            assert_eq!(genes[4], 0);
            assert_eq!(genes[5], 0);
            assert_eq!(child.rank, taken as i32);
            if let Some(start) = genes.iter().position(|b| *b == 1) {
                assert!(genes[start..start + taken].iter().all(|b| *b == 1));
            }
        }
    }
}

#[test]
fn evolution_at_rate_one_breeds_mutants_only() {
    for _ in 0..50 {
        let mut population = population_of(&[3, 0, 0, 0], 3, rate(1, 2));
        population.mutate_rate = rate(1, 1);
        assert_eq!(population.evolution(), Ok(()));
        assert_eq!(ranks(&population), vec![3, 2, 0]);
    }
}

#[test]
fn breed_at_rate_one_always_mutates() {
    let mut population = population_of(&[5, 5, 5], 10, rate(1, 2));
    population.mutate_rate = rate(1, 1);
    for _ in 0..200 {
        assert_eq!((population.breed().rank - 5).abs(), 1);
    }
}
