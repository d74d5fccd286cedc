//! A small generic evolutionary-algorithm library: a population of candidate
//! solutions is bred generation after generation (truncation selection,
//! crossover, mutation, re-sorting by fitness) until a caller's predicate holds.
use vstd::prelude::*;

pub mod phrase;
mod population;
mod random;

pub use population::{
    bred_from, draws_within, is_bred, is_bred_from_pool, lemma_every_member_is_bred_from_pool,
    lemma_first_is_fittest, lemma_parents_outscore_the_rest, next_generation_of, parent_pool_len,
    parent_pool_size, random_draws, sorted_by_fitness, Population,
};

verus! {

/// A candidate solution that the population engine can evolve.
///
/// Four spec functions model what the operations do: `fitness_of` is the
/// score that `fitness` computes (higher is better); `is_fresh` holds of what
/// `new_random` returns; `is_child_of` relates a crossover's result to its two
/// parents; `is_mutant_of` relates a mutated individual to its state before.
/// An implementation verified here states them. Of the defaults,
/// `is_fresh`, `is_child_of` and `is_mutant_of` say nothing; the default
/// `fitness_of` is one unnamed value shared by every individual, so an
/// implementation whose scores vary must state its own.
pub trait Individual: Sized {
    /// The score of this individual, as a mathematical integer.
    closed spec fn fitness_of(&self) -> int {
        arbitrary()
    }

    /// What holds of every individual that `new_random` returns.
    closed spec fn is_fresh(&self) -> bool {
        true
    }

    /// What holds of a crossover result and its two parents.
    closed spec fn is_child_of(&self, first: &Self, second: &Self) -> bool {
        true
    }

    /// What holds of a mutated individual and its state before mutation.
    closed spec fn is_mutant_of(&self, before: &Self) -> bool {
        true
    }

    /// A fresh, randomly chosen individual.
    fn new_random() -> (r: Self)
        ensures
            r.is_fresh(),
    ;

    /// The score of this individual; depends on its own state alone.
    fn fitness(&self) -> (r: i32)
        ensures
            r as int == self.fitness_of(),
    ;

    /// A new individual combining `self` and `other`; neither parent changes.
    fn crossover(&self, other: &Self) -> (r: Self)
        ensures
            r.is_child_of(self, other),
    ;

    /// Perturbs this individual in place at random.
    fn mutate(&mut self)
        ensures
            final(self).is_mutant_of(old(self)),
    ;
}

/// How many generations [`evolve`] breeds at most before it gives up.
pub const GENERATION_LIMIT: u64 = 0xffff_ffff_ffff_ffff;

/// True when `gens` is a run of evolution of populations of `size`: the first
/// holds `size` fresh individuals, each later one is bred from the one before
/// by draws within its parent pool, and every one is sorted.
pub open spec fn is_evolution<T: Individual>(gens: Seq<Population<T>>, size: nat) -> bool {
    &&& gens.len() >= 1
    &&& forall|i: int| 0 <= i < size ==> (#[trigger] gens[0]@[i]).is_fresh()
    &&& forall|j: int| 0 <= j < gens.len() ==> (#[trigger] gens[j])@.len() == size && gens[j].is_sorted()
    &&& forall|j: int| 0 < j < gens.len() ==> #[trigger] bred_step(gens, j, size)
}

/// True when generation `j` of `gens` is bred from generation `j - 1` by
/// `size` draws within the parent pool.
pub open spec fn bred_step<T: Individual>(gens: Seq<Population<T>>, j: int, size: nat) -> bool {
    exists|draws: Seq<(usize, usize)>|
        draws.len() == size && draws_within(draws, parent_pool_size(size))
            && #[trigger] next_generation_of(gens[j]@, gens[j - 1]@, draws)
}

/// True when `until` returned `false` on every generation of `gens` but the
/// last.
pub open spec fn failed_before_last<T: Individual, F: Fn(&Population<T>) -> bool>(
    gens: Seq<Population<T>>,
    until: F,
) -> bool {
    forall|j: int| 0 <= j < gens.len() - 1 ==> until.ensures((&(#[trigger] gens[j]),), false)
}

/// True when `until` returns `true` on every sorted population of `size`.
pub open spec fn always_holds<T: Individual, F: Fn(&Population<T>) -> bool>(
    until: F,
    size: nat,
) -> bool {
    forall|p: &Population<T>, b: bool|
        p@.len() == size && p.is_sorted() && #[trigger] until.ensures((p,), b) ==> b
}

/// Evolves a population of `population_size` individuals from `new_random`,
/// breeding one generation from the one before until `until` holds of the
/// current one, and returns that population. Only if `until` still fails on
/// the generation after `GENERATION_LIMIT` breedings does it give up and
/// return `None`.
pub fn evolve<T, F>(population_size: usize, until: F) -> (r: Option<Population<T>>)
    where
        T: Individual,
        F: Fn(&Population<T>) -> bool,
    requires
        forall|p: &Population<T>| #[trigger] until.requires((p,)),
    ensures
        exists|gens: Seq<Population<T>>|
            #[trigger] is_evolution(gens, population_size as nat) && failed_before_last(gens, until)
                && match r {
                Some(p) => p == gens.last() && until.ensures((&p,), true),
                None => gens.len() == GENERATION_LIMIT + 1 && until.ensures((&gens.last(),), false),
            },
        always_holds(until, population_size as nat) ==> r is Some,
{
    let mut population = Population::<T>::gen_initial(population_size);
    let ghost mut gens: Seq<Population<T>> = seq![population];
    let mut generation: u64 = 0;
    loop
        invariant
            forall|p: &Population<T>| #[trigger] until.requires((p,)),
            population@.len() == population_size,
            population.is_sorted(),
            is_evolution(gens, population_size as nat),
            failed_before_last(gens, until),
            gens.len() == generation + 1,
            gens.last() == population,
        decreases GENERATION_LIMIT - generation,
    {
        if until(&population) {
            return Some(population);
        }
        if generation == GENERATION_LIMIT {
            return None;
        }
        let next = population.breed_next_generation();
        proof {
            let last = gens.len() - 1;
            let grown = gens.push(next);
            assert(grown[last] == population);
            assert forall|j: int| 0 < j < grown.len() implies #[trigger] bred_step(
                grown,
                j,
                population_size as nat,
            ) by {
                if j <= last {
                    assert(bred_step(gens, j, population_size as nat));
                    assert(grown[j] == gens[j] && grown[j - 1] == gens[j - 1]);
                } else {
                    let draws = choose|draws: Seq<(usize, usize)>|
                        draws.len() == population@.len() && draws_within(
                            draws,
                            parent_pool_size(population@.len()),
                        ) && #[trigger] next_generation_of(next@, population@, draws);
                    assert(next_generation_of(grown[j]@, grown[j - 1]@, draws));
                }
            }
            assert(grown[0] == gens[0]);
            assert(failed_before_last(grown, until)) by {
                assert forall|j: int| 0 <= j < grown.len() - 1 implies until.ensures(
                    (&(#[trigger] grown[j]),),
                    false,
                ) by {
                    if j < last {
                        assert(grown[j] == gens[j]);
                    }
                }
            }
            gens = grown;
        }
        population = next;
        generation = generation + 1;
    }
}

} // verus!
