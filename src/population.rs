//! The population engine: an ordered collection of individuals, kept sorted by
//! descending fitness, and the generational breeding step.
use vstd::prelude::*;
use vstd::seq_lib::{group_to_multiset_ensures, to_multiset_build, to_multiset_insert};
use vstd::slice::slice_subrange;

use crate::random::gen_below;
use crate::Individual;

verus! {

/// True when no individual of `s` scores more than one that comes before it.
pub open spec fn sorted_by_fitness<T: Individual>(s: Seq<T>) -> bool {
    forall|i: int, j: int| 0 <= i < j < s.len() ==> s[i].fitness_of() >= s[j].fitness_of()
}

/// True when the integers of `keys` never increase.
spec fn descending(keys: Seq<i32>) -> bool {
    forall|i: int, j: int| 0 <= i < j < keys.len() ==> keys[i] >= keys[j]
}

/// True when `keys[i]` is the fitness of `s[i]` at every position.
spec fn keys_of<T: Individual>(keys: Seq<i32>, s: Seq<T>) -> bool {
    &&& keys.len() == s.len()
    &&& forall|i: int| 0 <= i < s.len() ==> keys[i] as int == (#[trigger] s[i]).fitness_of()
}

/// How many of the fittest individuals of a population of `n` may become
/// parents: the top half, rounded down; a lone individual breeds with itself.
pub open spec fn parent_pool_size(n: nat) -> nat {
    if n == 1 {
        1
    } else {
        n / 2
    }
}

/// True when every draw names two positions inside a parent pool of `pool`.
pub open spec fn draws_within(draws: Seq<(usize, usize)>, pool: nat) -> bool {
    forall|k: int| 0 <= k < draws.len() ==> (#[trigger] draws[k]).0 < pool && draws[k].1 < pool
}

/// True when `child` is a mutant of some crossover of `first` and `second`.
pub open spec fn is_bred<T: Individual>(child: T, first: T, second: T) -> bool {
    exists|c: T| c.is_child_of(&first, &second) && #[trigger] child.is_mutant_of(&c)
}

/// True when `children[k]` is a mutant of a crossover of the two members of
/// `pop` that `draws[k]` names, for every `k`.
pub open spec fn bred_from<T: Individual>(
    children: Seq<T>,
    pop: Seq<T>,
    draws: Seq<(usize, usize)>,
) -> bool {
    &&& children.len() == draws.len()
    &&& forall|k: int|
        0 <= k < children.len() ==> is_bred(
            #[trigger] children[k],
            pop[draws[k].0 as int],
            pop[draws[k].1 as int],
        )
}

/// True when `next` holds exactly the children bred from `pop` by `draws`, in
/// some order.
pub open spec fn next_generation_of<T: Individual>(
    next: Seq<T>,
    pop: Seq<T>,
    draws: Seq<(usize, usize)>,
) -> bool {
    exists|children: Seq<T>|
        bred_from(children, pop, draws) && next.to_multiset() == children.to_multiset()
}

/// The size of the parent pool of a population of `size`.
pub fn parent_pool_len(size: usize) -> (r: usize)
    ensures
        r == parent_pool_size(size as nat),
{
    if size == 1 {
        1
    } else {
        size / 2
    }
}

/// `count` pairs of parent positions, each drawn uniformly and independently
/// from `[0, pool)`.
pub fn random_draws(pool: usize, count: usize) -> (r: Vec<(usize, usize)>)
    requires
        count > 0 ==> pool > 0,
    ensures
        r@.len() == count,
        draws_within(r@, pool as nat),
{
    let mut draws: Vec<(usize, usize)> = Vec::with_capacity(count);
    let mut k: usize = 0;
    while k < count
        invariant
            k <= count,
            count > 0 ==> pool > 0,
            draws@.len() == k,
            draws_within(draws@, pool as nat),
        decreases count - k,
    {
        let first = gen_below(pool);
        let second = gen_below(pool);
        draws.push((first, second));
        k = k + 1;
    }
    draws
}

/// In a population sorted by fitness, the first individual scores at least
/// as much as every other one, so it is the fittest.
pub proof fn lemma_first_is_fittest<T: Individual>(p: Population<T>)
    requires
        p.is_sorted(),
        p@.len() > 0,
    ensures
        forall|i: int| 0 <= i < p@.len() ==> p@[0].fitness_of() >= (#[trigger] p@[i]).fitness_of(),
{
    assert forall|i: int| 0 <= i < p@.len() implies p@[0].fitness_of() >= (
    #[trigger] p@[i]).fitness_of() by {
        if i > 0 {
            assert(sorted_by_fitness(p@));
        }
    }
}

/// Truncation selection: in a sorted population of two or more, every parent
/// that a draw within the parent pool names scores at least as much as every
/// individual outside the pool.
pub proof fn lemma_parents_outscore_the_rest<T: Individual>(
    p: Population<T>,
    draws: Seq<(usize, usize)>,
)
    requires
        p.is_sorted(),
        p@.len() >= 2,
        draws_within(draws, parent_pool_size(p@.len())),
    ensures
        forall|k: int, j: int|
            0 <= k < draws.len() && parent_pool_size(p@.len()) <= j < p@.len() ==> {
                &&& p@[(#[trigger] draws[k]).0 as int].fitness_of() >= (#[trigger] p@[j]).fitness_of()
                &&& p@[draws[k].1 as int].fitness_of() >= p@[j].fitness_of()
            },
{
    assert(sorted_by_fitness(p@));
}

/// True when `child` is a mutant of a crossover of two members of the parent
/// pool of `pop`.
pub open spec fn is_bred_from_pool<T: Individual>(child: T, pop: Seq<T>) -> bool {
    exists|a: int, b: int|
        0 <= a < parent_pool_size(pop.len()) && 0 <= b < parent_pool_size(pop.len())
            && #[trigger] is_bred(child, pop[a], pop[b])
}

/// No individual is carried over between generations, and only the parent
/// pool breeds: every member of a next generation bred by draws within the
/// pool is a mutant of a crossover of two pool members.
pub proof fn lemma_every_member_is_bred_from_pool<T: Individual>(
    next: Seq<T>,
    pop: Seq<T>,
    draws: Seq<(usize, usize)>,
)
    requires
        draws_within(draws, parent_pool_size(pop.len())),
        next_generation_of(next, pop, draws),
    ensures
        forall|i: int| 0 <= i < next.len() ==> is_bred_from_pool(#[trigger] next[i], pop),
{
    broadcast use group_to_multiset_ensures;

    let children = choose|children: Seq<T>|
        bred_from(children, pop, draws) && next.to_multiset() == children.to_multiset();
    assert forall|i: int| 0 <= i < next.len() implies is_bred_from_pool(
        #[trigger] next[i],
        pop,
    ) by {
        assert(next.to_multiset().count(next[i]) > 0);
        assert(children.contains(next[i]));
        let k = choose|k: int| 0 <= k < children.len() && children[k] == next[i];
        let a = draws[k].0 as int;
        let b = draws[k].1 as int;
        assert(is_bred(children[k], pop[a], pop[b]));
    }
}

/// One generation: the individuals in order, fittest first once sorted.
pub struct Population<T> {
    individuals: Vec<T>,
}

impl<T> View for Population<T> {
    type V = Seq<T>;

    closed spec fn view(&self) -> Seq<T> {
        self.individuals@
    }
}

impl<T: Individual> Population<T> {
    /// True when the individuals are in order of descending fitness.
    pub open spec fn is_sorted(&self) -> bool {
        sorted_by_fitness(self@)
    }

    /// An empty population with room for `size` individuals.
    fn empty(size: usize) -> (r: Self)
        ensures
            r@ == Seq::<T>::empty(),
    {
        Population { individuals: Vec::with_capacity(size) }
    }

    /// Appends one individual at the end.
    fn add(&mut self, individual: T)
        ensures
            final(self)@ == old(self)@.push(individual),
    {
        self.individuals.push(individual);
    }

    /// The number of individuals.
    pub fn len(&self) -> (r: usize)
        ensures
            r == self@.len(),
    {
        self.individuals.len()
    }

    /// True when the population holds no individual.
    pub fn is_empty(&self) -> (r: bool)
        ensures
            r == (self@.len() == 0),
    {
        self.individuals.len() == 0
    }

    /// The individual at position `i`.
    pub fn get(&self, i: usize) -> (r: &T)
        requires
            i < self@.len(),
        ensures
            *r == self@[i as int],
    {
        &self.individuals[i]
    }

    /// All individuals, in order.
    pub fn as_slice(&self) -> (r: &[T])
        ensures
            r@ == self@,
    {
        self.individuals.as_slice()
    }

    /// The best-scoring individual, which the sort order puts first; `None`
    /// when the population is empty.
    pub fn fittest(&self) -> (r: Option<&T>)
        ensures
            self@.len() == 0 ==> r is None,
            self@.len() > 0 ==> (r matches Some(f) && *f == self@[0]),
    {
        if self.individuals.len() == 0 {
            None
        } else {
            Some(&self.individuals[0])
        }
    }

    /// A population of the given individuals, sorted by descending fitness.
    pub fn from_vec(individuals: Vec<T>) -> (r: Self)
        ensures
            r.is_sorted(),
            r@.to_multiset() == individuals@.to_multiset(),
            r@.len() == individuals@.len(),
            sorted_by_fitness(individuals@) ==> r@ == individuals@,
    {
        let mut population = Population { individuals };
        population.sort_by_fitness();
        population
    }

    /// A first generation of `size` individuals from `new_random`, sorted.
    pub fn gen_initial(size: usize) -> (r: Self)
        ensures
            r@.len() == size,
            r.is_sorted(),
            forall|i: int| 0 <= i < size ==> (#[trigger] r@[i]).is_fresh(),
    {
        let mut generation = Self::empty(size);
        let mut k: usize = 0;
        while k < size
            invariant
                k <= size,
                generation@.len() == k,
                forall|i: int| 0 <= i < k ==> (#[trigger] generation@[i]).is_fresh(),
            decreases size - k,
        {
            generation.add(T::new_random());
            k = k + 1;
        }
        generation.sort_by_fitness();
        generation
    }

    /// The next generation, with the parents of each child drawn at random
    /// from the parent pool (see [`Population::breed_with_draws`]).
    pub fn breed_next_generation(&self) -> (r: Self)
        requires
            self.is_sorted(),
        ensures
            r@.len() == self@.len(),
            r.is_sorted(),
            exists|draws: Seq<(usize, usize)>|
                draws.len() == self@.len() && draws_within(draws, parent_pool_size(self@.len()))
                    && #[trigger] next_generation_of(r@, self@, draws),
    {
        let size = self.individuals.len();
        let draws = random_draws(parent_pool_len(size), size);
        self.breed_with_draws(&draws)
    }

    /// The next generation, given the parents of each child: child `k` is the
    /// crossover of the pool members at `draws[k].0` and `draws[k].1`, where
    /// the pool is the fittest `parent_pool_size` individuals of this (sorted)
    /// population. Every child is then mutated, and the children are sorted.
    pub fn breed_with_draws(&self, draws: &Vec<(usize, usize)>) -> (r: Self)
        requires
            self.is_sorted(),
            draws@.len() == self@.len(),
            draws_within(draws@, parent_pool_size(self@.len())),
        ensures
            r@.len() == self@.len(),
            r.is_sorted(),
            next_generation_of(r@, self@, draws@),
    {
        let parents = self.parent_pool();
        let mut generation = Self::crossover(parents, draws);
        let ghost crossed = generation@;
        generation.mutate();
        let ghost children = generation@;
        assert(bred_from(children, self@, draws@)) by {
            assert(children.len() == draws@.len());
            assert forall|k: int| 0 <= k < children.len() implies is_bred(
                #[trigger] children[k],
                self@[draws@[k].0 as int],
                self@[draws@[k].1 as int],
            ) by {
                let first = draws@[k].0 as int;
                let second = draws@[k].1 as int;
                assert(parents@[first] == self@[first]);
                assert(parents@[second] == self@[second]);
                assert(crossed[k].is_child_of(
                    &parents@[draws@[k].0 as int],
                    &parents@[draws@[k].1 as int],
                ));
                assert(children[k].is_mutant_of(&crossed[k]));
            }
        }
        generation.sort_by_fitness();
        generation
    }

    /// Truncation selection: the fittest `parent_pool_size` individuals, in
    /// order, which are the ones that may become parents.
    pub fn parent_pool(&self) -> (r: &[T])
        ensures
            r@ == self@.subrange(0, parent_pool_size(self@.len()) as int),
    {
        let pool = parent_pool_len(self.individuals.len());
        slice_subrange(self.individuals.as_slice(), 0, pool)
    }

    /// One child per draw, the crossover of the two parents it names.
    fn crossover(parents: &[T], draws: &Vec<(usize, usize)>) -> (r: Self)
        requires
            draws_within(draws@, parents@.len()),
        ensures
            r@.len() == draws@.len(),
            forall|k: int|
                0 <= k < draws@.len() ==> (#[trigger] r@[k]).is_child_of(
                    &parents@[draws@[k].0 as int],
                    &parents@[draws@[k].1 as int],
                ),
    {
        let mut generation = Self::empty(draws.len());
        let mut k: usize = 0;
        while k < draws.len()
            invariant
                k <= draws@.len(),
                draws_within(draws@, parents@.len()),
                generation@.len() == k,
                forall|j: int|
                    0 <= j < k ==> (#[trigger] generation@[j]).is_child_of(
                        &parents@[draws@[j].0 as int],
                        &parents@[draws@[j].1 as int],
                    ),
            decreases draws@.len() - k,
        {
            let (first, second) = draws[k];
            let child = parents[first].crossover(&parents[second]);
            generation.add(child);
            k = k + 1;
        }
        generation
    }

    /// Mutates every individual in place; the order is kept.
    fn mutate(&mut self)
        ensures
            final(self)@.len() == old(self)@.len(),
            forall|i: int|
                0 <= i < old(self)@.len() ==> (#[trigger] final(self)@[i]).is_mutant_of(
                    &old(self)@[i],
                ),
    {
        let ghost original = self.individuals@;
        let ghost n = original.len();
        let mut mutated: Vec<T> = Vec::with_capacity(self.individuals.len());
        while self.individuals.len() > 0
            invariant
                n == original.len(),
                self.individuals@.len() + mutated@.len() == n,
                self.individuals@ == original.subrange(0, self.individuals@.len() as int),
                forall|j: int|
                    0 <= j < mutated@.len() ==> (#[trigger] mutated@[j]).is_mutant_of(
                        &original[n - 1 - j],
                    ),
            decreases self.individuals@.len(),
        {
            let mut individual = self.individuals.pop().unwrap();
            assert(individual == original[self.individuals@.len() as int]);
            individual.mutate();
            mutated.push(individual);
        }
        while mutated.len() > 0
            invariant
                n == original.len(),
                self.individuals@.len() + mutated@.len() == n,
                forall|j: int|
                    0 <= j < mutated@.len() ==> (#[trigger] mutated@[j]).is_mutant_of(
                        &original[n - 1 - j],
                    ),
                forall|i: int|
                    0 <= i < self.individuals@.len() ==> (
                    #[trigger] self.individuals@[i]).is_mutant_of(&original[i]),
            decreases mutated@.len(),
        {
            let ghost before = self.individuals@;
            let individual = mutated.pop().unwrap();
            self.individuals.push(individual);
            assert(self.individuals@ == before.push(individual));
        }
    }

    /// Reorders the individuals by descending fitness. Each individual's
    /// fitness is computed once. A population already in order is left
    /// exactly as it was; otherwise the order among individuals of equal
    /// fitness is not fixed by this contract.
    pub fn sort_by_fitness(&mut self)
        ensures
            sorted_by_fitness(final(self)@),
            final(self)@.len() == old(self)@.len(),
            final(self)@.to_multiset() == old(self)@.to_multiset(),
            forall|i: int| 0 <= i < final(self)@.len() ==> old(self)@.contains(#[trigger] final(self)@[i]),
            sorted_by_fitness(old(self)@) ==> final(self)@ == old(self)@,
    {
        broadcast use group_to_multiset_ensures;

        let ghost original = self.individuals@;
        let mut ordered: Vec<T> = Vec::new();
        let mut keys: Vec<i32> = Vec::new();
        while self.individuals.len() > 0
            invariant
                keys_of(keys@, ordered@),
                descending(keys@),
                self.individuals@.len() <= original.len(),
                self.individuals@ == original.subrange(0, self.individuals@.len() as int),
                original.to_multiset() == self.individuals@.to_multiset().add(
                    ordered@.to_multiset(),
                ),
                sorted_by_fitness(original) ==> ordered@ == original.subrange(
                    self.individuals@.len() as int,
                    original.len() as int,
                ),
            decreases self.individuals@.len(),
        {
            let ghost before = self.individuals@;
            let individual = self.individuals.pop().unwrap();
            assert(before == self.individuals@.push(individual));
            let key = individual.fitness();
            let mut pos: usize = 0;
            while pos < keys.len() && keys[pos] > key
                invariant
                    pos <= keys@.len(),
                    forall|i: int| 0 <= i < pos ==> keys@[i] > key,
                decreases keys@.len() - pos,
            {
                pos = pos + 1;
            }
            let ghost old_ordered = ordered@;
            let ghost old_keys = keys@;
            ordered.insert(pos, individual);
            keys.insert(pos, key);
            assert(original.to_multiset() =~= self.individuals@.to_multiset().add(
                ordered@.to_multiset(),
            )) by {
                to_multiset_build(self.individuals@, individual);
                to_multiset_insert(old_ordered, pos as int, individual);
            }
            assert(keys_of(keys@, ordered@)) by {
                assert forall|i: int| 0 <= i < ordered@.len() implies keys@[i] as int == (
                #[trigger] ordered@[i]).fitness_of() by {
                    if i > pos {
                        assert(ordered@[i] == old_ordered[i - 1]);
                    }
                }
            }
            proof {
                if sorted_by_fitness(original) {
                    let ghost m = self.individuals@.len() as int;
                    assert(pos == 0) by {
                        if old_keys.len() > 0 {
                            assert(old_ordered[0] == original[m + 1]);
                            assert(original[m].fitness_of() >= original[m + 1].fitness_of());
                        }
                    }
                    assert(ordered@ =~= original.subrange(m, original.len() as int));
                }
            }
        }
        proof {
            assert(self.individuals@.to_multiset().len() == 0);
            assert(original.to_multiset().len() == ordered@.to_multiset().len());
            assert(original.to_multiset() =~= ordered@.to_multiset());
            assert forall|i: int| 0 <= i < ordered@.len() implies original.contains(
                #[trigger] ordered@[i],
            ) by {
                assert(ordered@.to_multiset().count(ordered@[i]) > 0);
            }
        }
        self.individuals = ordered;
    }
}

} // verus!
