use evolutionary_algorithms::{evolve, parent_pool_len, random_draws, Individual, Population};

/// An individual that records which parents it came from. Its fitness is its
/// tag minus a penalty that mutation adds to.
#[derive(Clone, Debug, PartialEq)]
struct Tagged {
    tag: i32,
    parents: (i32, i32),
    penalty: i32,
}

impl Tagged {
    fn new(tag: i32) -> Tagged {
        Tagged { tag, parents: (-1, -1), penalty: 0 }
    }
}

impl Individual for Tagged {
    fn new_random() -> Tagged {
        Tagged::new(rand::random::<i32>() % 1000)
    }

    fn fitness(&self) -> i32 {
        self.tag - self.penalty
    }

    fn crossover(&self, other: &Tagged) -> Tagged {
        Tagged { tag: self.tag.max(other.tag), parents: (self.tag, other.tag), penalty: 0 }
    }

    fn mutate(&mut self) {
        self.penalty += 1000;
    }
}

fn tags(p: &Population<Tagged>) -> Vec<i32> {
    p.as_slice().iter().map(|t| t.tag).collect()
}

fn fitnesses(p: &Population<Tagged>) -> Vec<i32> {
    p.as_slice().iter().map(|t| t.fitness()).collect()
}

fn is_descending(v: &[i32]) -> bool {
    v.windows(2).all(|w| w[0] >= w[1])
}

fn tagged_population(tags: &[i32]) -> Population<Tagged> {
    Population::from_vec(tags.iter().map(|&t| Tagged::new(t)).collect())
}

#[test]
fn gen_initial_is_sorted_and_sized() {
    for size in [0usize, 1, 2, 17, 100] {
        let p = Population::<Tagged>::gen_initial(size);
        assert_eq!(p.len(), size);
        assert!(is_descending(&fitnesses(&p)));
    }
}

#[test]
fn breeding_keeps_size_and_order() {
    for size in [2usize, 3, 10, 51] {
        let p = Population::<Tagged>::gen_initial(size);
        let next = p.breed_next_generation();
        assert_eq!(next.len(), size);
        assert!(is_descending(&fitnesses(&next)));
    }
}

#[test]
fn empty_population_breeds_to_empty() {
    let p = Population::<Tagged>::gen_initial(0);
    let next = p.breed_next_generation();
    assert_eq!(next.len(), 0);
    assert!(next.fittest().is_none());
}

#[test]
fn lone_individual_breeds_with_itself() {
    let p = tagged_population(&[7]);
    let next = p.breed_next_generation();
    assert_eq!(next.len(), 1);
    assert_eq!(next.get(0).parents, (7, 7));
}

#[test]
fn parent_pool_is_top_half() {
    assert_eq!(parent_pool_len(0), 0);
    assert_eq!(parent_pool_len(1), 1);
    assert_eq!(parent_pool_len(2), 1);
    assert_eq!(parent_pool_len(7), 3);
    assert_eq!(parent_pool_len(10), 5);
}

#[test]
fn parents_come_from_fittest_half() {
    let all: Vec<i32> = (0..11).collect();
    let p = tagged_population(&all);
    assert_eq!(tags(&p), vec![10, 9, 8, 7, 6, 5, 4, 3, 2, 1, 0]);
    for _ in 0..20 {
        let next = p.breed_next_generation();
        assert_eq!(next.len(), 11);
        for child in next.as_slice() {
            assert!(child.parents.0 >= 6 && child.parents.1 >= 6, "{:?}", child);
        }
    }
}

#[test]
fn draws_name_the_parents() {
    let p = tagged_population(&[3, 9, 5, 1]);
    assert_eq!(tags(&p), vec![9, 5, 3, 1]);
    let next = p.breed_with_draws(&vec![(0, 1), (1, 1), (1, 0), (0, 0)]);
    let mut parents: Vec<(i32, i32)> = next.as_slice().iter().map(|t| t.parents).collect();
    parents.sort();
    assert_eq!(parents, vec![(5, 5), (5, 9), (9, 5), (9, 9)]);
    assert!(next.as_slice().iter().all(|t| t.penalty == 1000));
}

#[test]
fn random_draws_stay_in_pool() {
    let draws = random_draws(3, 200);
    assert_eq!(draws.len(), 200);
    assert!(draws.iter().all(|&(a, b)| a < 3 && b < 3));
    assert!(random_draws(0, 0).is_empty());
}

#[test]
fn best_fitness_can_fall_between_generations() {
    let p = tagged_population(&[10, 20, 30, 40]);
    let best = p.fittest().unwrap().fitness();
    assert_eq!(best, 40);
    let next = p.breed_with_draws(&vec![(0, 0), (0, 1), (1, 0), (1, 1)]);
    let next_best = next.fittest().unwrap().fitness();
    assert_eq!(next_best, 40 - 1000);
    assert!(next_best < best);
}

#[test]
fn fittest_is_first() {
    let p = tagged_population(&[4, 8, -2, 8, 6]);
    let f = p.fittest().unwrap();
    assert_eq!(f, p.get(0));
    assert_eq!(f.tag, 8);
    assert!(p.as_slice().iter().all(|t| t.fitness() <= f.fitness()));
}

#[test]
fn fittest_of_empty_is_none() {
    let p = tagged_population(&[]);
    assert!(p.fittest().is_none());
    assert!(p.is_empty());
}

#[test]
fn sorting_sorted_population_changes_nothing() {
    let mut p = Population::from_vec(vec![
        Tagged { tag: 5, parents: (1, 1), penalty: 0 },
        Tagged { tag: 5, parents: (2, 2), penalty: 0 },
        Tagged { tag: 3, parents: (3, 3), penalty: 0 },
        Tagged { tag: 3, parents: (4, 4), penalty: 0 },
        Tagged { tag: 1, parents: (5, 5), penalty: 0 },
    ]);
    let before: Vec<Tagged> = p.as_slice().to_vec();
    let order: Vec<(i32, i32)> = before.iter().map(|t| t.parents).collect();
    assert_eq!(order, vec![(1, 1), (2, 2), (3, 3), (4, 4), (5, 5)]);
    p.sort_by_fitness();
    assert_eq!(p.as_slice().to_vec(), before);
}

#[test]
fn parent_pool_holds_the_fittest_half() {
    let p = tagged_population(&[2, 9, 4, 7, 1]);
    let pool: Vec<i32> = p.parent_pool().iter().map(|t| t.tag).collect();
    assert_eq!(pool, vec![9, 7]);
    let lone = tagged_population(&[3]);
    assert_eq!(lone.parent_pool().len(), 1);
    assert!(tagged_population(&[]).parent_pool().is_empty());
}

#[test]
fn evolve_on_empty_population_stops_at_once() {
    let last = evolve(0, |p: &Population<Tagged>| p.fittest().is_none()).expect("stops at once");
    assert_eq!(last.len(), 0);
}

#[test]
fn evolve_returns_first_population_that_satisfies_until() {
    let last = evolve(8, |p: &Population<Tagged>| p.fittest().map_or(false, |f| f.penalty > 0))
        .expect("a bred generation is mutated");
    assert_eq!(last.len(), 8);
    assert!(last.as_slice().iter().all(|t| t.penalty == 1000));
}
