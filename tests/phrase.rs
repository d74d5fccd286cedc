use evolutionary_algorithms::phrase::{
    apply_mutations, count_matches, printable_at, replacement_for, mutate_chars, random_printable, random_replacements, splice,
    target, Phrase, TARGET_LEN,
};
use evolutionary_algorithms::{evolve, Individual, Population};

fn chars(s: &str) -> Vec<char> {
    s.chars().collect()
}

#[test]
fn target_is_the_line() {
    assert_eq!(target(), chars("To be, or not to be--that is the question"));
    assert_eq!(TARGET_LEN, 41);
}

#[test]
fn count_matches_counts_equal_positions() {
    assert_eq!(count_matches(&chars("abcd"), &chars("abzd")), 3);
    assert_eq!(count_matches(&chars("abc"), &chars("xyz")), 0);
    assert_eq!(count_matches(&chars("ab"), &chars("abcdef")), 2);
    assert_eq!(count_matches(&chars(""), &chars("abc")), 0);
}

#[test]
fn phrase_fitness_counts_target_matches() {
    let exact = Phrase::from_chars(target());
    assert_eq!(exact.fitness(), 41);
    let mut near = target();
    near[0] = 'X';
    near[40] = '?';
    assert_eq!(Phrase::from_chars(near).fitness(), 39);
    assert_eq!(Phrase::from_chars(chars("To be")).fitness(), 5);
}

#[test]
fn splice_takes_prefix_then_suffix() {
    let a = chars("abcdef");
    let b = chars("uvwxyz");
    assert_eq!(splice(&a, &b, 2), chars("abwxyz"));
    assert_eq!(splice(&a, &b, 0), b);
    assert_eq!(splice(&a, &b, 6), a);
}

#[test]
fn phrase_crossover_at_splits_parents() {
    let a = Phrase::from_chars(chars("aaaaaa"));
    let b = Phrase::from_chars(chars("bbbbbb"));
    assert_eq!(a.crossover_at(&b, 4).chars(), &chars("aaaabb"));
    let child = a.crossover(&b);
    let s = child.chars();
    assert_eq!(s.len(), 6);
    let k = s.iter().take_while(|&&c| c == 'a').count();
    assert!(k < 6);
    assert!(s[k..].iter().all(|&c| c == 'b'));
}

#[test]
fn random_printable_is_printable() {
    for _ in 0..2000 {
        let c = random_printable();
        assert!((' '..='~').contains(&c));
    }
}

#[test]
fn mutation_keeps_length_and_printability() {
    let line = target();
    let mut changed = 0;
    for _ in 0..200 {
        let m = mutate_chars(&line);
        assert_eq!(m.len(), line.len());
        for (x, y) in m.iter().zip(line.iter()) {
            if x != y {
                changed += 1;
                assert!((' '..='~').contains(x));
            }
        }
    }
    assert!(changed < 8200 / 4);
}

#[test]
fn new_random_phrase_has_target_length() {
    let p = Phrase::new_random();
    assert_eq!(p.chars().len(), TARGET_LEN);
    assert!(p.chars().iter().all(|c| (' '..='~').contains(c)));
}

#[test]
fn evolve_reaches_target_line() {
    let line = target();
    let done = |p: &Population<Phrase>| match p.fittest() {
        None => true,
        Some(f) => f.chars() == &line,
    };
    let last = evolve(1000, done).expect("the target line is reached");
    assert_eq!(last.len(), 1000);
    let best = last.fittest().unwrap();
    assert_eq!(best.chars(), &target());
    assert_eq!(best.fitness(), 41);
}

#[test]
fn apply_mutations_replaces_exactly_the_drawn_positions() {
    let line = chars("abcd");
    let r = apply_mutations(&line, &vec![None, Some('X'), None, Some('~')]);
    assert_eq!(r, chars("aXc~"));
}

#[test]
fn apply_mutations_without_draws_changes_nothing() {
    let line = target();
    let r = apply_mutations(&line, &vec![None; line.len()]);
    assert_eq!(r, line);
    assert!(apply_mutations(&Vec::new(), &Vec::new()).is_empty());
}

#[test]
fn random_replacements_are_rare_and_printable() {
    let draws = random_replacements(5000);
    assert_eq!(draws.len(), 5000);
    let fired: Vec<char> = draws.iter().flatten().copied().collect();
    assert!(fired.len() < 5000 / 4);
    assert!(fired.iter().all(|c| (' '..='~').contains(c)));
}

#[test]
fn phrase_mutate_keeps_printable_line() {
    let mut p = Phrase::new_random();
    for _ in 0..50 {
        p.mutate();
    }
    assert_eq!(p.chars().len(), TARGET_LEN);
    assert!(p.chars().iter().all(|c| (' '..='~').contains(c)));
}

#[test]
fn printable_at_counts_from_space() {
    assert_eq!(printable_at(0), ' ');
    assert_eq!(printable_at(33), 'A');
    assert_eq!(printable_at(94), '~');
}

#[test]
fn replacement_fires_only_when_drawn() {
    assert_eq!(replacement_for(true, 65), Some('a'));
    assert_eq!(replacement_for(false, 65), None);
}
