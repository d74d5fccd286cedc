//! An individual that is a line of printable ASCII text, scored by how many
//! positions agree with a fixed target line.
use vstd::prelude::*;

use crate::random::{gen_below, gen_ratio};
use crate::Individual;

verus! {

/// The number of characters of the target line.
pub const TARGET_LEN: usize = 41;

/// The chance, one in this many, that mutation replaces a given character.
pub const MUTATION_ODDS: u32 = 100;

/// The lowest printable ASCII character (space).
pub const FIRST_PRINTABLE: u8 = 32;

/// The number of printable ASCII characters, space to tilde.
pub const PRINTABLE_COUNT: usize = 95;

/// The target line that the phrases evolve towards.
pub open spec fn target_line() -> Seq<char> {
    seq!['T', 'o', ' ', 'b', 'e', ',', ' ', 'o', 'r', ' ', 'n', 'o', 't', ' ', 't', 'o', ' ', 'b', 'e', '-', '-', 't', 'h', 'a', 't', ' ', 'i', 's', ' ', 't', 'h', 'e', ' ', 'q', 'u', 'e', 's', 't', 'i', 'o', 'n']
}

/// True for the printable ASCII characters, space to tilde.
pub open spec fn is_printable(c: char) -> bool {
    ' ' <= c <= '~'
}

/// The number of positions below `n` at which `s` and `t` hold the same
/// character.
pub open spec fn matches_below(s: Seq<char>, t: Seq<char>, n: nat) -> nat
    decreases n,
{
    if n == 0 {
        0
    } else {
        let before = matches_below(s, t, (n - 1) as nat);
        if s[n - 1] == t[n - 1] {
            before + 1
        } else {
            before
        }
    }
}

/// The number of positions, up to the shorter length, at which `s` and `t`
/// agree.
pub open spec fn matches(s: Seq<char>, t: Seq<char>) -> nat {
    matches_below(s, t, if s.len() <= t.len() { s.len() } else { t.len() })
}

/// A count of agreeing positions never exceeds the positions looked at.
pub proof fn lemma_matches_below_bound(s: Seq<char>, t: Seq<char>, n: nat)
    ensures
        matches_below(s, t, n) <= n,
    decreases n,
{
    if n > 0 {
        lemma_matches_below_bound(s, t, (n - 1) as nat);
    }
}

/// True when `child` is a single-point crossover of `first` and `second` at
/// `k`: the first `k` characters of `first`, then those of `second` from `k`.
pub open spec fn spliced_at(child: Seq<char>, first: Seq<char>, second: Seq<char>, k: int) -> bool {
    &&& 0 <= k <= first.len()
    &&& k <= second.len()
    &&& child.len() == second.len()
    &&& forall|i: int| 0 <= i < k ==> child[i] == first[i]
    &&& forall|i: int| k <= i < second.len() ==> child[i] == second[i]
}

/// True when `after` has the length of `before` and each of its characters is
/// either the one before or printable.
pub open spec fn mutated_from(after: Seq<char>, before: Seq<char>) -> bool {
    &&& after.len() == before.len()
    &&& forall|i: int| 0 <= i < after.len() ==> after[i] == before[i] || is_printable(#[trigger] after[i])
}

/// True when `s` is as long as the target line and wholly printable.
pub open spec fn is_printable_line(s: Seq<char>) -> bool {
    &&& s.len() == TARGET_LEN
    &&& forall|i: int| 0 <= i < s.len() ==> is_printable(#[trigger] s[i])
}

/// The target line, as characters.
pub fn target() -> (r: Vec<char>)
    ensures
        r@ == target_line(),
{
    let r = vec!['T', 'o', ' ', 'b', 'e', ',', ' ', 'o', 'r', ' ', 'n', 'o', 't', ' ', 't', 'o', ' ', 'b', 'e', '-', '-', 't', 'h', 'a', 't', ' ', 'i', 's', ' ', 't', 'h', 'e', ' ', 'q', 'u', 'e', 's', 't', 'i', 'o', 'n'];
    assert(r@ =~= target_line());
    r
}

/// The number of positions, up to the shorter length, at which `s` and `t`
/// agree.
pub fn count_matches(s: &Vec<char>, t: &Vec<char>) -> (r: usize)
    ensures
        r == matches(s@, t@),
{
    let n = if s.len() <= t.len() {
        s.len()
    } else {
        t.len()
    };
    let mut count: usize = 0;
    let mut i: usize = 0;
    while i < n
        invariant
            i <= n,
            n <= s@.len(),
            n <= t@.len(),
            n == (if s@.len() <= t@.len() { s@.len() } else { t@.len() }),
            count == matches_below(s@, t@, i as nat),
        decreases n - i,
    {
        proof {
            lemma_matches_below_bound(s@, t@, i as nat);
        }
        if s[i] == t[i] {
            count = count + 1;
        }
        i = i + 1;
    }
    count
}

/// The child of a single-point crossover at `k`: the first `k` characters of
/// `first`, then the characters of `second` from position `k` on.
pub fn splice(first: &Vec<char>, second: &Vec<char>, k: usize) -> (r: Vec<char>)
    requires
        k <= first@.len(),
        k <= second@.len(),
    ensures
        r@.len() == second@.len(),
        forall|i: int| 0 <= i < k ==> r@[i] == first@[i],
        forall|i: int| k <= i < second@.len() ==> r@[i] == second@[i],
{
    let mut child: Vec<char> = Vec::with_capacity(second.len());
    let mut i: usize = 0;
    while i < second.len()
        invariant
            k <= first@.len(),
            k <= second@.len(),
            i <= second@.len(),
            child@.len() == i,
            forall|j: int| 0 <= j < i && j < k ==> child@[j] == first@[j],
            forall|j: int| k <= j < i ==> child@[j] == second@[j],
        decreases second@.len() - i,
    {
        if i < k {
            child.push(first[i]);
        } else {
            child.push(second[i]);
        }
        i = i + 1;
    }
    child
}

/// A printable ASCII character drawn uniformly at random.
pub fn random_printable() -> (r: char)
    ensures
        is_printable(r),
{
    printable_at(gen_below(PRINTABLE_COUNT))
}

/// The printable ASCII character `offset` places after the space.
pub fn printable_at(offset: usize) -> (r: char)
    requires
        offset < PRINTABLE_COUNT,
    ensures
        r as u32 == FIRST_PRINTABLE + offset,
        is_printable(r),
{
    let code: u8 = FIRST_PRINTABLE + offset as u8;
    code as char
}

/// The replacement for one position: the printable character `offset`
/// places after the space if the mutation `fire`s there, else none.
pub fn replacement_for(fire: bool, offset: usize) -> (r: Option<char>)
    requires
        offset < PRINTABLE_COUNT,
    ensures
        fire <==> r is Some,
        r matches Some(c) ==> c as u32 == FIRST_PRINTABLE + offset && is_printable(c),
{
    if fire {
        Some(printable_at(offset))
    } else {
        None
    }
}

/// `chars` with position `i` replaced by `c` where `replacements[i]` is
/// `Some(c)`, and kept where it is `None`.
pub fn apply_mutations(chars: &Vec<char>, replacements: &Vec<Option<char>>) -> (r: Vec<char>)
    requires
        replacements@.len() == chars@.len(),
    ensures
        r@.len() == chars@.len(),
        forall|i: int|
            0 <= i < r@.len() ==> #[trigger] r@[i] == match replacements@[i] {
                Some(c) => c,
                None => chars@[i],
            },
{
    let mut mutated: Vec<char> = Vec::with_capacity(chars.len());
    let mut i: usize = 0;
    while i < chars.len()
        invariant
            replacements@.len() == chars@.len(),
            i <= chars@.len(),
            mutated@.len() == i,
            forall|j: int|
                0 <= j < i ==> #[trigger] mutated@[j] == match replacements@[j] {
                    Some(c) => c,
                    None => chars@[j],
                },
        decreases chars@.len() - i,
    {
        match replacements[i] {
            Some(c) => mutated.push(c),
            None => mutated.push(chars[i]),
        }
        i = i + 1;
    }
    mutated
}

/// For each of `count` positions independently, with chance one in
/// `MUTATION_ODDS`, a random printable replacement; `None` elsewhere.
pub fn random_replacements(count: usize) -> (r: Vec<Option<char>>)
    ensures
        r@.len() == count,
        forall|i: int| 0 <= i < r@.len() ==> (#[trigger] r@[i] matches Some(c) ==> is_printable(c)),
{
    let mut draws: Vec<Option<char>> = Vec::with_capacity(count);
    let mut i: usize = 0;
    while i < count
        invariant
            i <= count,
            draws@.len() == i,
            forall|j: int| 0 <= j < i ==> (#[trigger] draws@[j] matches Some(c) ==> is_printable(c)),
        decreases count - i,
    {
        let fire = gen_ratio(1, MUTATION_ODDS);
        let offset = if fire {
            gen_below(PRINTABLE_COUNT)
        } else {
            0
        };
        draws.push(replacement_for(fire, offset));
        i = i + 1;
    }
    draws
}

/// `chars` with each character, independently and with chance one in
/// `MUTATION_ODDS`, replaced by a random printable character.
pub fn mutate_chars(chars: &Vec<char>) -> (r: Vec<char>)
    ensures
        mutated_from(r@, chars@),
{
    let replacements = random_replacements(chars.len());
    let r = apply_mutations(chars, &replacements);
    assert forall|i: int| 0 <= i < r@.len() implies r@[i] == chars@[i] || is_printable(
        #[trigger] r@[i],
    ) by {
        assert(replacements@[i] matches Some(c) ==> is_printable(c));
    }
    r
}

/// A line of text that evolves towards the target line.
pub struct Phrase {
    chars: Vec<char>,
}

impl View for Phrase {
    type V = Seq<char>;

    closed spec fn view(&self) -> Seq<char> {
        self.chars@
    }
}

impl Phrase {
    /// The phrase made of `chars`.
    pub fn from_chars(chars: Vec<char>) -> (r: Phrase)
        ensures
            r@ == chars@,
    {
        Phrase { chars }
    }

    /// The characters of this phrase.
    pub fn chars(&self) -> (r: &Vec<char>)
        ensures
            r@ == self@,
    {
        &self.chars
    }

    /// The child of a single-point crossover of `self` and `other` at `k`.
    pub fn crossover_at(&self, other: &Phrase, k: usize) -> (r: Phrase)
        requires
            k <= self@.len(),
            k <= other@.len(),
        ensures
            r@.len() == other@.len(),
            forall|i: int| 0 <= i < k ==> r@[i] == self@[i],
            forall|i: int| k <= i < other@.len() ==> r@[i] == other@[i],
    {
        Phrase { chars: splice(&self.chars, &other.chars, k) }
    }
}

impl Individual for Phrase {
    open spec fn fitness_of(&self) -> int {
        matches(self@, target_line()) as int
    }

    open spec fn is_fresh(&self) -> bool {
        is_printable_line(self@)
    }

    open spec fn is_child_of(&self, first: &Phrase, second: &Phrase) -> bool {
        exists|k: int| #[trigger]
            spliced_at(self@, first@, second@, k) && (k == 0 || (k < first@.len() && k < second@.len()))
    }

    open spec fn is_mutant_of(&self, before: &Phrase) -> bool {
        mutated_from(self@, before@)
    }

    fn new_random() -> (r: Phrase) {
        let mut chars: Vec<char> = Vec::with_capacity(TARGET_LEN);
        let mut i: usize = 0;
        while i < TARGET_LEN
            invariant
                i <= TARGET_LEN,
                chars@.len() == i,
                forall|j: int| 0 <= j < i ==> is_printable(#[trigger] chars@[j]),
            decreases TARGET_LEN - i,
        {
            chars.push(random_printable());
            i = i + 1;
        }
        Phrase { chars }
    }

    fn fitness(&self) -> (r: i32) {
        let line = target();
        let count = count_matches(&self.chars, &line);
        proof {
            let shorter = if self@.len() <= line@.len() {
                self@.len()
            } else {
                line@.len()
            };
            lemma_matches_below_bound(self@, line@, shorter);
            assert(line@.len() == TARGET_LEN);
        }
        count as i32
    }

    fn crossover(&self, other: &Phrase) -> (r: Phrase) {
        let shorter = if self.chars.len() <= other.chars.len() {
            self.chars.len()
        } else {
            other.chars.len()
        };
        let k = if shorter == 0 {
            0
        } else {
            gen_below(shorter)
        };
        let r = self.crossover_at(other, k);
        assert(spliced_at(r@, self@, other@, k as int));
        r
    }

    fn mutate(&mut self) {
        self.chars = mutate_chars(&self.chars);
    }
}

} // verus!
