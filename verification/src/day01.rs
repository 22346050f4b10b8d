//! Two lists of location numbers: how far apart they are, and how alike.
use vstd::prelude::*;
use crate::adaptors::{ascending, sorted};
use crate::counting::{count_below, lemma_count_bound, lemma_sum_grows, sum_below};
use crate::error::PuzzleError;
use crate::text::{chars_of, lines, number32, parse_u32, rows, split_lines, split_words, words};

verus! {

/// The two columns of the location list.
#[derive(Debug, PartialEq, Eq)]
pub struct Locations {
    pub left: Vec<u32>,
    pub right: Vec<u32>,
}

/// The distance between the `i`-th items of two lists.
pub open spec fn gap_at(a: Seq<u32>, b: Seq<u32>) -> spec_fn(int) -> int {
    |i: int|
        if a[i] >= b[i] {
            a[i] - b[i]
        } else {
            b[i] - a[i]
        }
}

/// The sum of the distances between the items of two lists, position by
/// position, as far as the shorter list reaches.
pub open spec fn total_gap(a: Seq<u32>, b: Seq<u32>) -> int {
    sum_below(
        if a.len() <= b.len() {
            a.len() as int
        } else {
            b.len() as int
        },
        gap_at(a, b),
    )
}

/// Whether the `i`-th item of a list is `value`.
pub open spec fn is_value(s: Seq<u32>, value: u32) -> spec_fn(int) -> bool {
    |i: int| s[i] == value
}

/// How often `value` occurs in `s`, as a 32-bit number.
pub open spec fn frequency(s: Seq<u32>, value: u32) -> int {
    count_below(s.len() as int, is_value(s, value)) as int % 0x1_0000_0000
}

/// What the `i`-th item on the left adds to the similarity score.
pub open spec fn likeness_at(left: Seq<u32>, right: Seq<u32>) -> spec_fn(int) -> int {
    |i: int| frequency(right, left[i]) * left[i]
}

/// The similarity score: every item on the left, times how often it occurs on the right.
pub open spec fn similarity(left: Seq<u32>, right: Seq<u32>) -> int {
    sum_below(left.len() as int, likeness_at(left, right))
}

/// The two numbers that a line starts with. Further words are not looked at.
pub open spec fn pair_of(line: Seq<char>) -> Option<(u32, u32)> {
    let w = words(line);
    if w.len() >= 2 && number32(w[0]) is Some && number32(w[1]) is Some {
        Some((number32(w[0])->0, number32(w[1])->0))
    } else {
        None
    }
}

impl Locations {
    /// Pairs the smallest left item with the smallest right item, the second
    /// smallest with the second smallest and so on, and adds up how far
    /// apart the two items of each pair are.
    pub fn sort_and_abs_diff(&self) -> (r: u32)
        requires
            total_gap(self.left@.sort_by(ascending()), self.right@.sort_by(ascending()))
                <= u32::MAX,
        ensures
            r == total_gap(self.left@.sort_by(ascending()), self.right@.sort_by(ascending())),
    {
        let a = sorted(&self.left);
        let b = sorted(&self.right);
        proof {
            assert(vstd::relations::total_ordering(ascending()));
            self.left@.lemma_sort_by_ensures(ascending());
            self.right@.lemma_sort_by_ensures(ascending());
            vstd::seq_lib::lemma_sorted_unique(a@, self.left@.sort_by(ascending()), ascending());
            vstd::seq_lib::lemma_sorted_unique(b@, self.right@.sort_by(ascending()), ascending());
        }
        let n = if a.len() <= b.len() {
            a.len()
        } else {
            b.len()
        };
        let mut total: u32 = 0;
        let mut i: usize = 0;
        while i < n
            invariant
                i <= n,
                n <= a.len(),
                n <= b.len(),
                total == sum_below(i as int, gap_at(a@, b@)),
                sum_below(n as int, gap_at(a@, b@)) <= u32::MAX,
            decreases n - i,
        {
            let d = if a[i] >= b[i] {
                a[i] - b[i]
            } else {
                b[i] - a[i]
            };
            proof {
                assert forall|k: int| 0 <= k < n implies 0 <= #[trigger] gap_at(a@, b@)(k) by {}
                lemma_sum_grows(i + 1, n as int, gap_at(a@, b@));
            }
            total = total + d;
            i += 1;
        }
        total
    }

    /// How often `value` occurs in the right list.
    pub fn calculate_frequency_in_right(&self, value: u32) -> (r: u32)
        ensures
            r == frequency(self.right@, value),
    {
        let mut count: usize = 0;
        let mut i: usize = 0;
        while i < self.right.len()
            invariant
                i <= self.right.len(),
                count == count_below(i as int, is_value(self.right@, value)),
            decreases self.right.len() - i,
        {
            proof {
                lemma_count_bound(i as int, is_value(self.right@, value));
            }
            if self.right[i] == value {
                count += 1;
            }
            i += 1;
        }
        ((count as u64) % 0x1_0000_0000) as u32
    }

    /// Adds up, for every item of the left list, the item times how often
    /// it occurs in the right list.
    pub fn calculate_similarity_score(&self) -> (r: u32)
        requires
            similarity(self.left@, self.right@) <= u32::MAX,
        ensures
            r == similarity(self.left@, self.right@),
    {
        let mut total: u32 = 0;
        let mut i: usize = 0;
        while i < self.left.len()
            invariant
                i <= self.left.len(),
                total == sum_below(i as int, likeness_at(self.left@, self.right@)),
                similarity(self.left@, self.right@) <= u32::MAX,
            decreases self.left.len() - i,
        {
            let x = self.left[i];
            let f = self.calculate_frequency_in_right(x);
            proof {
                assert forall|k: int| 0 <= k < self.left.len() implies 0 <= #[trigger] likeness_at(
                    self.left@,
                    self.right@,
                )(k) by {
                    assert(0 <= frequency(self.right@, self.left@[k]) * self.left@[k])
                        by (nonlinear_arith)
                        requires
                            0 <= frequency(self.right@, self.left@[k]),
                            0 <= self.left@[k],
                    ;
                }
                lemma_sum_grows(
                    i + 1,
                    self.left.len() as int,
                    likeness_at(self.left@, self.right@),
                );
                lemma_sum_grows(i as int, i + 1, likeness_at(self.left@, self.right@));
            }
            let term: u64 = (f as u64) * (x as u64);
            total = total + (term as u32);
            i += 1;
        }
        total
    }
}

/// Whether every line of `text` starts with two numbers.
pub open spec fn well_formed(text: Seq<char>) -> bool {
    forall|i: int| 0 <= i < lines(text).len() ==> pair_of(#[trigger] lines(text)[i]) is Some
}

/// The first number of every line of `text`.
pub open spec fn left_column(text: Seq<char>) -> Seq<u32> {
    Seq::new(lines(text).len(), |i: int| pair_of(lines(text)[i]).unwrap().0)
}

/// The second number of every line of `text`.
pub open spec fn right_column(text: Seq<char>) -> Seq<u32> {
    Seq::new(lines(text).len(), |i: int| pair_of(lines(text)[i]).unwrap().1)
}

/// Reads the two lists: every line starts with a left and a right number.
/// Fails when some line does not.
pub fn parse(input: &str) -> (r: Result<Locations, PuzzleError>)
    ensures
        match r {
            Ok(l) => {
                &&& well_formed(input@)
                &&& l.left@ == left_column(input@)
                &&& l.right@ == right_column(input@)
            },
            Err(e) => e == PuzzleError::MalformedInput && !well_formed(input@),
        },
{
    let text = chars_of(input);
    let all = split_lines(&text);
    let mut left: Vec<u32> = Vec::new();
    let mut right: Vec<u32> = Vec::new();
    let mut i: usize = 0;
    while i < all.len()
        invariant
            i <= all.len(),
            rows(all@) == lines(input@),
            left.len() == i,
            right.len() == i,
            forall|k: int|
                0 <= k < i ==> pair_of(#[trigger] lines(input@)[k]) == Some((left[k], right[k])),
        decreases all.len() - i,
    {
        assert(lines(input@)[i as int] == all[i as int]@);
        let w = split_words(&all[i]);
        if w.len() < 2 {
            assert(rows(w@).len() == w.len());
            return Err(PuzzleError::MalformedInput);
        }
        assert(rows(w@)[0] == w[0]@ && rows(w@)[1] == w[1]@);
        let a = parse_u32(&w[0]);
        let b = parse_u32(&w[1]);
        match (a, b) {
            (Some(x), Some(y)) => {
                left.push(x);
                right.push(y);
            },
            _ => {
                return Err(PuzzleError::MalformedInput);
            },
        }
        i += 1;
    }
    assert(left@ =~= left_column(input@));
    assert(right@ =~= right_column(input@));
    Ok(Locations { left, right })
}

/// Both answers for a location list given as text: the total distance
/// between the sorted columns, and the similarity score.
pub fn solve(input: &str) -> (r: Result<(u32, u32), PuzzleError>)
    requires
        total_gap(
            left_column(input@).sort_by(ascending()),
            right_column(input@).sort_by(ascending()),
        ) <= u32::MAX,
        similarity(left_column(input@), right_column(input@)) <= u32::MAX,
    ensures
        match r {
            Ok((distance, score)) => {
                &&& well_formed(input@)
                &&& distance == total_gap(
                    left_column(input@).sort_by(ascending()),
                    right_column(input@).sort_by(ascending()),
                )
                &&& score == similarity(left_column(input@), right_column(input@))
            },
            Err(e) => e == PuzzleError::MalformedInput && !well_formed(input@),
        },
{
    match parse(input) {
        Ok(l) => {
            let distance = l.sort_and_abs_diff();
            let score = l.calculate_similarity_score();
            Ok((distance, score))
        },
        Err(e) => Err(e),
    }
}

} // verus!
