//! Reports of levels, and which of them change gently in one direction.
use vstd::prelude::*;
use crate::adaptors::adjacent_pairs;
use crate::counting::{count_below, lemma_count_bound};
use crate::error::PuzzleError;
use crate::text::{chars_of, lines, number32, parse_u32, rows, split_lines, split_words, words};

verus! {

/// One report: a list of levels.
#[derive(Debug, PartialEq, Eq)]
pub struct Report {
    pub levels: Vec<u32>,
}

/// How far apart two levels are.
pub open spec fn apart(a: u32, b: u32) -> int {
    if a >= b {
        a - b
    } else {
        b - a
    }
}

/// The distances between neighbouring levels.
pub open spec fn differences(s: Seq<u32>) -> Seq<u32> {
    Seq::new(
        if s.len() >= 1 {
            (s.len() - 1) as nat
        } else {
            0
        },
        |i: int| apart(s[i], s[i + 1]) as u32,
    )
}

/// Every level is below its successor.
pub open spec fn rising(s: Seq<u32>) -> bool {
    forall|i: int| 0 <= i < s.len() - 1 ==> #[trigger] s[i] < s[i + 1]
}

/// Every level is above its successor.
pub open spec fn falling(s: Seq<u32>) -> bool {
    forall|i: int| 0 <= i < s.len() - 1 ==> #[trigger] s[i] > s[i + 1]
}

/// Neighbouring levels differ by at least one and at most three.
pub open spec fn gentle(s: Seq<u32>) -> bool {
    forall|i: int| 0 <= i < s.len() - 1 ==> 1 <= apart(#[trigger] s[i], s[i + 1]) <= 3
}

/// A report is safe when its levels rise or fall throughout, by one to
/// three at every step.
pub open spec fn safe(s: Seq<u32>) -> bool {
    (rising(s) || falling(s)) && gentle(s)
}

/// A report is tolerable when leaving out one of its levels makes it safe.
pub open spec fn tolerable(s: Seq<u32>) -> bool {
    exists|k: int| 0 <= k < s.len() && safe(#[trigger] s.remove(k))
}

/// Whether the `i`-th report is safe.
pub open spec fn safe_at(reports: Seq<Report>) -> spec_fn(int) -> bool {
    |i: int| safe(reports[i].levels@)
}

/// Whether the `i`-th report is tolerable.
pub open spec fn tolerable_at(reports: Seq<Report>) -> spec_fn(int) -> bool {
    |i: int| tolerable(reports[i].levels@)
}

/// The levels that a line lists, if all of its words are numbers.
pub open spec fn levels_of(line: Seq<char>) -> Option<Seq<u32>> {
    let w = words(line);
    if forall|j: int| 0 <= j < w.len() ==> number32(#[trigger] w[j]) is Some {
        Some(Seq::new(w.len(), |j: int| number32(w[j]).unwrap()))
    } else {
        None
    }
}

/// Whether every line of `text` lists numbers only.
pub open spec fn well_formed(text: Seq<char>) -> bool {
    forall|i: int| 0 <= i < lines(text).len() ==> levels_of(#[trigger] lines(text)[i]) is Some
}

/// The levels of every line of `text`.
pub open spec fn reports_of(text: Seq<char>) -> Seq<Seq<u32>> {
    Seq::new(lines(text).len(), |i: int| levels_of(lines(text)[i]).unwrap())
}

/// The levels of a list of reports.
pub open spec fn levels(reports: Seq<Report>) -> Seq<Seq<u32>> {
    reports.map_values(|r: Report| r.levels@)
}

/// `values` without the item at index `skip`.
fn without(values: &Vec<u32>, skip: usize) -> (out: Vec<u32>)
    requires
        skip < values.len(),
    ensures
        out@ == values@.remove(skip as int),
{
    let mut out: Vec<u32> = Vec::new();
    let mut i: usize = 0;
    while i < values.len()
        invariant
            i <= values.len(),
            skip < values.len(),
            out@ == if i <= skip {
                values@.take(i as int)
            } else {
                values@.take(i as int).remove(skip as int)
            },
        decreases values.len() - i,
    {
        let ghost before = out@;
        if i != skip {
            out.push(values[i]);
        }
        i += 1;
        assert(out@ =~= if i <= skip {
            values@.take(i as int)
        } else {
            values@.take(i as int).remove(skip as int)
        });
    }
    assert(values@.take(values.len() as int) =~= values@);
    out
}

impl Report {
    /// The distances between neighbouring levels.
    pub fn get_adj_difference(&self) -> (r: Vec<u32>)
        ensures
            r@ == differences(self.levels@),
    {
        let pairs = adjacent_pairs(&self.levels);
        let mut out: Vec<u32> = Vec::new();
        let mut i: usize = 0;
        while i < pairs.len()
            invariant
                i <= pairs.len(),
                pairs.len() == differences(self.levels@).len(),
                forall|k: int|
                    0 <= k < pairs.len() ==> #[trigger] pairs[k] == (
                        self.levels[k],
                        self.levels[k + 1],
                    ),
                out@ == differences(self.levels@).take(i as int),
            decreases pairs.len() - i,
        {
            let (a, b) = pairs[i];
            let d = if a >= b {
                a - b
            } else {
                b - a
            };
            out.push(d);
            i += 1;
            assert(out@ =~= differences(self.levels@).take(i as int));
        }
        assert(differences(self.levels@).take(pairs.len() as int) =~= differences(self.levels@));
        out
    }

    /// Whether the levels rise throughout or fall throughout.
    pub fn is_strictly_monoton(&self) -> (r: bool)
        ensures
            r == (rising(self.levels@) || falling(self.levels@)),
    {
        let pairs = adjacent_pairs(&self.levels);
        let mut up = true;
        let mut down = true;
        let mut i: usize = 0;
        while i < pairs.len()
            invariant
                i <= pairs.len(),
                self.levels.len() < 2 ==> pairs.len() == 0,
                self.levels.len() >= 2 ==> pairs.len() == self.levels.len() - 1,
                forall|k: int|
                    0 <= k < pairs.len() ==> #[trigger] pairs[k] == (
                        self.levels[k],
                        self.levels[k + 1],
                    ),
                up == forall|k: int| 0 <= k < i ==> #[trigger] self.levels[k] < self.levels[k + 1],
                down == forall|k: int|
                    0 <= k < i ==> #[trigger] self.levels[k] > self.levels[k + 1],
            decreases pairs.len() - i,
        {
            let (a, b) = pairs[i];
            if !(a < b) {
                up = false;
            }
            if !(a > b) {
                down = false;
            }
            i += 1;
        }
        up || down
    }

    /// Whether the report is safe.
    pub fn is_safe(&self) -> (r: bool)
        ensures
            r == safe(self.levels@),
    {
        if !self.is_strictly_monoton() {
            return false;
        }
        let d = self.get_adj_difference();
        let mut i: usize = 0;
        while i < d.len()
            invariant
                i <= d.len(),
                d@ == differences(self.levels@),
                forall|k: int| 0 <= k < i ==> 1 <= apart(#[trigger] self.levels[k], self.levels[k + 1]) <= 3,
            decreases d.len() - i,
        {
            assert(d@[i as int] == apart(self.levels[i as int], self.levels[i + 1]) as u32);
            if !(1 <= d[i] && d[i] <= 3) {
                return false;
            }
            i += 1;
        }
        true
    }

    /// Whether leaving out one level makes the report safe.
    pub fn is_safe_more_tolerant(&self) -> (r: bool)
        ensures
            r == tolerable(self.levels@),
    {
        let mut k: usize = 0;
        while k < self.levels.len()
            invariant
                k <= self.levels.len(),
                forall|j: int| 0 <= j < k ==> !safe(#[trigger] self.levels@.remove(j)),
            decreases self.levels.len() - k,
        {
            let shorter = Report { levels: without(&self.levels, k) };
            if shorter.is_safe() {
                return true;
            }
            k += 1;
        }
        false
    }
}

/// How many of the reports are safe.
pub fn solve_1(reports: Vec<Report>) -> (r: u32)
    ensures
        r == count_below(reports.len() as int, safe_at(reports@)) % 0x1_0000_0000,
{
    let mut count: usize = 0;
    let mut i: usize = 0;
    while i < reports.len()
        invariant
            i <= reports.len(),
            count == count_below(i as int, safe_at(reports@)),
        decreases reports.len() - i,
    {
        proof {
            lemma_count_bound(i as int, safe_at(reports@));
        }
        if reports[i].is_safe() {
            count += 1;
        }
        i += 1;
    }
    ((count as u64) % 0x1_0000_0000) as u32
}

/// How many of the reports are tolerable.
pub fn solve_2(reports: Vec<Report>) -> (r: u32)
    ensures
        r == count_below(reports.len() as int, tolerable_at(reports@)) % 0x1_0000_0000,
{
    let mut count: usize = 0;
    let mut i: usize = 0;
    while i < reports.len()
        invariant
            i <= reports.len(),
            count == count_below(i as int, tolerable_at(reports@)),
        decreases reports.len() - i,
    {
        proof {
            lemma_count_bound(i as int, tolerable_at(reports@));
        }
        if reports[i].is_safe_more_tolerant() {
            count += 1;
        }
        i += 1;
    }
    ((count as u64) % 0x1_0000_0000) as u32
}

/// Reads the numbers of one line.
fn parse_line(line: &Vec<char>) -> (r: Option<Vec<u32>>)
    ensures
        match r {
            Some(v) => levels_of(line@) == Some(v@),
            None => levels_of(line@) is None,
        },
{
    let w = split_words(line);
    let mut out: Vec<u32> = Vec::new();
    let mut j: usize = 0;
    while j < w.len()
        invariant
            j <= w.len(),
            rows(w@) == words(line@),
            out.len() == j,
            forall|k: int| 0 <= k < j ==> number32(#[trigger] words(line@)[k]) == Some(out[k]),
        decreases w.len() - j,
    {
        assert(words(line@)[j as int] == w[j as int]@);
        match parse_u32(&w[j]) {
            Some(x) => {
                out.push(x);
            },
            None => {
                return None;
            },
        }
        j += 1;
    }
    assert(out@ =~= levels_of(line@).unwrap());
    Some(out)
}

/// Reads one report per line. Fails when a word is not a number.
pub fn parse(input: &str) -> (r: Result<Vec<Report>, PuzzleError>)
    ensures
        match r {
            Ok(v) => well_formed(input@) && levels(v@) == reports_of(input@),
            Err(e) => e == PuzzleError::MalformedInput && !well_formed(input@),
        },
{
    let text = chars_of(input);
    let all = split_lines(&text);
    let mut out: Vec<Report> = Vec::new();
    let mut i: usize = 0;
    while i < all.len()
        invariant
            i <= all.len(),
            rows(all@) == lines(input@),
            out.len() == i,
            forall|k: int|
                0 <= k < i ==> levels_of(#[trigger] lines(input@)[k]) == Some(out[k].levels@),
        decreases all.len() - i,
    {
        assert(lines(input@)[i as int] == all[i as int]@);
        match parse_line(&all[i]) {
            Some(v) => {
                out.push(Report { levels: v });
            },
            None => {
                return Err(PuzzleError::MalformedInput);
            },
        }
        i += 1;
    }
    assert(levels(out@) =~= reports_of(input@));
    Ok(out)
}

/// Whether the `i`-th list of levels is safe.
pub open spec fn safe_in(all: Seq<Seq<u32>>) -> spec_fn(int) -> bool {
    |i: int| safe(all[i])
}

/// Whether the `i`-th list of levels is tolerable.
pub open spec fn tolerable_in(all: Seq<Seq<u32>>) -> spec_fn(int) -> bool {
    |i: int| tolerable(all[i])
}

/// Both answers for reports given as text: how many are safe, and how
/// many are tolerable.
pub fn solve(input: &str) -> (r: Result<(u32, u32), PuzzleError>)
    ensures
        match r {
            Ok((first, second)) => {
                &&& well_formed(input@)
                &&& first == count_below(
                    reports_of(input@).len() as int,
                    safe_in(reports_of(input@)),
                ) % 0x1_0000_0000
                &&& second == count_below(
                    reports_of(input@).len() as int,
                    tolerable_in(reports_of(input@)),
                ) % 0x1_0000_0000
            },
            Err(e) => e == PuzzleError::MalformedInput && !well_formed(input@),
        },
{
    let first = match parse(input) {
        Ok(reports) => {
            proof {
                crate::counting::lemma_count_same(
                    reports.len() as int,
                    safe_at(reports@),
                    safe_in(reports_of(input@)),
                );
            }
            solve_1(reports)
        },
        Err(e) => {
            return Err(e);
        },
    };
    let second = match parse(input) {
        Ok(reports) => {
            proof {
                crate::counting::lemma_count_same(
                    reports.len() as int,
                    tolerable_at(reports@),
                    tolerable_in(reports_of(input@)),
                );
            }
            solve_2(reports)
        },
        Err(e) => {
            return Err(e);
        },
    };
    Ok((first, second))
}

} // verus!
