//! Updates of pages that have to respect a list of ordering rules.
use vstd::prelude::*;
use crate::counting::{count_below, lemma_count_bound, lemma_sum_grows, sum_below};
use crate::error::PuzzleError;
use crate::text::{
    chars_of, lines, number32, parse_u32, parts, pieces, rows, split_char, split_lines,
    split_pattern,
};

verus! {

/// Whether the rules allow page `a` directly before page `b`: the two are
/// the same page, or a rule puts `a` before `b`.
pub open spec fn allows(order: Seq<(u32, u32)>, a: u32, b: u32) -> bool {
    a == b || order.contains((a, b))
}

/// Whether the rules allow every page of an update directly before the next.
pub open spec fn in_order(pages: Seq<u32>, order: Seq<(u32, u32)>) -> bool {
    forall|i: int| 0 <= i < pages.len() - 1 ==> allows(order, #[trigger] pages[i], pages[i + 1])
}

/// The pages of an update, by index, that a rule puts before page `m`.
pub open spec fn goes_before(pages: Seq<u32>, order: Seq<(u32, u32)>, m: u32) -> spec_fn(int) -> bool {
    |j: int| pages[j] != m && order.contains((pages[j], m))
}

/// The places of an update that hold page `m`.
pub open spec fn same_page(pages: Seq<u32>, m: u32) -> spec_fn(int) -> bool {
    |j: int| pages[j] == m
}

/// Whether the page at index `i` stands in the middle once the update is
/// put in order: the pages that the rules put before it are at most half
/// of the pages, and together with its own copies they are more than half.
pub open spec fn in_the_middle(pages: Seq<u32>, order: Seq<(u32, u32)>, i: int) -> bool {
    let before = count_below(pages.len() as int, goes_before(pages, order, pages[i]));
    let copies = count_below(pages.len() as int, same_page(pages, pages[i]));
    before <= pages.len() / 2 < before + copies
}

/// The page that stands in the middle once the update is put in order:
/// the first page, from index `from` on, that is in the middle; zero if
/// the rules put none there.
pub open spec fn ordered_middle(pages: Seq<u32>, order: Seq<(u32, u32)>, from: int) -> u32
    decreases pages.len() - from,
{
    if from >= pages.len() || from < 0 {
        0
    } else if in_the_middle(pages, order, from) {
        pages[from]
    } else {
        ordered_middle(pages, order, from + 1)
    }
}

/// What the `i`-th update adds to the first answer: its middle page if it
/// is in order.
pub open spec fn middle_if_ordered(pages: Seq<Seq<u32>>, order: Seq<(u32, u32)>) -> spec_fn(int) -> int {
    |i: int|
        if in_order(pages[i], order) {
            pages[i][pages[i].len() as int / 2] as int
        } else {
            0
        }
}

/// What the `i`-th update adds to the second answer: the page that comes
/// to stand in its middle once it is put in order, if it is not in order.
pub open spec fn middle_if_disordered(pages: Seq<Seq<u32>>, order: Seq<(u32, u32)>) -> spec_fn(
    int,
) -> int {
    |i: int|
        if in_order(pages[i], order) {
            0
        } else {
            ordered_middle(pages[i], order, 0) as int
        }
}

/// The pages of a list of updates.
pub open spec fn listed(updates: Seq<Vec<u32>>) -> Seq<Seq<u32>> {
    updates.map_values(|u: Vec<u32>| u@)
}

/// Whether a rule puts `a` before `b`.
fn has_rule(order: &Vec<(u32, u32)>, a: u32, b: u32) -> (r: bool)
    ensures
        r == order@.contains((a, b)),
{
    let mut i: usize = 0;
    while i < order.len()
        invariant
            i <= order.len(),
            forall|k: int| 0 <= k < i ==> order[k] != (a, b),
        decreases order.len() - i,
    {
        let (x, y) = order[i];
        if x == a && y == b {
            assert(order@[i as int] == (a, b));
            return true;
        }
        i += 1;
    }
    false
}

/// Whether an update is in order: the rules allow every page directly
/// before the next.
pub fn check_if_sorted(pages: &[u32], order: &Vec<(u32, u32)>) -> (r: bool)
    ensures
        r == in_order(pages@, order@),
{
    if pages.len() < 2 {
        return true;
    }
    let mut i: usize = 0;
    while i < pages.len() - 1
        invariant
            i <= pages.len() - 1,
            pages.len() >= 2,
            forall|k: int| 0 <= k < i ==> allows(order@, #[trigger] pages[k], pages[k + 1]),
        decreases pages.len() - i,
    {
        let a = pages[i];
        let b = pages[i + 1];
        if !(a == b || has_rule(order, a, b)) {
            return false;
        }
        i += 1;
    }
    true
}

/// The page that comes to stand in the middle of an update once it is put in order.
fn middle_when_sorted(pages: &Vec<u32>, order: &Vec<(u32, u32)>) -> (r: u32)
    ensures
        r == ordered_middle(pages@, order@, 0),
{
    let n = pages.len();
    let mut i: usize = 0;
    while i < n
        invariant
            i <= n,
            n == pages.len(),
            ordered_middle(pages@, order@, 0) == ordered_middle(pages@, order@, i as int),
        decreases n - i,
    {
        let m = pages[i];
        let mut before: usize = 0;
        let mut copies: usize = 0;
        let mut j: usize = 0;
        while j < n
            invariant
                j <= n,
                n == pages.len(),
                before == count_below(j as int, goes_before(pages@, order@, m)),
                copies == count_below(j as int, same_page(pages@, m)),
                before <= j,
                copies <= j,
            decreases n - j,
        {
            let x = pages[j];
            if x == m {
                copies += 1;
            } else if has_rule(order, x, m) {
                before += 1;
            }
            j += 1;
        }
        if before <= n / 2 && n / 2 - before < copies {
            return m;
        }
        i += 1;
    }
    0
}

/// The sum of the middle pages of the updates that are in order.
pub fn solve_1(pages: &Vec<Vec<u32>>, order: &Vec<(u32, u32)>) -> (r: u32)
    requires
        forall|i: int| 0 <= i < pages.len() ==> (#[trigger] pages[i]).len() > 0,
        sum_below(pages.len() as int, middle_if_ordered(listed(pages@), order@)) <= u32::MAX,
    ensures
        r == sum_below(pages.len() as int, middle_if_ordered(listed(pages@), order@)),
{
    let mut total: u32 = 0;
    let mut i: usize = 0;
    while i < pages.len()
        invariant
            i <= pages.len(),
            forall|i: int| 0 <= i < pages.len() ==> (#[trigger] pages[i]).len() > 0,
            sum_below(pages.len() as int, middle_if_ordered(listed(pages@), order@)) <= u32::MAX,
            total == sum_below(i as int, middle_if_ordered(listed(pages@), order@)),
        decreases pages.len() - i,
    {
        proof {
            assert forall|k: int| 0 <= k < pages.len() implies 0 <= #[trigger] middle_if_ordered(
                listed(pages@),
                order@,
            )(k) by {}
            assert(listed(pages@)[i as int] == pages[i as int]@);
            lemma_sum_grows(i + 1, pages.len() as int, middle_if_ordered(listed(pages@), order@));
        }
        let update = &pages[i];
        if check_if_sorted(update.as_slice(), order) {
            total += update[update.len() / 2];
        }
        i += 1;
    }
    total
}

/// The sum of the pages that come to stand in the middle of the updates
/// that are not in order, once they are put in order.
pub fn solve_2(pages: &Vec<Vec<u32>>, order: &Vec<(u32, u32)>) -> (r: u32)
    requires
        sum_below(pages.len() as int, middle_if_disordered(listed(pages@), order@)) <= u32::MAX,
    ensures
        r == sum_below(pages.len() as int, middle_if_disordered(listed(pages@), order@)),
{
    let mut total: u32 = 0;
    let mut i: usize = 0;
    while i < pages.len()
        invariant
            i <= pages.len(),
            sum_below(pages.len() as int, middle_if_disordered(listed(pages@), order@)) <= u32::MAX,
            total == sum_below(i as int, middle_if_disordered(listed(pages@), order@)),
        decreases pages.len() - i,
    {
        proof {
            assert forall|k: int| 0 <= k < pages.len() implies 0 <= #[trigger] middle_if_disordered(
                listed(pages@),
                order@,
            )(k) by {}
            assert(listed(pages@)[i as int] == pages[i as int]@);
            lemma_sum_grows(i + 1, pages.len() as int, middle_if_disordered(listed(pages@), order@));
        }
        let update = &pages[i];
        if !check_if_sorted(update.as_slice(), order) {
            total += middle_when_sorted(update, order);
        }
        i += 1;
    }
    total
}

/// The rule that a line such as `47|53` states. Anything after a second
/// bar is not looked at.
pub open spec fn rule_of(line: Seq<char>) -> Option<(u32, u32)> {
    let p = pieces(line, '|');
    if p.len() >= 2 && number32(p[0]) is Some && number32(p[1]) is Some {
        Some((number32(p[0]).unwrap(), number32(p[1]).unwrap()))
    } else {
        None
    }
}

/// The pages that a line such as `75,47,61` lists.
pub open spec fn update_of(line: Seq<char>) -> Option<Seq<u32>> {
    let p = pieces(line, ',');
    if forall|j: int| 0 <= j < p.len() ==> number32(#[trigger] p[j]) is Some {
        Some(Seq::new(p.len(), |j: int| number32(p[j]).unwrap()))
    } else {
        None
    }
}

/// The two parts of a text that an empty line separates. More parts may follow.
pub open spec fn halves(text: Seq<char>) -> Seq<Seq<char>> {
    parts(text, seq!['\n', '\n'])
}

/// Whether a text has its two parts, a rule on every line of the first and
/// an update on every line of the second.
pub open spec fn well_formed(text: Seq<char>) -> bool {
    &&& halves(text).len() >= 2
    &&& forall|i: int|
        0 <= i < lines(halves(text)[0]).len() ==> rule_of(#[trigger] lines(halves(text)[0])[i]) is Some
    &&& forall|i: int|
        0 <= i < lines(halves(text)[1]).len() ==> update_of(
            #[trigger] lines(halves(text)[1])[i],
        ) is Some
}

/// The rules of a text.
pub open spec fn rules_of(text: Seq<char>) -> Seq<(u32, u32)> {
    Seq::new(lines(halves(text)[0]).len(), |i: int| rule_of(lines(halves(text)[0])[i]).unwrap())
}

/// The updates of a text.
pub open spec fn updates_of(text: Seq<char>) -> Seq<Seq<u32>> {
    Seq::new(
        lines(halves(text)[1]).len(),
        |i: int| update_of(lines(halves(text)[1])[i]).unwrap(),
    )
}

/// Reads a rule.
fn parse_rule(line: &Vec<char>) -> (r: Option<(u32, u32)>)
    ensures
        r == rule_of(line@),
{
    let p = split_char(line, '|');
    if p.len() < 2 {
        assert(rows(p@).len() == p.len());
        return None;
    }
    assert(rows(p@)[0] == p[0]@ && rows(p@)[1] == p[1]@);
    match (parse_u32(&p[0]), parse_u32(&p[1])) {
        (Some(a), Some(b)) => Some((a, b)),
        _ => None,
    }
}

/// Reads an update.
fn parse_update(line: &Vec<char>) -> (r: Option<Vec<u32>>)
    ensures
        match r {
            Some(v) => update_of(line@) == Some(v@),
            None => update_of(line@) is None,
        },
{
    let p = split_char(line, ',');
    let mut out: Vec<u32> = Vec::new();
    let mut j: usize = 0;
    while j < p.len()
        invariant
            j <= p.len(),
            rows(p@) == pieces(line@, ','),
            out.len() == j,
            forall|k: int|
                0 <= k < j ==> number32(#[trigger] pieces(line@, ',')[k]) == Some(out[k]),
        decreases p.len() - j,
    {
        assert(pieces(line@, ',')[j as int] == p[j as int]@);
        match parse_u32(&p[j]) {
            Some(x) => {
                out.push(x);
            },
            None => {
                return None;
            },
        }
        j += 1;
    }
    assert(out@ =~= update_of(line@).unwrap());
    Some(out)
}

/// Reads the rules, one per line, and after an empty line the updates, one
/// per line. Fails when the empty line is missing, when a rule is not two
/// numbers with a bar between them, or when an update is not numbers with
/// commas between them.
pub fn parse(input: &str) -> (r: Result<(Vec<(u32, u32)>, Vec<Vec<u32>>), PuzzleError>)
    ensures
        match r {
            Ok((order, pages)) => {
                &&& well_formed(input@)
                &&& order@ == rules_of(input@)
                &&& listed(pages@) == updates_of(input@)
            },
            Err(e) => e == PuzzleError::MalformedInput && !well_formed(input@),
        },
{
    let text = chars_of(input);
    let mut gap: Vec<char> = Vec::new();
    gap.push('\n');
    gap.push('\n');
    assert(gap@ =~= seq!['\n', '\n']);
    let both = split_pattern(&text, &gap);
    if both.len() < 2 {
        assert(rows(both@).len() == both.len());
        return Err(PuzzleError::MalformedInput);
    }
    assert(rows(both@)[0] == both[0]@ && rows(both@)[1] == both[1]@);
    let first = split_lines(&both[0]);
    let second = split_lines(&both[1]);
    let ghost rule_lines = lines(halves(input@)[0]);
    let ghost update_lines = lines(halves(input@)[1]);
    let mut order: Vec<(u32, u32)> = Vec::new();
    let mut i: usize = 0;
    while i < first.len()
        invariant
            i <= first.len(),
            rows(first@) == rule_lines,
            rule_lines == lines(halves(input@)[0]),
            order.len() == i,
            forall|k: int| 0 <= k < i ==> rule_of(#[trigger] rule_lines[k]) == Some(order[k]),
        decreases first.len() - i,
    {
        assert(rule_lines[i as int] == first[i as int]@);
        match parse_rule(&first[i]) {
            Some(rule) => {
                order.push(rule);
            },
            None => {
                return Err(PuzzleError::MalformedInput);
            },
        }
        i += 1;
    }
    let mut pages: Vec<Vec<u32>> = Vec::new();
    let mut i: usize = 0;
    while i < second.len()
        invariant
            i <= second.len(),
            rows(second@) == update_lines,
            update_lines == lines(halves(input@)[1]),
            pages.len() == i,
            forall|k: int| 0 <= k < i ==> update_of(#[trigger] update_lines[k]) == Some(pages[k]@),
        decreases second.len() - i,
    {
        assert(update_lines[i as int] == second[i as int]@);
        match parse_update(&second[i]) {
            Some(update) => {
                pages.push(update);
            },
            None => {
                return Err(PuzzleError::MalformedInput);
            },
        }
        i += 1;
    }
    assert(order@ =~= rules_of(input@));
    assert(listed(pages@) =~= updates_of(input@));
    Ok((order, pages))
}

/// Whether every update has a page, and the two sums fit in 32 bits.
pub open spec fn summable(pages: Seq<Seq<u32>>, order: Seq<(u32, u32)>) -> bool {
    &&& forall|i: int| 0 <= i < pages.len() ==> (#[trigger] pages[i]).len() > 0
    &&& sum_below(pages.len() as int, middle_if_ordered(pages, order)) <= u32::MAX
    &&& sum_below(pages.len() as int, middle_if_disordered(pages, order)) <= u32::MAX
}

/// Both answers for rules and updates given as text: the sum of the middle
/// pages of the updates that are in order, and the sum of the middle pages
/// of the others once they are put in order.
pub fn solve(input: &str) -> (r: Result<(u32, u32), PuzzleError>)
    requires
        summable(updates_of(input@), rules_of(input@)),
    ensures
        match r {
            Ok((first, second)) => {
                &&& well_formed(input@)
                &&& first == sum_below(
                    updates_of(input@).len() as int,
                    middle_if_ordered(updates_of(input@), rules_of(input@)),
                )
                &&& second == sum_below(
                    updates_of(input@).len() as int,
                    middle_if_disordered(updates_of(input@), rules_of(input@)),
                )
            },
            Err(e) => e == PuzzleError::MalformedInput && !well_formed(input@),
        },
{
    let (order, pages) = match parse(input) {
        Ok(p) => p,
        Err(e) => {
            return Err(e);
        },
    };
    assert(listed(pages@).len() == pages.len());
    assert forall|i: int| 0 <= i < pages.len() implies (#[trigger] pages[i]).len() > 0 by {
        assert(listed(pages@)[i] == pages[i]@);
    }
    let first = solve_1(&pages, &order);
    let second = solve_2(&pages, &order);
    Ok((first, second))
}

} // verus!
