//! A corrupted program in which only the instructions of the form
//! `mul(a,b)` count, and in which `don't()` and `do()` switch them off
//! and on again. The instructions are found with regular expressions.
use vstd::prelude::*;
use vstd::string::*;
use regex::Regex;
use crate::counting::{lemma_sum_grows, lemma_sum_same, sum_below};
use crate::error::PuzzleError;
use crate::text::{number64, parse_u64};

verus! {

/// A multiplication.
#[derive(Debug, PartialEq, Eq)]
pub struct Operation {
    pub left: u64,
    pub right: u64,
}

/// The pattern of a multiplication: `mul`, and in brackets two numbers
/// with a comma between them.
pub const MULTIPLICATION: &'static str = "mul\\((\\d+),(\\d+)\\)";

/// The pattern of a part that is switched off: from `don't()` to the
/// next `do()`, line feeds included.
pub const SWITCHED_OFF: &'static str = "(?s)don't\\(\\).*?do\\(\\)";

/// What switches the instructions on.
pub const SWITCH_ON: &'static str = "do()";

/// What the `regex` crate finds when it searches a text for all matches of
/// a pattern, one after the other: for every match its groups, the whole
/// match first, each as the text that it matched if it took part in the
/// match. `None` when the crate refuses the pattern.
pub uninterp spec fn captures_of(pattern: Seq<char>, text: Seq<char>) -> Option<
    Seq<Seq<Option<Seq<char>>>>,
>;

/// Where the `regex` crate finds the first match of a pattern in a text:
/// from which character up to, not including, which. The inner `None`
/// when there is no match, the outer when the crate refuses the pattern.
pub uninterp spec fn first_match_of(pattern: Seq<char>, text: Seq<char>) -> Option<
    Option<(int, int)>,
>;

/// The groups of a match, as texts.
pub open spec fn groups_of(groups: Vec<Option<Vec<char>>>) -> Seq<Option<Seq<char>>> {
    Seq::new(
        groups.len() as nat,
        |i: int|
            match groups[i] {
                Some(g) => Some(g@),
                None => None,
            },
    )
}

/// The groups of a list of matches, as texts.
pub open spec fn matches_of(found: Seq<Vec<Option<Vec<char>>>>) -> Seq<Seq<Option<Seq<char>>>> {
    Seq::new(found.len(), |i: int| groups_of(found[i]))
}

/// What a search for all matches has found, as texts.
pub open spec fn found_of(found: Option<Vec<Vec<Option<Vec<char>>>>>) -> Option<
    Seq<Seq<Option<Seq<char>>>>,
> {
    match found {
        Some(f) => Some(matches_of(f@)),
        None => None,
    }
}

/// Where a search for the first match has found it, in integers.
pub open spec fn place_of(found: Option<Option<(usize, usize)>>) -> Option<Option<(int, int)>> {
    match found {
        Some(Some((a, b))) => Some(Some((a as int, b as int))),
        Some(None) => Some(None),
        None => None,
    }
}

/// `Regex::new` and `Regex::captures_iter` of the `regex` crate: all
/// matches of a pattern in a text, each with its groups. Nothing is
/// claimed of what is found but that it is what the crate finds for this
/// pattern and this text.
#[verifier::external_body]
fn all_captures(pattern: &str, text: &str) -> (out: Option<Vec<Vec<Option<Vec<char>>>>>)
    ensures
        found_of(out) == captures_of(pattern@, text@),
{
    match Regex::new(pattern) {
        Ok(re) => Some(
            re.captures_iter(text).map(
                |c| c.iter().map(|g| g.map(|m| m.as_str().chars().collect())).collect(),
            ).collect(),
        ),
        Err(_) => None,
    }
}

/// `Regex::new` and `Regex::find` of the `regex` crate: the first match of
/// a pattern in a text, as the numbers of the characters at which it
/// begins and before which it ends. A match does not end before it begins
/// and lies in the text; beyond that, nothing is claimed but that it is
/// what the crate finds for this pattern and this text.
#[verifier::external_body]
fn first_match(pattern: &str, text: &str) -> (out: Option<Option<(usize, usize)>>)
    ensures
        place_of(out) == first_match_of(pattern@, text@),
        out matches Some(Some((a, b))) ==> a <= b <= text@.len(),
{
    match Regex::new(pattern) {
        Ok(re) => Some(
            re.find(text).map(
                |m| (text[..m.start()].chars().count(), text[..m.end()].chars().count()),
            ),
        ),
        Err(_) => None,
    }
}

/// The multiplication that the groups of a match make: its second and its
/// third group, read as numbers.
pub open spec fn operation_of(groups: Seq<Option<Seq<char>>>) -> Option<(u64, u64)> {
    if groups.len() >= 3 && groups[1] is Some && groups[2] is Some && number64(groups[1]->0) is Some
        && number64(groups[2]->0) is Some {
        Some((number64(groups[1]->0).unwrap(), number64(groups[2]->0).unwrap()))
    } else {
        None
    }
}

/// Whether every match of a list makes a multiplication.
pub open spec fn all_operations(found: Seq<Seq<Option<Seq<char>>>>) -> bool {
    forall|i: int| 0 <= i < found.len() ==> operation_of(#[trigger] found[i]) is Some
}

/// Whether a list of multiplications is what the matches of a list make.
pub open spec fn made_of(operations: Seq<Operation>, found: Seq<Seq<Option<Seq<char>>>>) -> bool {
    &&& operations.len() == found.len()
    &&& forall|i: int|
        0 <= i < found.len() ==> operation_of(#[trigger] found[i]) == Some(
            (operations[i].left, operations[i].right),
        )
}

/// Reads the multiplications off the matches that a search has found.
/// Fails when a match lacks a group or a group is not a number of 64 bits.
pub fn operations_from(found: &Vec<Vec<Option<Vec<char>>>>) -> (r: Result<
    Vec<Operation>,
    PuzzleError,
>)
    ensures
        match r {
            Ok(operations) => all_operations(matches_of(found@)) && made_of(
                operations@,
                matches_of(found@),
            ),
            Err(e) => e == PuzzleError::MalformedInput && !all_operations(matches_of(found@)),
        },
{
    let ghost all = matches_of(found@);
    let mut out: Vec<Operation> = Vec::new();
    let mut i: usize = 0;
    while i < found.len()
        invariant
            i <= found.len(),
            all == matches_of(found@),
            out.len() == i,
            forall|k: int|
                0 <= k < i ==> operation_of(#[trigger] all[k]) == Some((out[k].left, out[k].right)),
        decreases found.len() - i,
    {
        let groups = &found[i];
        assert(all[i as int] == groups_of(*groups));
        if groups.len() < 3 {
            return Err(PuzzleError::MalformedInput);
        }
        let left = match &groups[1] {
            Some(g) => parse_u64(g),
            None => None,
        };
        let right = match &groups[2] {
            Some(g) => parse_u64(g),
            None => None,
        };
        match (left, right) {
            (Some(a), Some(b)) => {
                out.push(Operation { left: a, right: b });
            },
            _ => {
                return Err(PuzzleError::MalformedInput);
            },
        }
        i += 1;
    }
    Ok(out)
}

/// Finds the multiplications in a text. Fails when the `regex` crate
/// refuses the pattern, or finds a multiplication whose numbers do not
/// fit in 64 bits.
pub fn get_operations(input: &str) -> (r: Result<Vec<Operation>, PuzzleError>)
    ensures
        match r {
            Ok(operations) => {
                &&& captures_of(MULTIPLICATION@, input@) is Some
                &&& all_operations(captures_of(MULTIPLICATION@, input@)->0)
                &&& made_of(operations@, captures_of(MULTIPLICATION@, input@)->0)
            },
            Err(e) => e == PuzzleError::MalformedInput && (captures_of(
                MULTIPLICATION@,
                input@,
            ) is None || !all_operations(captures_of(MULTIPLICATION@, input@)->0)),
        },
{
    match all_captures(MULTIPLICATION, input) {
        Some(found) => operations_from(&found),
        None => Err(PuzzleError::MalformedInput),
    }
}

/// What a multiplication adds to the sum: its product.
pub open spec fn product_at(operations: Seq<Operation>) -> spec_fn(int) -> int {
    |i: int| operations[i].left * operations[i].right
}

/// The sum of the products of a list of multiplications.
pub fn apply_operation(operations: &[Operation]) -> (r: u64)
    requires
        sum_below(operations.len() as int, product_at(operations@)) <= u64::MAX,
    ensures
        r == sum_below(operations.len() as int, product_at(operations@)),
{
    let mut total: u64 = 0;
    let mut i: usize = 0;
    while i < operations.len()
        invariant
            i <= operations.len(),
            sum_below(operations.len() as int, product_at(operations@)) <= u64::MAX,
            total == sum_below(i as int, product_at(operations@)),
        decreases operations.len() - i,
    {
        proof {
            assert forall|k: int| 0 <= k < operations.len() implies 0 <= #[trigger] product_at(
                operations@,
            )(k) by {
                assert(operations@[k].left * operations@[k].right >= 0) by (nonlinear_arith)
                    requires
                        operations@[k].left >= 0,
                        operations@[k].right >= 0,
                ;
            }
            lemma_sum_grows(i + 1, operations.len() as int, product_at(operations@));
            lemma_sum_grows(i as int, i + 1, product_at(operations@));
        }
        let product: u128 = (operations[i].left as u128) * (operations[i].right as u128);
        total += product as u64;
        i += 1;
    }
    total
}

/// A text without the characters from `a` up to, not including, `b`.
pub open spec fn without(text: Seq<char>, a: int, b: int) -> Seq<char> {
    text.subrange(0, a) + text.subrange(b, text.len() as int)
}

/// A text from which the parts that are switched off have been taken, one
/// after the other, each being the first that the `regex` crate finds in
/// what is left. `None` when the crate refuses the pattern.
pub open spec fn cleaned(text: Seq<char>) -> Option<Seq<char>>
    decreases text.len(),
{
    match first_match_of(SWITCHED_OFF@, text) {
        None => None,
        Some(None) => Some(text),
        Some(Some((a, b))) => if 0 <= a < b <= text.len() {
            cleaned(without(text, a, b))
        } else {
            Some(text)
        },
    }
}

/// Takes out of a text the characters from `a` up to, not including, `b`.
pub fn cut_out(text: &str, a: usize, b: usize) -> (r: String)
    requires
        a <= b <= text@.len(),
    ensures
        r@ == without(text@, a as int, b as int),
{
    let n = text.unicode_len();
    let head = text.substring_char(0, a);
    let tail = text.substring_char(b, n);
    String::from_str(head).concat(tail)
}

/// Takes out of a program what is switched off: every part from a
/// `don't()` to the next `do()`, the program being followed by a `do()`
/// so that what is switched off at its end goes too. Fails when the
/// `regex` crate refuses the pattern.
pub fn clean_input(input: &str) -> (r: Result<String, PuzzleError>)
    ensures
        match r {
            Ok(text) => cleaned(input@ + SWITCH_ON@) == Some(text@),
            Err(e) => e == PuzzleError::MalformedInput && cleaned(input@ + SWITCH_ON@) is None,
        },
{
    let mut text = String::from_str(input).concat(SWITCH_ON);
    loop
        invariant
            cleaned(input@ + SWITCH_ON@) == cleaned(text@),
        decreases text@.len(),
    {
        match first_match(SWITCHED_OFF, text.as_str()) {
            None => {
                return Err(PuzzleError::MalformedInput);
            },
            Some(None) => {
                return Ok(text);
            },
            Some(Some((a, b))) => {
                if a >= b {
                    return Ok(text);
                }
                text = cut_out(text.as_str(), a, b);
            },
        }
    }
}

/// The sum of the products of a list of multiplications, where it fits in
/// 64 bits.
pub fn checked_total(operations: &[Operation]) -> (r: Option<u64>)
    ensures
        match r {
            Some(total) => total == sum_below(operations.len() as int, product_at(operations@)),
            None => sum_below(operations.len() as int, product_at(operations@)) > u64::MAX,
        },
{
    let ghost f = product_at(operations@);
    let mut total: u64 = 0;
    let mut i: usize = 0;
    proof {
        assert forall|k: int| 0 <= k < operations.len() implies 0 <= #[trigger] f(k) by {
            assert(operations@[k].left * operations@[k].right >= 0) by (nonlinear_arith)
                requires
                    operations@[k].left >= 0,
                    operations@[k].right >= 0,
            ;
        }
    }
    while i < operations.len()
        invariant
            i <= operations.len(),
            f == product_at(operations@),
            forall|k: int| 0 <= k < operations.len() ==> 0 <= #[trigger] f(k),
            total == sum_below(i as int, f),
        decreases operations.len() - i,
    {
        proof {
            lemma_sum_grows(i + 1, operations.len() as int, f);
            assert(operations@[i as int].left * operations@[i as int].right <= u64::MAX
                * u64::MAX) by (nonlinear_arith)
                requires
                    0 <= operations@[i as int].left <= u64::MAX,
                    0 <= operations@[i as int].right <= u64::MAX,
            ;
        }
        let product: u128 = (operations[i].left as u128) * (operations[i].right as u128);
        if product > (u64::MAX - total) as u128 {
            return None;
        }
        total += product as u64;
        i += 1;
    }
    Some(total)
}

/// The left number of the multiplication that a match makes.
pub open spec fn left_of(groups: Seq<Option<Seq<char>>>) -> int {
    operation_of(groups).unwrap().0 as int
}

/// The right number of the multiplication that a match makes.
pub open spec fn right_of(groups: Seq<Option<Seq<char>>>) -> int {
    operation_of(groups).unwrap().1 as int
}

/// What a match adds to the sum: the product of its two numbers.
pub open spec fn product_in(found: Seq<Seq<Option<Seq<char>>>>) -> spec_fn(int) -> int {
    |i: int| left_of(found[i]) * right_of(found[i])
}

/// The sum of the products of the multiplications that the `regex` crate
/// finds in a text. `None` when the crate refuses the pattern, when a
/// number of a multiplication does not fit in 64 bits, or when the sum
/// does not.
pub open spec fn answer_for(text: Seq<char>) -> Option<int> {
    match captures_of(MULTIPLICATION@, text) {
        Some(found) => if all_operations(found) && sum_below(
            found.len() as int,
            product_in(found),
        ) <= u64::MAX {
            Some(sum_below(found.len() as int, product_in(found)))
        } else {
            None
        },
        None => None,
    }
}

/// The multiplications that the matches of a list make have the sum of
/// products of those matches.
pub proof fn lemma_same_total(operations: Seq<Operation>, found: Seq<Seq<Option<Seq<char>>>>)
    requires
        made_of(operations, found),
    ensures
        sum_below(operations.len() as int, product_at(operations)) == sum_below(
            found.len() as int,
            product_in(found),
        ),
{
    assert forall|i: int| 0 <= i < found.len() implies #[trigger] product_at(operations)(i)
        == product_in(found)(i) by {
        assert(operation_of(found[i]) == Some((operations[i].left, operations[i].right)));
    }
    lemma_sum_same(found.len() as int, product_at(operations), product_in(found));
}

/// The sum of the products of the multiplications in a text.
pub fn total_in(input: &str) -> (r: Option<u64>)
    ensures
        match r {
            Some(total) => answer_for(input@) == Some(total as int),
            None => answer_for(input@) is None,
        },
{
    match get_operations(input) {
        Ok(operations) => {
            proof {
                lemma_same_total(operations@, captures_of(MULTIPLICATION@, input@)->0);
            }
            checked_total(operations.as_slice())
        },
        Err(_) => None,
    }
}

/// Both answers for a program given as text: the sum of the products of
/// all multiplications, and of those that are not switched off. Fails
/// when a search or a sum does.
pub fn solve(input: &str) -> (r: Result<(u64, u64), PuzzleError>)
    ensures
        match r {
            Ok((all, enabled)) => {
                &&& answer_for(input@) == Some(all as int)
                &&& cleaned(input@ + SWITCH_ON@) is Some
                &&& answer_for(cleaned(input@ + SWITCH_ON@)->0) == Some(enabled as int)
            },
            Err(e) => e == PuzzleError::MalformedInput && (answer_for(input@) is None || cleaned(
                input@ + SWITCH_ON@,
            ) is None || answer_for(cleaned(input@ + SWITCH_ON@)->0) is None),
        },
{
    let all = match total_in(input) {
        Some(t) => t,
        None => {
            return Err(PuzzleError::MalformedInput);
        },
    };
    let text = match clean_input(input) {
        Ok(t) => t,
        Err(e) => {
            return Err(e);
        },
    };
    match total_in(text.as_str()) {
        Some(enabled) => Ok((all, enabled)),
        None => Err(PuzzleError::MalformedInput),
    }
}

} // verus!
