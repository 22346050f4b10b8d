//! Stones that change with every blink: a stone engraved with zero turns
//! into a one, a stone with an even number of digits splits in two, and
//! any other stone is multiplied by 2024.
use std::collections::HashMap;
use vstd::prelude::*;
use crate::counting::{lemma_sum_grows, sum_below};
use crate::error::PuzzleError;
use crate::text::{chars_of, number64, parse_u64, rows, split_words, words};

verus! {

broadcast use vstd::std_specs::hash::group_hash_axioms;

/// The factor by which a stone that neither is zero nor splits is multiplied.
pub const FACTOR: u64 = 2024;

/// The number of digits of a number.
pub open spec fn digit_count(x: nat) -> nat
    decreases x,
{
    if x < 10 {
        1
    } else {
        1 + digit_count(x / 10)
    }
}

/// Ten to the power of `k`.
pub open spec fn ten_to(k: nat) -> nat
    decreases k,
{
    if k == 0 {
        1
    } else {
        10 * ten_to((k - 1) as nat)
    }
}

/// Whether a stone splits at a blink: it is not zero and has an even
/// number of digits.
pub open spec fn splits(x: nat) -> bool {
    x != 0 && digit_count(x) % 2 == 0
}

/// The left half of the digits of a stone that splits.
pub open spec fn left_half(x: nat) -> nat {
    x / ten_to(digit_count(x) / 2)
}

/// The right half of the digits of a stone that splits, leading zeros dropped.
pub open spec fn right_half(x: nat) -> nat {
    x % ten_to(digit_count(x) / 2)
}

/// The number of stones that one stone has become after `n` blinks.
pub open spec fn stones_after(x: nat, n: nat) -> nat
    decreases n,
{
    if n == 0 {
        1
    } else if x == 0 {
        stones_after(1, (n - 1) as nat)
    } else if splits(x) {
        stones_after(left_half(x), (n - 1) as nat) + stones_after(right_half(x), (n - 1) as nat)
    } else {
        stones_after(x * FACTOR as nat, (n - 1) as nat)
    }
}

/// Whether every stone that one stone becomes within `n` blinks can be
/// engraved in 64 bits.
pub open spec fn engravable(x: nat, n: nat) -> bool
    decreases n,
{
    if n == 0 {
        true
    } else if x == 0 {
        engravable(1, (n - 1) as nat)
    } else if splits(x) {
        engravable(left_half(x), (n - 1) as nat) && engravable(right_half(x), (n - 1) as nat)
    } else {
        x * FACTOR <= u64::MAX && engravable(x * FACTOR as nat, (n - 1) as nat)
    }
}

/// The stones that one stone becomes at a blink.
pub open spec fn blink(x: nat) -> Seq<nat> {
    if x == 0 {
        seq![1nat]
    } else if splits(x) {
        seq![left_half(x), right_half(x)]
    } else {
        seq![x * FACTOR as nat]
    }
}

/// Ten to a power is at least one.
proof fn lemma_ten_to(k: nat)
    ensures
        ten_to(k) >= 1,
    decreases k,
{
    if k > 0 {
        lemma_ten_to((k - 1) as nat);
    }
}

/// Ten to a power grows with the power.
proof fn lemma_ten_to_grows(a: nat, b: nat)
    requires
        a <= b,
    ensures
        ten_to(a) <= ten_to(b),
    decreases b,
{
    if a < b {
        lemma_ten_to_grows(a, (b - 1) as nat);
        lemma_ten_to((b - 1) as nat);
    }
}

/// Ten to the power of twenty does not fit in 64 bits; ten to the power
/// of nineteen does.
proof fn lemma_ten_to_20()
    ensures
        ten_to(20) == 100_000_000_000_000_000_000,
        ten_to(19) == 10_000_000_000_000_000_000,
        ten_to(10) == 10_000_000_000,
{
    reveal_with_fuel(ten_to, 21);
}

/// The number of digits of a stone.
fn count_digits(stone: u64) -> (r: u32)
    ensures
        r == digit_count(stone as nat),
        1 <= r <= 20,
{
    let mut digits: u32 = 1;
    let mut rest: u64 = stone;
    let ghost mut scale: nat = 1;
    while rest >= 10
        invariant
            1 <= digits <= 20,
            digits + digit_count(rest as nat) == 1 + digit_count(stone as nat),
            scale == ten_to((digits - 1) as nat),
            scale * rest <= stone,
        decreases rest,
    {
        proof {
            let r = rest as nat;
            assert(scale * 10 * (r / 10) <= scale * r) by (nonlinear_arith)
                requires
                    scale >= 0,
                    r >= 0,
            ;
            assert(scale * 10 <= stone) by (nonlinear_arith)
                requires
                    scale * r <= stone,
                    r >= 10,
                    scale >= 0,
            ;
            if digits >= 20 {
                lemma_ten_to_20();
                lemma_ten_to_grows(20, digits as nat);
            }
            scale = scale * 10;
        }
        digits += 1;
        rest = rest / 10;
    }
    digits
}

/// Ten to a power of at most ten.
fn power_of_ten(k: u32) -> (r: u64)
    requires
        k <= 10,
    ensures
        r == ten_to(k as nat),
        1 <= r <= 10_000_000_000,
{
    let mut p: u64 = 1;
    let mut i: u32 = 0;
    while i < k
        invariant
            i <= k <= 10,
            p == ten_to(i as nat),
            1 <= p <= 10_000_000_000,
        decreases k - i,
    {
        proof {
            lemma_ten_to_20();
            lemma_ten_to_grows((i + 1) as nat, 10);
        }
        p = p * 10;
        i += 1;
    }
    p
}

/// The stones of a list, as numbers.
pub open spec fn engraved(stones: Seq<u64>) -> Seq<nat> {
    Seq::new(stones.len(), |i: int| stones[i] as nat)
}

/// The stones that a stone becomes at a blink: a one for a zero, the two
/// halves of its digits for a stone with an even number of digits, and
/// the stone times 2024 for any other.
pub fn apply_rule(current_stone: u64) -> (r: Vec<u64>)
    requires
        engravable(current_stone as nat, 1),
    ensures
        engraved(r@) == blink(current_stone as nat),
{
    let mut out: Vec<u64> = Vec::new();
    if current_stone == 0 {
        out.push(1);
    } else {
        let digits = count_digits(current_stone);
        if digits % 2 == 0 {
            let half = power_of_ten(digits / 2);
            out.push(current_stone / half);
            out.push(current_stone % half);
        } else {
            out.push(current_stone * FACTOR);
        }
    }
    assert(engraved(out@) =~= blink(current_stone as nat));
    out
}

/// The key under which the cache holds the number of stones that a stone
/// becomes after a number of blinks.
pub open spec fn key_of(stone: u64, blinks: u64) -> u128 {
    (stone * 0x1_0000_0000_0000_0000 + blinks) as u128
}

/// Whether every entry of a cache is the number of stones that the stone
/// of its key becomes after the blinks of its key.
pub open spec fn consistent(cache: Map<u128, u64>) -> bool {
    forall|stone: u64, blinks: u64|
        cache.contains_key(#[trigger] key_of(stone, blinks)) ==> cache[key_of(stone, blinks)]
            == stones_after(stone as nat, blinks as nat)
}

/// The key under which the cache holds an entry.
fn cache_key(stone: u64, blinks: u64) -> (r: u128)
    ensures
        r == key_of(stone, blinks),
{
    (stone as u128) * 0x1_0000_0000_0000_0000 + (blinks as u128)
}

/// Different stones or blinks have different keys.
proof fn lemma_keys_differ(s1: u64, b1: u64, s2: u64, b2: u64)
    ensures
        key_of(s1, b1) == key_of(s2, b2) ==> s1 == s2 && b1 == b2,
{
    if key_of(s1, b1) == key_of(s2, b2) {
        assert(s1 == s2 && b1 == b2) by (nonlinear_arith)
            requires
                s1 * 0x1_0000_0000_0000_0000 + b1 == s2 * 0x1_0000_0000_0000_0000 + b2,
                0 <= b1 < 0x1_0000_0000_0000_0000,
                0 <= b2 < 0x1_0000_0000_0000_0000,
        ;
    }
}

/// A stone becomes at least one stone, and no fewer stones than any of
/// the stones that it becomes at the first blink.
proof fn lemma_stones_grow(x: nat, n: nat)
    ensures
        stones_after(x, n) >= 1,
    decreases n,
{
    if n > 0 {
        if x == 0 {
            lemma_stones_grow(1, (n - 1) as nat);
        } else if splits(x) {
            lemma_stones_grow(left_half(x), (n - 1) as nat);
            lemma_stones_grow(right_half(x), (n - 1) as nat);
        } else {
            lemma_stones_grow(x * FACTOR as nat, (n - 1) as nat);
        }
    }
}

/// What a stone becomes after some blinks, one at least, in terms of what
/// the stones of its first blink become after the remaining blinks.
proof fn lemma_blink(x: nat, n: nat)
    requires
        n >= 1,
        engravable(x, n),
    ensures
        engravable(x, 1),
        1 <= blink(x).len() <= 2,
        forall|i: int| 0 <= i < blink(x).len() ==> engravable(#[trigger] blink(x)[i], (n - 1) as nat),
        forall|i: int|
            0 <= i < blink(x).len() ==> 1 <= stones_after(#[trigger] blink(x)[i], (n - 1) as nat)
                <= stones_after(x, n),
        blink(x).len() == 1 ==> stones_after(x, n) == stones_after(blink(x)[0], (n - 1) as nat),
        blink(x).len() == 2 ==> stones_after(x, n) == stones_after(blink(x)[0], (n - 1) as nat)
            + stones_after(blink(x)[1], (n - 1) as nat),
{
    reveal_with_fuel(engravable, 2);
    if x == 0 {
        lemma_stones_grow(1, (n - 1) as nat);
    } else if splits(x) {
        lemma_stones_grow(left_half(x), (n - 1) as nat);
        lemma_stones_grow(right_half(x), (n - 1) as nat);
    } else {
        lemma_stones_grow(x * FACTOR as nat, (n - 1) as nat);
    }
}

/// The number of stones that one stone has become after a number of
/// blinks. Numbers that have been worked out are kept in the cache and
/// looked up there.
pub fn next_generation_cached(
    current_num: u64,
    remaining_iterations: u64,
    cache: &mut HashMap<u128, u64>,
) -> (r: u64)
    requires
        consistent(old(cache)@),
        engravable(current_num as nat, remaining_iterations as nat),
        stones_after(current_num as nat, remaining_iterations as nat) <= u64::MAX,
    ensures
        consistent(final(cache)@),
        r == stones_after(current_num as nat, remaining_iterations as nat),
    decreases remaining_iterations,
{
    let key = cache_key(current_num, remaining_iterations);
    match cache.get(&key) {
        Some(known) => {
            return *known;
        },
        None => {},
    }
    let new_val = if remaining_iterations == 0 {
        1
    } else {
        let ghost x = current_num as nat;
        let ghost n = (remaining_iterations - 1) as nat;
        proof {
            lemma_blink(x, remaining_iterations as nat);
        }
        let new_nums = apply_rule(current_num);
        assert(engraved(new_nums@).len() == new_nums.len());
        assert(engraved(new_nums@)[0] == new_nums[0] as nat);
        if new_nums.len() == 1 {
            next_generation_cached(new_nums[0], remaining_iterations - 1, cache)
        } else {
            assert(engraved(new_nums@)[1] == new_nums[1] as nat);
            let first = next_generation_cached(new_nums[0], remaining_iterations - 1, cache);
            let second = next_generation_cached(new_nums[1], remaining_iterations - 1, cache);
            first + second
        }
    };
    let ghost before = cache@;
    cache.insert(key, new_val);
    proof {
        assert forall|stone: u64, blinks: u64|
            cache@.contains_key(#[trigger] key_of(stone, blinks)) implies cache@[key_of(
            stone,
            blinks,
        )] == stones_after(stone as nat, blinks as nat) by {
            lemma_keys_differ(stone, blinks, current_num, remaining_iterations);
        }
    }
    new_val
}

/// The number of stones that the `i`-th stone becomes.
pub open spec fn grown(stones: Seq<u64>, blinks: nat) -> spec_fn(int) -> int {
    |i: int| stones_after(stones[i] as nat, blinks) as int
}

/// The number of stones that the stones of a list have become after a
/// number of blinks.
pub fn manipulate_stone(initial_state: &Vec<u64>, iteration_count: u64) -> (r: u64)
    requires
        forall|i: int|
            0 <= i < initial_state.len() ==> engravable(
                #[trigger] initial_state[i] as nat,
                iteration_count as nat,
            ),
        sum_below(initial_state.len() as int, grown(initial_state@, iteration_count as nat))
            <= u64::MAX,
    ensures
        r == sum_below(initial_state.len() as int, grown(initial_state@, iteration_count as nat)),
{
    let mut cache: HashMap<u128, u64> = HashMap::new();
    let mut total: u64 = 0;
    let mut i: usize = 0;
    while i < initial_state.len()
        invariant
            i <= initial_state.len(),
            consistent(cache@),
            forall|i: int|
                0 <= i < initial_state.len() ==> engravable(
                    #[trigger] initial_state[i] as nat,
                    iteration_count as nat,
                ),
            sum_below(initial_state.len() as int, grown(initial_state@, iteration_count as nat))
                <= u64::MAX,
            total == sum_below(i as int, grown(initial_state@, iteration_count as nat)),
        decreases initial_state.len() - i,
    {
        proof {
            assert forall|k: int| 0 <= k < initial_state.len() implies 0 <= #[trigger] grown(
                initial_state@,
                iteration_count as nat,
            )(k) by {}
            lemma_sum_grows(
                i + 1,
                initial_state.len() as int,
                grown(initial_state@, iteration_count as nat),
            );
            lemma_sum_grows(i as int, i + 1, grown(initial_state@, iteration_count as nat));
        }
        total += next_generation_cached(initial_state[i], iteration_count, &mut cache);
        i += 1;
    }
    total
}

/// The number of blinks of the first answer.
pub const FEW: u64 = 25;

/// The number of blinks of the second answer.
pub const MANY: u64 = 75;

/// Whether every word of a text is a number.
pub open spec fn well_formed(text: Seq<char>) -> bool {
    forall|i: int| 0 <= i < words(text).len() ==> number64(#[trigger] words(text)[i]) is Some
}

/// The stones that a text lists.
pub open spec fn stones_of(text: Seq<char>) -> Seq<u64> {
    Seq::new(words(text).len(), |i: int| number64(words(text)[i]).unwrap())
}

/// Reads the stones of a text: numbers with white space between them.
/// Fails when a word is not a number.
pub fn parse(input: &str) -> (r: Result<Vec<u64>, PuzzleError>)
    ensures
        match r {
            Ok(stones) => well_formed(input@) && stones@ == stones_of(input@),
            Err(e) => e == PuzzleError::MalformedInput && !well_formed(input@),
        },
{
    let text = chars_of(input);
    let w = split_words(&text);
    let mut out: Vec<u64> = Vec::new();
    let mut i: usize = 0;
    while i < w.len()
        invariant
            i <= w.len(),
            rows(w@) == words(input@),
            out.len() == i,
            forall|k: int| 0 <= k < i ==> number64(#[trigger] words(input@)[k]) == Some(out[k]),
        decreases w.len() - i,
    {
        assert(words(input@)[i as int] == w[i as int]@);
        match parse_u64(&w[i]) {
            Some(x) => {
                out.push(x);
            },
            None => {
                return Err(PuzzleError::MalformedInput);
            },
        }
        i += 1;
    }
    assert(out@ =~= stones_of(input@));
    Ok(out)
}

/// Whether the stones of a list can be followed through a number of
/// blinks in 64 bits.
pub open spec fn followable(stones: Seq<u64>, blinks: nat) -> bool {
    &&& forall|i: int| 0 <= i < stones.len() ==> engravable(#[trigger] stones[i] as nat, blinks)
    &&& sum_below(stones.len() as int, grown(stones, blinks)) <= u64::MAX
}

/// Both answers for stones given as text: the number of stones after
/// twenty-five blinks and after seventy-five. Fails when a word of the
/// text is not a number.
pub fn solve(input: &str) -> (r: Result<(u64, u64), PuzzleError>)
    requires
        followable(stones_of(input@), FEW as nat),
        followable(stones_of(input@), MANY as nat),
    ensures
        match r {
            Ok((few, many)) => {
                &&& well_formed(input@)
                &&& few == sum_below(
                    stones_of(input@).len() as int,
                    grown(stones_of(input@), FEW as nat),
                )
                &&& many == sum_below(
                    stones_of(input@).len() as int,
                    grown(stones_of(input@), MANY as nat),
                )
            },
            Err(e) => e == PuzzleError::MalformedInput && !well_formed(input@),
        },
{
    let stones = match parse(input) {
        Ok(s) => s,
        Err(e) => {
            return Err(e);
        },
    };
    let few = manipulate_stone(&stones, FEW);
    let many = manipulate_stone(&stones, MANY);
    Ok((few, many))
}

} // verus!
