//! Secret numbers that buyers derive one from the other, the prices that
//! they offer, and the price at which a monkey sells on seeing four given
//! changes of price in a row.
use vstd::prelude::*;
use crate::adaptors::adjacent_pairs;
use crate::counting::{lemma_sum_grows, sum_below};
use crate::error::PuzzleError;
use crate::text::{chars_of, lines, number64, parse_u64, rows, split_lines};

verus! {

/// Secret numbers are kept below this number.
pub const MODULUS: u64 = 16777216;

/// The number of secret numbers that a buyer derives in a day.
pub const ROUNDS: usize = 2000;

/// Two numbers mixed: their bitwise exclusive or.
pub open spec fn mixed(a: u64, b: u64) -> u64 {
    a ^ b
}

/// A number pruned: its remainder below the modulus.
pub open spec fn pruned(x: u64) -> u64 {
    x % MODULUS
}

/// The secret number that follows on `s`.
pub open spec fn next_secret(s: u64) -> u64 {
    let first = pruned(mixed((s * 64) as u64, s));
    let second = pruned(mixed(first / 32, first));
    pruned(mixed((second * 2048) as u64, second))
}

/// The `n`-th secret number after `s`.
pub open spec fn secret_after(s: u64, n: int) -> u64
    decreases n,
{
    if n <= 0 {
        s
    } else {
        next_secret(secret_after(s, n - 1))
    }
}

/// Whether a first secret number can be worked on in 64 bits.
pub open spec fn workable(s: u64) -> bool {
    s * 64 <= u64::MAX
}

/// A number pruned: its remainder below the modulus.
pub fn prune(input: u64) -> (r: u64)
    ensures
        r == pruned(input),
        r < MODULUS,
{
    input % MODULUS
}

/// Two numbers mixed: their bitwise exclusive or.
pub fn mix(in1: u64, in2: u64) -> (r: u64)
    ensures
        r == mixed(in1, in2),
{
    in1 ^ in2
}

/// The secret number that follows on `secret`.
pub fn step(secret: u64) -> (r: u64)
    requires
        workable(secret),
    ensures
        r == next_secret(secret),
        r < MODULUS,
{
    let first = prune(mix(secret * 64, secret));
    let second = prune(mix(first / 32, first));
    prune(mix(second * 2048, second))
}

/// The two-thousandth secret number after `initial`.
pub fn calc_2000th_secret(initial: u64) -> (r: u64)
    requires
        workable(initial),
    ensures
        r == secret_after(initial, ROUNDS as int),
{
    let mut secret = initial;
    let mut n: usize = 0;
    while n < ROUNDS
        invariant
            n <= ROUNDS,
            workable(secret),
            secret == secret_after(initial, n as int),
        decreases ROUNDS - n,
    {
        secret = step(secret);
        n += 1;
    }
    secret
}

/// The prices that a buyer offers: the last digit of the first secret
/// number and of those that follow, `count` prices in all.
pub open spec fn prices(initial: u64, count: int) -> Seq<u64> {
    Seq::new(count as nat, |i: int| (secret_after(initial, i) % 10) as u64)
}

/// The first `secret_to_generate` prices that a buyer offers.
pub fn get_bananas(initial: u64, secret_to_generate: usize) -> (r: Vec<u64>)
    requires
        workable(initial),
    ensures
        r@ == prices(initial, secret_to_generate as int),
{
    let mut bananas: Vec<u64> = Vec::new();
    let mut secret = initial;
    let mut n: usize = 0;
    while n < secret_to_generate
        invariant
            n <= secret_to_generate,
            workable(secret),
            secret == secret_after(initial, n as int),
            bananas@ == prices(initial, n as int),
        decreases secret_to_generate - n,
    {
        bananas.push(secret % 10);
        secret = step(secret);
        n += 1;
        assert(bananas@ =~= prices(initial, n as int));
    }
    bananas
}

/// The changes from each price to the next.
pub open spec fn changes(bananas: Seq<u64>) -> Seq<i64> {
    Seq::new(
        if bananas.len() >= 1 {
            (bananas.len() - 1) as nat
        } else {
            0
        },
        |i: int| (bananas[i + 1] - bananas[i]) as i64,
    )
}

/// The changes from each price to the next.
pub fn calc_inflation(bananas: &Vec<u64>) -> (r: Vec<i64>)
    requires
        forall|i: int| 0 <= i < bananas.len() ==> #[trigger] bananas[i] <= i64::MAX,
    ensures
        r@ == changes(bananas@),
{
    let pairs = adjacent_pairs(bananas);
    let mut out: Vec<i64> = Vec::new();
    let mut i: usize = 0;
    while i < pairs.len()
        invariant
            i <= pairs.len(),
            pairs.len() == changes(bananas@).len(),
            forall|i: int| 0 <= i < bananas.len() ==> #[trigger] bananas[i] <= i64::MAX,
            forall|i: int|
                0 <= i < pairs.len() ==> #[trigger] pairs[i] == (bananas[i], bananas[i + 1]),
            out@ == changes(bananas@).take(i as int),
        decreases pairs.len() - i,
    {
        let (a, b) = pairs[i];
        out.push(b as i64 - a as i64);
        i += 1;
        assert(out@ =~= changes(bananas@).take(i as int));
    }
    assert(changes(bananas@).take(pairs.len() as int) =~= changes(bananas@));
    out
}

/// Whether the four changes that lead up to the price at index `idx` are
/// the given ones.
pub open spec fn seen_at(bananas: Seq<u64>, given: Seq<i64>, idx: int) -> bool {
    &&& 4 <= idx < bananas.len()
    &&& bananas[idx - 3] - bananas[idx - 4] == given[0]
    &&& bananas[idx - 2] - bananas[idx - 3] == given[1]
    &&& bananas[idx - 1] - bananas[idx - 2] == given[2]
    &&& bananas[idx] - bananas[idx - 1] == given[3]
}

/// The price at which the monkey sells: the price at the first index, from
/// `from` on, at which the given four changes have just been seen; nothing
/// if they never are.
pub open spec fn sale(bananas: Seq<u64>, given: Seq<i64>, from: int) -> u64
    decreases bananas.len() - from,
{
    if from >= bananas.len() {
        0
    } else if seen_at(bananas, given, from) {
        bananas[from]
    } else {
        sale(bananas, given, from + 1)
    }
}

/// The price at which the monkey sells to a buyer with the given prices,
/// when it sells as soon as it has seen the four given changes in a row;
/// nothing if it never sees them.
pub fn get_bananas_for_given_inflation(bananas: &Vec<u64>, inflation_given: &[i64; 4]) -> (r: u64)
    ensures
        r == sale(bananas@, inflation_given@, 0),
{
    let mut idx: usize = 0;
    while idx < bananas.len()
        invariant
            idx <= bananas.len(),
            sale(bananas@, inflation_given@, 0) == sale(bananas@, inflation_given@, idx as int),
        decreases bananas.len() - idx,
    {
        if idx >= 4 && differ_by(bananas[idx - 4], bananas[idx - 3], inflation_given[0])
            && differ_by(bananas[idx - 3], bananas[idx - 2], inflation_given[1]) && differ_by(
            bananas[idx - 2],
            bananas[idx - 1],
            inflation_given[2],
        ) && differ_by(bananas[idx - 1], bananas[idx], inflation_given[3]) {
            return bananas[idx];
        }
        idx += 1;
    }
    0
}

/// Whether the change from one price to the next is a given change.
fn differ_by(a: u64, b: u64, change: i64) -> (r: bool)
    ensures
        r == (b - a == change),
{
    (b as i128) - (a as i128) == change as i128
}

/// Whether every line of a text is a number.
pub open spec fn well_formed(text: Seq<char>) -> bool {
    forall|i: int| 0 <= i < lines(text).len() ==> number64(#[trigger] lines(text)[i]) is Some
}

/// The numbers of the lines of a text.
pub open spec fn buyers_of(text: Seq<char>) -> Seq<u64> {
    Seq::new(lines(text).len(), |i: int| number64(lines(text)[i]).unwrap())
}

/// Reads the first secret number of every buyer, one per line. Fails when
/// a line is not a number.
pub fn parse(input: &str) -> (r: Result<Vec<u64>, PuzzleError>)
    ensures
        match r {
            Ok(v) => well_formed(input@) && v@ == buyers_of(input@),
            Err(e) => e == PuzzleError::MalformedInput && !well_formed(input@),
        },
{
    let text = chars_of(input);
    let all = split_lines(&text);
    let mut out: Vec<u64> = Vec::new();
    let mut i: usize = 0;
    while i < all.len()
        invariant
            i <= all.len(),
            rows(all@) == lines(input@),
            out.len() == i,
            forall|k: int| 0 <= k < i ==> number64(#[trigger] lines(input@)[k]) == Some(out[k]),
        decreases all.len() - i,
    {
        assert(lines(input@)[i as int] == all[i as int]@);
        match parse_u64(&all[i]) {
            Some(x) => {
                out.push(x);
            },
            None => {
                return Err(PuzzleError::MalformedInput);
            },
        }
        i += 1;
    }
    assert(out@ =~= buyers_of(input@));
    Ok(out)
}

/// The two-thousandth secret number of the `i`-th buyer.
pub open spec fn last_secret(buyers: Seq<u64>) -> spec_fn(int) -> int {
    |i: int| secret_after(buyers[i], ROUNDS as int) as int
}

/// The sum of the two-thousandth secret numbers of all buyers.
pub fn sum_of_secrets(buyers: &Vec<u64>) -> (r: u64)
    requires
        forall|i: int| 0 <= i < buyers.len() ==> workable(#[trigger] buyers[i]),
        sum_below(buyers.len() as int, last_secret(buyers@)) <= u64::MAX,
    ensures
        r == sum_below(buyers.len() as int, last_secret(buyers@)),
{
    let mut total: u64 = 0;
    let mut i: usize = 0;
    while i < buyers.len()
        invariant
            i <= buyers.len(),
            forall|i: int| 0 <= i < buyers.len() ==> workable(#[trigger] buyers[i]),
            sum_below(buyers.len() as int, last_secret(buyers@)) <= u64::MAX,
            total == sum_below(i as int, last_secret(buyers@)),
        decreases buyers.len() - i,
    {
        proof {
            assert forall|k: int| 0 <= k < buyers.len() implies 0 <= #[trigger] last_secret(
                buyers@,
            )(k) by {}
            lemma_sum_grows(i + 1, buyers.len() as int, last_secret(buyers@));
        }
        total += calc_2000th_secret(buyers[i]);
        i += 1;
    }
    total
}

/// How many changes of price there can be: from nine down to nine up.
pub const SPAN: usize = 19;

/// How many rows of four changes there are.
pub const COMBINATIONS: usize = 130321;

/// The `k`-th row of four changes, the last change counting fastest.
pub open spec fn combo(k: int) -> Seq<i64> {
    seq![
        (k / 6859 - 9) as i64,
        ((k / 361) % 19 - 9) as i64,
        ((k / 19) % 19 - 9) as i64,
        (k % 19 - 9) as i64,
    ]
}

/// The number of the row of four changes that lead up to the price at
/// index `idx`.
pub open spec fn key_at(bananas: Seq<u64>, idx: int) -> int {
    (bananas[idx - 3] - bananas[idx - 4] + 9) * 6859 + (bananas[idx - 2] - bananas[idx - 3] + 9)
        * 361 + (bananas[idx - 1] - bananas[idx - 2] + 9) * 19 + (bananas[idx] - bananas[idx - 1]
        + 9)
}

/// Whether every price is a digit.
pub open spec fn digits(bananas: Seq<u64>) -> bool {
    forall|i: int| 0 <= i < bananas.len() ==> #[trigger] bananas[i] <= 9
}

/// What the monkey gets from each buyer for given changes, as a function
/// of the buyer's number.
pub open spec fn sold_to(buyers: Seq<u64>, count: int, given: Seq<i64>) -> spec_fn(int) -> int {
    |i: int| sale(prices(buyers[i], count), given, 0) as int
}

/// What the monkey gets from all buyers for given changes.
pub open spec fn haul(buyers: Seq<u64>, count: int, given: Seq<i64>) -> int {
    sum_below(buyers.len() as int, sold_to(buyers, count, given))
}

/// Whether `best` is the most that the monkey can get from the buyers
/// with any row of four changes.
pub open spec fn is_best(buyers: Seq<u64>, count: int, best: int) -> bool {
    &&& exists|k: int| 0 <= k < COMBINATIONS && #[trigger] haul(buyers, count, combo(k)) == best
    &&& forall|k: int| 0 <= k < COMBINATIONS ==> #[trigger] haul(buyers, count, combo(k)) <= best
}

/// Four numbers below nineteen can be read off the number that has them
/// as its digits to the base nineteen.
pub proof fn lemma_encode(a: int, b: int, c: int, d: int)
    requires
        0 <= a <= 18,
        0 <= b <= 18,
        0 <= c <= 18,
        0 <= d <= 18,
    ensures
        0 <= a * 6859 + b * 361 + c * 19 + d < COMBINATIONS,
        (a * 6859 + b * 361 + c * 19 + d) / 6859 == a,
        ((a * 6859 + b * 361 + c * 19 + d) / 361) % 19 == b,
        ((a * 6859 + b * 361 + c * 19 + d) / 19) % 19 == c,
        (a * 6859 + b * 361 + c * 19 + d) % 19 == d,
{
    let key = a * 6859 + b * 361 + c * 19 + d;
    assert(key / 6859 == a);
    assert(key / 361 == a * 19 + b);
    assert(key / 19 == a * 361 + b * 19 + c);
}

/// A number below nineteen to the fourth is made of its four digits to
/// the base nineteen.
pub proof fn lemma_decode(k: int)
    requires
        0 <= k < COMBINATIONS,
    ensures
        k == (k / 6859) * 6859 + ((k / 361) % 19) * 361 + ((k / 19) % 19) * 19 + k % 19,
        0 <= k / 6859 <= 18,
{
    let q = k / 19;
    let p = k / 361;
    assert(p == q / 19);
    assert(k / 6859 == p / 19);
}

/// The changes that lead up to a price make one row of four changes and
/// no other.
pub proof fn lemma_key(bananas: Seq<u64>, idx: int, k: int)
    requires
        digits(bananas),
        4 <= idx < bananas.len(),
        0 <= k < COMBINATIONS,
    ensures
        0 <= key_at(bananas, idx) < COMBINATIONS,
        seen_at(bananas, combo(k), idx) <==> k == key_at(bananas, idx),
{
    let a = bananas[idx - 3] - bananas[idx - 4] + 9;
    let b = bananas[idx - 2] - bananas[idx - 3] + 9;
    let c = bananas[idx - 1] - bananas[idx - 2] + 9;
    let d = bananas[idx] - bananas[idx - 1] + 9;
    assert(bananas[idx - 4] <= 9 && bananas[idx - 3] <= 9 && bananas[idx - 2] <= 9 && bananas[idx
        - 1] <= 9 && bananas[idx] <= 9);
    lemma_encode(a, b, c, d);
    lemma_decode(k);
    assert(key_at(bananas, idx) == a * 6859 + b * 361 + c * 19 + d);
    if k == key_at(bananas, idx) {
        assert(combo(k)[0] == a - 9);
        assert(combo(k)[1] == b - 9);
        assert(combo(k)[2] == c - 9);
        assert(combo(k)[3] == d - 9);
    }
    if seen_at(bananas, combo(k), idx) {
        assert(k / 6859 == a);
        assert((k / 361) % 19 == b);
        assert((k / 19) % 19 == c);
        assert(k % 19 == d);
    }
}

/// The number of the row of four changes that lead up to the price at
/// index `idx`.
pub fn window_key(bananas: &Vec<u64>, idx: usize) -> (k: usize)
    requires
        digits(bananas@),
        4 <= idx < bananas.len(),
    ensures
        k == key_at(bananas@, idx as int),
        k < COMBINATIONS,
{
    let a: usize = (bananas[idx - 3] + 9 - bananas[idx - 4]) as usize;
    let b: usize = (bananas[idx - 2] + 9 - bananas[idx - 3]) as usize;
    let c: usize = (bananas[idx - 1] + 9 - bananas[idx - 2]) as usize;
    let d: usize = (bananas[idx] + 9 - bananas[idx - 1]) as usize;
    a * 6859 + b * 361 + c * 19 + d
}

/// The `k`-th row of four changes.
pub fn changes_of(k: usize) -> (r: [i64; 4])
    requires
        k < COMBINATIONS,
    ensures
        r@ == combo(k as int),
{
    let r: [i64; 4] = [
        (k / 6859) as i64 - 9,
        ((k / 361) % 19) as i64 - 9,
        ((k / 19) % 19) as i64 - 9,
        (k % 19) as i64 - 9,
    ];
    assert(r@ =~= combo(k as int));
    r
}

/// A list of as many items as there are rows of four changes, all alike.
fn filled<T: Copy>(item: T) -> (r: Vec<T>)
    ensures
        r.len() == COMBINATIONS,
        forall|k: int| 0 <= k < COMBINATIONS ==> r[k] == item,
{
    let mut r: Vec<T> = Vec::new();
    let mut k: usize = 0;
    while k < COMBINATIONS
        invariant
            k <= COMBINATIONS,
            r.len() == k,
            forall|j: int| 0 <= j < k ==> r[j] == item,
        decreases COMBINATIONS - k,
    {
        r.push(item);
        k += 1;
    }
    r
}

/// Adds to a table, for every row of four changes, what the monkey gets
/// for it from a buyer with the given prices.
pub fn add_sales(table: &mut Vec<u64>, bananas: &Vec<u64>)
    requires
        old(table).len() == COMBINATIONS,
        digits(bananas@),
        forall|k: int| 0 <= k < COMBINATIONS ==> old(table)[k] + 9 <= u64::MAX,
    ensures
        final(table).len() == COMBINATIONS,
        forall|k: int|
            0 <= k < COMBINATIONS ==> #[trigger] final(table)[k] == old(table)[k] + sale(
                bananas@,
                combo(k),
                0,
            ),
{
    let mut seen: Vec<bool> = filled(false);
    let mut idx: usize = 0;
    while idx < bananas.len()
        invariant
            idx <= bananas.len(),
            digits(bananas@),
            table.len() == COMBINATIONS,
            seen.len() == COMBINATIONS,
            forall|k: int| 0 <= k < COMBINATIONS ==> old(table)[k] + 9 <= u64::MAX,
            forall|k: int|
                0 <= k < COMBINATIONS && #[trigger] seen[k] ==> table[k] == old(table)[k] + sale(
                    bananas@,
                    combo(k),
                    0,
                ),
            forall|k: int|
                0 <= k < COMBINATIONS && !#[trigger] seen[k] ==> table[k] == old(table)[k] && sale(
                    bananas@,
                    combo(k),
                    0,
                ) == sale(bananas@, combo(k), idx as int),
        decreases bananas.len() - idx,
    {
        if idx >= 4 {
            let key = window_key(bananas, idx);
            proof {
                assert forall|k: int| 0 <= k < COMBINATIONS implies (seen_at(
                    bananas@,
                    combo(k),
                    idx as int,
                ) <==> k == key) by {
                    lemma_key(bananas@, idx as int, k);
                }
            }
            if !seen[key] {
                let sum = table[key] + bananas[idx];
                table.set(key, sum);
                seen.set(key, true);
            }
        }
        idx += 1;
    }
    assert forall|k: int| 0 <= k < COMBINATIONS implies #[trigger] table[k] == old(table)[k]
        + sale(bananas@, combo(k), 0) by {
        if !seen[k] {
            assert(sale(bananas@, combo(k), bananas.len() as int) == 0);
        }
    }
}

/// The most that the monkey can get from the buyers with any row of four
/// changes, each buyer offering the given number of prices.
pub fn try_combinations(buyers: &Vec<u64>, price_change_count: usize) -> (r: u64)
    requires
        forall|i: int| 0 <= i < buyers.len() ==> workable(#[trigger] buyers[i]),
        9 * buyers.len() + 9 <= u64::MAX,
    ensures
        is_best(buyers@, price_change_count as int, r as int),
{
    let ghost count = price_change_count as int;
    let mut table: Vec<u64> = filled(0u64);
    let mut i: usize = 0;
    while i < buyers.len()
        invariant
            i <= buyers.len(),
            count == price_change_count,
            forall|i: int| 0 <= i < buyers.len() ==> workable(#[trigger] buyers[i]),
            9 * buyers.len() + 9 <= u64::MAX,
            table.len() == COMBINATIONS,
            forall|k: int|
                0 <= k < COMBINATIONS ==> #[trigger] table[k] == sum_below(
                    i as int,
                    sold_to(buyers@, count, combo(k)),
                ) && table[k] <= 9 * i,
        decreases buyers.len() - i,
    {
        let bananas = get_bananas(buyers[i], price_change_count);
        let ghost before = table@;
        add_sales(&mut table, &bananas);
        proof {
            assert forall|k: int| 0 <= k < COMBINATIONS implies #[trigger] table[k] == sum_below(
                i + 1,
                sold_to(buyers@, count, combo(k)),
            ) && table[k] <= 9 * (i + 1) by {
                assert(table[k] == before[k] + sale(bananas@, combo(k), 0));
                lemma_sale_is_digit(bananas@, combo(k), 0);
            }
        }
        i += 1;
    }
    let mut best: u64 = table[0];
    let mut k: usize = 1;
    let ghost mut at: int = 0;
    while k < COMBINATIONS
        invariant
            1 <= k <= COMBINATIONS,
            table.len() == COMBINATIONS,
            0 <= at < k,
            table[at] == best,
            forall|j: int| 0 <= j < k ==> #[trigger] table[j] <= best,
        decreases COMBINATIONS - k,
    {
        if table[k] > best {
            best = table[k];
            proof {
                at = k as int;
            }
        }
        k += 1;
    }
    assert(haul(buyers@, count, combo(at)) == best);
    assert forall|j: int| 0 <= j < COMBINATIONS implies #[trigger] haul(buyers@, count, combo(j))
        <= best by {
        assert(table[j] <= best);
    }
    best
}

/// The monkey sells at one of the prices or not at all.
pub proof fn lemma_sale_is_digit(bananas: Seq<u64>, given: Seq<i64>, from: int)
    requires
        digits(bananas),
        0 <= from,
    ensures
        sale(bananas, given, from) <= 9,
    decreases bananas.len() - from,
{
    if from < bananas.len() && !seen_at(bananas, given, from) {
        lemma_sale_is_digit(bananas, given, from + 1);
    }
}

/// Whether the sums over the buyers of a text can be made in 64 bits.
pub open spec fn summable(text: Seq<char>) -> bool {
    lines(text).len() * MODULUS <= u64::MAX
}

/// Both answers for the buyers given as text, one first secret number
/// per line: the sum of their two-thousandth secret numbers, and the
/// most that the monkey can get with one row of four changes. Fails when
/// a line is not a number that can be worked on in 64 bits.
pub fn solve(input: &str) -> (r: Result<(u64, u64), PuzzleError>)
    requires
        summable(input@),
    ensures
        match r {
            Ok((sum, most)) => {
                &&& well_formed(input@)
                &&& forall|i: int|
                    0 <= i < buyers_of(input@).len() ==> workable(#[trigger] buyers_of(input@)[i])
                &&& sum == sum_below(
                    buyers_of(input@).len() as int,
                    last_secret(buyers_of(input@)),
                )
                &&& is_best(buyers_of(input@), ROUNDS as int, most as int)
            },
            Err(e) => e == PuzzleError::MalformedInput && (!well_formed(input@) || exists|i: int|
                0 <= i < buyers_of(input@).len() && !workable(#[trigger] buyers_of(input@)[i])),
        },
{
    let buyers = match parse(input) {
        Ok(b) => b,
        Err(e) => {
            return Err(e);
        },
    };
    let mut i: usize = 0;
    while i < buyers.len()
        invariant
            i <= buyers.len(),
            buyers@ == buyers_of(input@),
            forall|k: int| 0 <= k < i ==> workable(#[trigger] buyers[k]),
        decreases buyers.len() - i,
    {
        if buyers[i] > u64::MAX / 64 {
            assert(!workable(buyers_of(input@)[i as int]));
            return Err(PuzzleError::MalformedInput);
        }
        i += 1;
    }
    proof {
        lemma_secrets_fit(buyers@, buyers.len() as int);
        assert(buyers.len() * MODULUS <= u64::MAX);
    }
    let sum = sum_of_secrets(&buyers);
    let most = try_combinations(&buyers, ROUNDS);
    Ok((sum, most))
}

/// Every secret number that follows on another is below the modulus, so
/// the sum of the last secret numbers of `n` buyers is below `n` times
/// the modulus.
pub proof fn lemma_secrets_fit(buyers: Seq<u64>, n: int)
    requires
        0 <= n <= buyers.len(),
    ensures
        0 <= sum_below(n, last_secret(buyers)) <= n * MODULUS,
    decreases n,
{
    if n > 0 {
        lemma_secrets_fit(buyers, n - 1);
        assert(secret_after(buyers[n - 1], ROUNDS as int) == next_secret(
            secret_after(buyers[n - 1], ROUNDS - 1),
        ));
        assert(last_secret(buyers)(n - 1) < MODULUS);
    }
}

} // verus!
