//! A small computer whose program prints itself for the right first value
//! of its register: the search for the smallest such value, three bits at a time.
use vstd::prelude::*;
use crate::error::PuzzleError;
use crate::text::{chars_of, number_size, parse_usize, pieces, rows, split_char};

verus! {

/// The program that the search is made for.
pub open spec fn program() -> Seq<u64> {
    seq![2, 4, 1, 2, 7, 5, 1, 7, 4, 4, 0, 3, 5, 5, 3, 0]
}

/// The most numbers that a program may have for the search to stay within 64 bits.
pub const LONGEST: usize = 20;

/// Two to the power of a number from zero to seven.
pub open spec fn two_to(k: u64) -> u64 {
    if k == 0 {
        1
    } else if k == 1 {
        2
    } else if k == 2 {
        4
    } else if k == 3 {
        8
    } else if k == 4 {
        16
    } else if k == 5 {
        32
    } else if k == 6 {
        64
    } else {
        128
    }
}

/// What the program prints first when its register holds `x`.
pub open spec fn printed(x: u64) -> u64 {
    let low: u64 = x % 8;
    let shift: u64 = low ^ 2;
    let high: u64 = x / two_to(shift);
    ((low ^ high) ^ 5) % 8
}

/// Of the eight values that `a` and the `n - 1` after it make, those for
/// which the program prints `wanted` first.
pub open spec fn from_one(a: u64, wanted: u64, n: int) -> Seq<u64>
    decreases n,
{
    if n <= 0 {
        Seq::empty()
    } else if printed((a + n - 1) as u64) == wanted {
        from_one(a, wanted, n - 1).push((a + n - 1) as u64)
    } else {
        from_one(a, wanted, n - 1)
    }
}

/// Of the values that the first `i` numbers of `prev` and the seven after
/// each of them make, those for which the program prints `wanted` first.
pub open spec fn fitting(prev: Seq<u64>, wanted: u64, i: int) -> Seq<u64>
    decreases i,
{
    if i <= 0 {
        Seq::empty()
    } else {
        fitting(prev, wanted, i - 1) + from_one(prev[i - 1], wanted, 8)
    }
}

/// Whether a value is one of the numbers of a list or one of the seven
/// after one of them.
pub open spec fn near_one(prev: Seq<u64>, v: u64) -> bool {
    exists|i: int| 0 <= i < prev.len() && (#[trigger] prev[i]) <= v <= prev[i] + 7
}

/// What the program prints first when its register holds `x`.
pub fn first_output(x: u64) -> (r: u64)
    ensures
        r == printed(x),
        r < 8,
{
    let low: u64 = x % 8;
    let shift: u64 = low ^ 2;
    let power: u64 = if shift == 0 {
        1
    } else if shift == 1 {
        2
    } else if shift == 2 {
        4
    } else if shift == 3 {
        8
    } else if shift == 4 {
        16
    } else if shift == 5 {
        32
    } else if shift == 6 {
        64
    } else {
        128
    };
    let high: u64 = x / power;
    ((low ^ high) ^ 5) % 8
}

/// The values, among each number of `possible_prev_inputs` and the seven
/// after it, for which the program prints `expected_end` first.
pub fn get_possible_inputs_for(possible_prev_inputs: &Vec<u64>, expected_end: u64) -> (r: Vec<u64>)
    requires
        forall|i: int|
            0 <= i < possible_prev_inputs.len() ==> #[trigger] possible_prev_inputs[i] + 7
                <= u64::MAX,
    ensures
        r@ == fitting(possible_prev_inputs@, expected_end, possible_prev_inputs.len() as int),
        forall|j: int| 0 <= j < r.len() ==> near_one(possible_prev_inputs@, #[trigger] r[j]),
{
    let mut out: Vec<u64> = Vec::new();
    let mut i: usize = 0;
    while i < possible_prev_inputs.len()
        invariant
            i <= possible_prev_inputs.len(),
            forall|i: int|
                0 <= i < possible_prev_inputs.len() ==> #[trigger] possible_prev_inputs[i] + 7
                    <= u64::MAX,
            out@ == fitting(possible_prev_inputs@, expected_end, i as int),
            forall|j: int| 0 <= j < out.len() ==> near_one(possible_prev_inputs@, #[trigger] out[j]),
        decreases possible_prev_inputs.len() - i,
    {
        let a = possible_prev_inputs[i];
        let ghost start = out@;
        let mut n: u64 = 0;
        while n < 8
            invariant
                n <= 8,
                i < possible_prev_inputs.len(),
                a == possible_prev_inputs[i as int],
                a + 7 <= u64::MAX,
                out@ == start + from_one(a, expected_end, n as int),
                forall|j: int|
                    0 <= j < out.len() ==> near_one(possible_prev_inputs@, #[trigger] out[j]),
            decreases 8 - n,
        {
            let ghost before = out@;
            if first_output(a + n) == expected_end {
                out.push(a + n);
                proof {
                    assert(possible_prev_inputs@[i as int] <= a + n <= possible_prev_inputs@[i as int] + 7);
                    assert(near_one(possible_prev_inputs@, (a + n) as u64));
                    assert forall|j: int| 0 <= j < out.len() implies near_one(
                        possible_prev_inputs@,
                        #[trigger] out[j],
                    ) by {
                        if j < before.len() {
                            assert(out[j] == before[j]);
                        }
                    }
                }
            }
            n += 1;
            assert(out@ =~= start + from_one(a, expected_end, n as int));
        }
        i += 1;
    }
    out
}

/// Eight to the power of `k`.
pub open spec fn eight_to(k: int) -> int
    decreases k,
{
    if k <= 0 {
        1
    } else {
        8 * eight_to(k - 1)
    }
}

/// The values that are tried for the register once the last `level`
/// numbers of the program are accounted for: the single value one at the
/// start, and after that what is found for the number before, times eight.
pub open spec fn tried(nums: Seq<u64>, level: int) -> Seq<u64>
    decreases level, 0int,
{
    if level <= 0 {
        seq![1]
    } else {
        found(nums, level - 1).map_values(|a: u64| (a * 8) as u64)
    }
}

/// The values for which the program prints its last `level + 1` numbers.
pub open spec fn found(nums: Seq<u64>, level: int) -> Seq<u64>
    decreases level, 1int,
{
    let t = tried(nums, level);
    fitting(t, nums[nums.len() - 1 - level], t.len() as int)
}

/// The smallest number of a list; `None` for an empty list.
pub open spec fn smallest(s: Seq<u64>) -> Option<u64>
    decreases s.len(),
{
    if s.len() == 0 {
        None
    } else {
        match smallest(s.drop_last()) {
            Some(m) => if s.last() < m {
                Some(s.last())
            } else {
                Some(m)
            },
            None => Some(s.last()),
        }
    }
}

/// The smallest number of a list.
fn least(values: &Vec<u64>) -> (r: Option<u64>)
    ensures
        r == smallest(values@),
{
    let mut best: Option<u64> = None;
    let mut i: usize = 0;
    while i < values.len()
        invariant
            i <= values.len(),
            best == smallest(values@.take(i as int)),
        decreases values.len() - i,
    {
        assert(values@.take(i + 1).drop_last() =~= values@.take(i as int));
        let v = values[i];
        best = match best {
            Some(m) => if v < m {
                Some(v)
            } else {
                Some(m)
            },
            None => Some(v),
        };
        i += 1;
    }
    assert(values@.take(values.len() as int) =~= values@);
    best
}

/// Eight to the power of at most twenty fits in sixty bits.
proof fn lemma_eight_to(k: int)
    requires
        0 <= k <= 20,
    ensures
        1 <= eight_to(k) <= 0x1000_0000_0000_0000,
        k >= 1 ==> eight_to(k) == 8 * eight_to(k - 1),
{
    reveal_with_fuel(eight_to, 22);
}

/// Finds the smallest first value of the register for which the program
/// prints the numbers `nums`: the search goes through the numbers from the
/// last to the first and settles three more bits of the value with each.
/// `None` when no value is found.
pub fn find_original_A(nums: &Vec<u64>) -> (r: Option<u64>)
    requires
        nums.len() <= LONGEST,
    ensures
        r == if nums.len() == 0 {
            Some(1u64)
        } else {
            smallest(found(nums@, nums.len() - 1))
        },
{
    let mut input: Vec<u64> = Vec::new();
    input.push(1);
    if nums.len() == 0 {
        assert(input@ =~= seq![1u64]);
        reveal_with_fuel(smallest, 2);
        assert(input@.drop_last() =~= Seq::<u64>::empty());
        return least(&input);
    }
    assert(input@ =~= tried(nums@, 0));
    proof {
        lemma_eight_to(1);
    }
    let mut level: usize = 0;
    loop
        invariant_except_break
            level < nums.len() <= LONGEST,
            input@ == tried(nums@, level as int),
            forall|i: int| 0 <= i < input.len() ==> #[trigger] input[i] + 8 <= 2 * eight_to(level + 1),
        ensures
            level == nums.len() - 1,
            input@ == found(nums@, level as int),
        decreases nums.len() - level,
    {
        proof {
            lemma_eight_to(level + 1);
        }
        let wanted = nums[nums.len() - 1 - level];
        let next = get_possible_inputs_for(&input, wanted);
        assert(next@ == found(nums@, level as int));
        assert forall|k: int| 0 <= k < next.len() implies #[trigger] next[k] + 1 <= 2 * eight_to(
            level + 1,
        ) by {
            assert(near_one(input@, next[k]));
            let i = choose|i: int| 0 <= i < input.len() && (#[trigger] input[i]) <= next[k] <= input[i] + 7;
        }
        if level == nums.len() - 1 {
            input = next;
            break ;
        }
        let mut shifted: Vec<u64> = Vec::new();
        let mut j: usize = 0;
        while j < next.len()
            invariant
                j <= next.len(),
                level + 1 < nums.len() <= LONGEST,
                forall|k: int| 0 <= k < next.len() ==> #[trigger] next[k] + 1 <= 2 * eight_to(level + 1),
                shifted.len() == j,
                forall|k: int| 0 <= k < j ==> #[trigger] shifted[k] == next[k] * 8,
            decreases next.len() - j,
        {
            proof {
                lemma_eight_to(level + 1);
            }
            shifted.push(next[j] * 8);
            j += 1;
        }
        proof {
            lemma_eight_to(level + 2);
            assert(shifted@ =~= tried(nums@, level + 1));
        }
        input = shifted;
        level += 1;
    }
    least(&input)
}

/// Whether a text is numbers with commas between them.
pub open spec fn well_formed(text: Seq<char>) -> bool {
    forall|i: int|
        0 <= i < pieces(text, ',').len() ==> number_size(#[trigger] pieces(text, ',')[i]) is Some
}

/// The numbers of a text.
pub open spec fn numbers_of(text: Seq<char>) -> Seq<usize> {
    Seq::new(pieces(text, ',').len(), |i: int| number_size(pieces(text, ',')[i]).unwrap())
}

/// Reads numbers with commas between them. Fails when a piece between
/// commas is not a number.
pub fn parse(input: &str) -> (r: Result<Vec<usize>, PuzzleError>)
    ensures
        match r {
            Ok(v) => well_formed(input@) && v@ == numbers_of(input@),
            Err(e) => e == PuzzleError::MalformedInput && !well_formed(input@),
        },
{
    let text = chars_of(input);
    let p = split_char(&text, ',');
    let mut out: Vec<usize> = Vec::new();
    let mut i: usize = 0;
    while i < p.len()
        invariant
            i <= p.len(),
            rows(p@) == pieces(input@, ','),
            out.len() == i,
            forall|k: int|
                0 <= k < i ==> number_size(#[trigger] pieces(input@, ',')[k]) == Some(out[k]),
        decreases p.len() - i,
    {
        assert(pieces(input@, ',')[i as int] == p[i as int]@);
        match parse_usize(&p[i]) {
            Some(x) => {
                out.push(x);
            },
            None => {
                return Err(PuzzleError::MalformedInput);
            },
        }
        i += 1;
    }
    assert(out@ =~= numbers_of(input@));
    Ok(out)
}

/// The smallest first value of the register for which the program that the
/// search is made for prints itself. The text is not looked at: the
/// program is fixed.
pub fn solve(input: &str) -> (r: Option<u64>)
    ensures
        r == smallest(found(program(), program().len() - 1)),
{
    let mut nums: Vec<u64> = Vec::new();
    nums.push(2);
    nums.push(4);
    nums.push(1);
    nums.push(2);
    nums.push(7);
    nums.push(5);
    nums.push(1);
    nums.push(7);
    nums.push(4);
    nums.push(4);
    nums.push(0);
    nums.push(3);
    nums.push(5);
    nums.push(5);
    nums.push(3);
    nums.push(0);
    assert(nums@ =~= program());
    find_original_A(&nums)
}

} // verus!
