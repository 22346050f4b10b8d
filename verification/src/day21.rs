//! Keypads that are typed on through a chain of robots: every key of one
//! keypad is reached by pressing arrow keys on the next, and every arrow
//! key of that one by pressing arrow keys on the one after it.
use vstd::prelude::*;
use crate::counting::{lemma_filter_step, lemma_sum_grows, sum_below};
use crate::error::PuzzleError;
use crate::text::{chars_of, is_digit, lines, number64, parse_u64, rows, split_lines};

verus! {

/// A key of the arrow keypad.
#[derive(PartialEq, Clone, Copy, Debug, Hash, Eq, Structural)]
pub enum Key {
    Left,
    Up,
    Down,
    Right,
    A,
}

/// A code to type on the number keypad.
pub type Code = Vec<char>;

/// The number of robots that stand between the typist and the number keypad.
pub const ROBOTS: usize = 25;

/// The most robots for which the number of key presses is worked out.
pub const MOST_ROBOTS: usize = 25;

/// The keys to press on an arrow keypad so that the robot it steers, whose
/// arm is over `from`, moves to `to` and presses it.
pub open spec fn way(from: Key, to: Key) -> Seq<Key> {
    match from {
        Key::Left => match to {
            Key::Left => seq![Key::A],
            Key::Up => seq![Key::Right, Key::Up, Key::A],
            Key::Down => seq![Key::Right, Key::A],
            Key::Right => seq![Key::Right, Key::Right, Key::A],
            Key::A => seq![Key::Right, Key::Right, Key::Up, Key::A],
        },
        Key::Up => match to {
            Key::Left => seq![Key::Down, Key::Left, Key::A],
            Key::Up => seq![Key::A],
            Key::Down => seq![Key::Down, Key::A],
            Key::Right => seq![Key::Down, Key::Right, Key::A],
            Key::A => seq![Key::Right, Key::A],
        },
        Key::Down => match to {
            Key::Left => seq![Key::Left, Key::A],
            Key::Up => seq![Key::Up, Key::A],
            Key::Down => seq![Key::A],
            Key::Right => seq![Key::Right, Key::A],
            Key::A => seq![Key::Up, Key::Right, Key::A],
        },
        Key::Right => match to {
            Key::Left => seq![Key::Left, Key::Left, Key::A],
            Key::Up => seq![Key::Left, Key::Up, Key::A],
            Key::Down => seq![Key::Left, Key::A],
            Key::Right => seq![Key::A],
            Key::A => seq![Key::Up, Key::A],
        },
        Key::A => match to {
            Key::Left => seq![Key::Down, Key::Left, Key::Left, Key::A],
            Key::Up => seq![Key::Left, Key::A],
            Key::Down => seq![Key::Left, Key::Down, Key::A],
            Key::Right => seq![Key::Down, Key::A],
            Key::A => seq![Key::A],
        },
    }
}

/// The key over which the arm is before the `i`-th key of `s` is pressed:
/// the key before it, and `A` at the start.
pub open spec fn before(s: Seq<Key>, i: int) -> Key {
    if i <= 0 {
        Key::A
    } else {
        s[i - 1]
    }
}

/// The keys to press on the next keypad to have the first `n` keys of `s` pressed.
pub open spec fn typed(s: Seq<Key>, n: int) -> Seq<Key>
    decreases n,
{
    if n <= 0 {
        Seq::empty()
    } else {
        typed(s, n - 1) + way(before(s, n - 1), s[n - 1])
    }
}

/// The keys to press on the keypad `robots` keypads further on to have `s` pressed.
pub open spec fn pressed(s: Seq<Key>, robots: int) -> Seq<Key>
    decreases robots,
{
    if robots <= 0 {
        s
    } else {
        pressed(typed(s, s.len() as int), robots - 1)
    }
}

/// The number of key presses, `robots` keypads further on, that it takes to
/// move from `from` to `to` and press it.
pub open spec fn cost(from: Key, to: Key, robots: int) -> int
    decreases robots, 0int, 0int,
{
    if robots <= 0 {
        1
    } else {
        costs(way(from, to), robots - 1, way(from, to).len() as int)
    }
}

/// The number of key presses, `robots` keypads further on, that it takes to
/// press the first `n` keys of `s`.
pub open spec fn costs(s: Seq<Key>, robots: int, n: int) -> int
    decreases robots, 1int, n,
{
    if n <= 0 {
        0
    } else {
        costs(s, robots, n - 1) + cost(before(s, n - 1), s[n - 1], robots)
    }
}

/// Every way is one to four keys long and ends with `A`.
pub proof fn lemma_way(from: Key, to: Key)
    ensures
        1 <= way(from, to).len() <= 4,
        way(from, to).last() == Key::A,
{
}

/// What is typed ends with `A`, if anything is typed.
proof fn lemma_typed_ends(s: Seq<Key>, n: int)
    requires
        n <= s.len(),
    ensures
        typed(s, n).len() == 0 || typed(s, n).last() == Key::A,
        n >= 1 ==> typed(s, n).len() >= 1,
{
    if n >= 1 {
        lemma_way(before(s, n - 1), s[n - 1]);
    }
}

/// The costs of the first keys of a sequence do not depend on the keys after them.
proof fn lemma_costs_prefix(a: Seq<Key>, b: Seq<Key>, robots: int, n: int)
    requires
        n <= a.len(),
        n <= b.len(),
        forall|i: int| 0 <= i < n ==> a[i] == b[i],
    ensures
        costs(a, robots, n) == costs(b, robots, n),
    decreases n,
{
    if n > 0 {
        lemma_costs_prefix(a, b, robots, n - 1);
    }
}

/// The costs of a sequence made of two, the first of which ends with `A`
/// or is empty, are the costs of the two.
proof fn lemma_costs_concat(u: Seq<Key>, v: Seq<Key>, robots: int, n: int)
    requires
        u.len() == 0 || u.last() == Key::A,
        0 <= n <= v.len(),
    ensures
        costs(u + v, robots, u.len() + n) == costs(u, robots, u.len() as int) + costs(v, robots, n),
    decreases n,
{
    if n == 0 {
        lemma_costs_prefix(u + v, u, robots, u.len() as int);
    } else {
        lemma_costs_concat(u, v, robots, n - 1);
        assert((u + v)[u.len() + n - 1] == v[n - 1]);
        assert(before(u + v, u.len() + n - 1) == before(v, n - 1));
    }
}

/// Typing costs, one keypad further on, what pressing costs here.
proof fn lemma_typed_costs(s: Seq<Key>, robots: int, n: int)
    requires
        0 <= n <= s.len(),
        robots >= 0,
    ensures
        costs(typed(s, n), robots, typed(s, n).len() as int) == costs(s, robots + 1, n),
    decreases n,
{
    if n > 0 {
        lemma_typed_costs(s, robots, n - 1);
        lemma_typed_ends(s, n - 1);
        let w = way(before(s, n - 1), s[n - 1]);
        lemma_costs_concat(typed(s, n - 1), w, robots, w.len() as int);
        assert(cost(before(s, n - 1), s[n - 1], robots + 1) == costs(w, robots, w.len() as int));
        assert(typed(s, n) == typed(s, n - 1) + w);
        assert(costs(s, robots + 1, n) == costs(s, robots + 1, n - 1) + cost(
            before(s, n - 1),
            s[n - 1],
            robots + 1,
        ));
    } else {
        assert(typed(s, n).len() == 0);
        assert(costs(typed(s, n), robots, 0) == 0);
        assert(costs(s, robots + 1, n) == 0);
    }
}

/// Without a robot in between, every key is one press.
proof fn lemma_costs_direct(s: Seq<Key>, n: int)
    requires
        0 <= n,
    ensures
        costs(s, 0, n) == n,
    decreases n,
{
    if n > 0 {
        lemma_costs_direct(s, n - 1);
        assert(cost(before(s, n - 1), s[n - 1], 0) == 1);
        assert(costs(s, 0, n) == costs(s, 0, n - 1) + cost(before(s, n - 1), s[n - 1], 0));
    } else {
        assert(costs(s, 0, n) == 0);
    }
}

/// The number of keys to press `robots` keypads further on is the sum of
/// the costs of the keys.
pub proof fn lemma_pressed_len(s: Seq<Key>, robots: int)
    requires
        robots >= 0,
    ensures
        pressed(s, robots).len() == costs(s, robots, s.len() as int),
    decreases robots,
{
    if robots == 0 {
        lemma_costs_direct(s, s.len() as int);
    } else {
        let t = typed(s, s.len() as int);
        lemma_pressed_len(t, robots - 1);
        lemma_typed_costs(s, robots - 1, s.len() as int);
    }
}

/// Four to the power of `k`.
pub open spec fn four_to(k: int) -> int
    decreases k,
{
    if k <= 0 {
        1
    } else {
        4 * four_to(k - 1)
    }
}

/// A move and a press cost no more than four to the number of robots.
proof fn lemma_cost_bound(from: Key, to: Key, robots: int)
    ensures
        1 <= cost(from, to, robots) <= four_to(robots),
    decreases robots, 0int, 0int,
{
    if robots > 0 {
        lemma_way(from, to);
        lemma_costs_bound(way(from, to), robots - 1, way(from, to).len() as int);
        assert(four_to(robots - 1) * way(from, to).len() <= 4 * four_to(robots - 1))
            by (nonlinear_arith)
            requires
                way(from, to).len() <= 4,
                four_to(robots - 1) >= 0,
        ;
    }
}

/// The first `n` keys cost no more than `n` times four to the number of robots.
proof fn lemma_costs_bound(s: Seq<Key>, robots: int, n: int)
    requires
        0 <= n,
    ensures
        n <= costs(s, robots, n) <= four_to(robots) * n,
        four_to(robots) >= 1,
    decreases robots, 1int, n,
{
    if n > 0 {
        lemma_costs_bound(s, robots, n - 1);
        lemma_cost_bound(before(s, n - 1), s[n - 1], robots);
        assert(four_to(robots) * (n - 1) + four_to(robots) == four_to(robots) * n)
            by (nonlinear_arith);
    } else {
        lemma_cost_bound(Key::A, Key::A, robots);
        assert(four_to(robots) * 0 == 0);
    }
}

/// Four to the power of at most twenty-five fits in fifty bits.
proof fn lemma_four_to_limit(k: int)
    requires
        k <= 25,
    ensures
        four_to(k) <= 0x4_0000_0000_0000,
    decreases 25 - k,
{
    reveal_with_fuel(four_to, 27);
}

/// The keys to press on an arrow keypad so that the robot it steers, whose
/// arm is over `from`, moves to `to` and presses it.
pub fn get_directional_way(from: Key, to: Key) -> (r: Vec<Key>)
    ensures
        r@ == way(from, to),
{
    let mut out: Vec<Key> = Vec::new();
    match from {
        Key::Left => match to {
            Key::Left => {},
            Key::Up => {
                out.push(Key::Right);
                out.push(Key::Up);
            },
            Key::Down => {
                out.push(Key::Right);
            },
            Key::Right => {
                out.push(Key::Right);
                out.push(Key::Right);
            },
            Key::A => {
                out.push(Key::Right);
                out.push(Key::Right);
                out.push(Key::Up);
            },
        },
        Key::Up => match to {
            Key::Left => {
                out.push(Key::Down);
                out.push(Key::Left);
            },
            Key::Up => {},
            Key::Down => {
                out.push(Key::Down);
            },
            Key::Right => {
                out.push(Key::Down);
                out.push(Key::Right);
            },
            Key::A => {
                out.push(Key::Right);
            },
        },
        Key::Down => match to {
            Key::Left => {
                out.push(Key::Left);
            },
            Key::Up => {
                out.push(Key::Up);
            },
            Key::Down => {},
            Key::Right => {
                out.push(Key::Right);
            },
            Key::A => {
                out.push(Key::Up);
                out.push(Key::Right);
            },
        },
        Key::Right => match to {
            Key::Left => {
                out.push(Key::Left);
                out.push(Key::Left);
            },
            Key::Up => {
                out.push(Key::Left);
                out.push(Key::Up);
            },
            Key::Down => {
                out.push(Key::Left);
            },
            Key::Right => {},
            Key::A => {
                out.push(Key::Up);
            },
        },
        Key::A => match to {
            Key::Left => {
                out.push(Key::Down);
                out.push(Key::Left);
                out.push(Key::Left);
            },
            Key::Up => {
                out.push(Key::Left);
            },
            Key::Down => {
                out.push(Key::Left);
                out.push(Key::Down);
            },
            Key::Right => {
                out.push(Key::Down);
            },
            Key::A => {},
        },
    }
    out.push(Key::A);
    assert(out@ =~= way(from, to));
    out
}

/// The keys to press on the next keypad to have `current_seq` pressed by
/// the robot it steers, whose arm starts over `A`.
pub fn iterate(current_seq: &[Key]) -> (r: Vec<Key>)
    ensures
        r@ == typed(current_seq@, current_seq.len() as int),
{
    let mut seq: Vec<Key> = Vec::new();
    let mut current_pos = Key::A;
    let mut i: usize = 0;
    while i < current_seq.len()
        invariant
            i <= current_seq.len(),
            current_pos == before(current_seq@, i as int),
            seq@ == typed(current_seq@, i as int),
        decreases current_seq.len() - i,
    {
        let next = current_seq[i];
        let keys = get_directional_way(current_pos, next);
        let ghost start = seq@;
        let mut k: usize = 0;
        while k < keys.len()
            invariant
                k <= keys.len(),
                seq@ == start + keys@.take(k as int),
            decreases keys.len() - k,
        {
            seq.push(keys[k]);
            k += 1;
            assert(seq@ =~= start + keys@.take(k as int));
        }
        assert(keys@.take(keys.len() as int) =~= keys@);
        current_pos = next;
        i += 1;
    }
    seq
}

/// The number of a key.
pub open spec fn key_code(k: Key) -> int {
    match k {
        Key::Left => 0,
        Key::Up => 1,
        Key::Down => 2,
        Key::Right => 3,
        Key::A => 4,
    }
}

/// The number of a key.
fn index_of(k: Key) -> (r: usize)
    ensures
        r == key_code(k),
        r < 5,
{
    match k {
        Key::Left => 0,
        Key::Up => 1,
        Key::Down => 2,
        Key::Right => 3,
        Key::A => 4,
    }
}

/// The key with a number.
fn key_at(i: usize) -> (r: Key)
    requires
        i < 5,
    ensures
        key_code(r) == i,
{
    if i == 0 {
        Key::Left
    } else if i == 1 {
        Key::Up
    } else if i == 2 {
        Key::Down
    } else if i == 3 {
        Key::Right
    } else {
        Key::A
    }
}

/// Whether `table` holds, for every pair of keys, what moving from the
/// first to the second and pressing it costs `robots` keypads further on.
pub open spec fn tabulates(table: Seq<u64>, robots: int) -> bool {
    &&& table.len() == 25
    &&& forall|a: Key, b: Key|
        #![trigger cost(a, b, robots)]
        table[5 * key_code(a) + key_code(b)] == cost(a, b, robots)
}

/// The cost of pressing the keys of `s`, from a table of the costs of its moves.
fn add_up(s: &[Key], table: &Vec<u64>, Ghost(robots): Ghost<int>) -> (r: u64)
    requires
        0 <= robots <= 25,
        s.len() <= 0x2000,
        tabulates(table@, robots),
    ensures
        r == costs(s@, robots, s.len() as int),
{
    let mut total: u64 = 0;
    let mut prev = Key::A;
    let mut i: usize = 0;
    while i < s.len()
        invariant
            i <= s.len(),
            s.len() <= 0x2000,
            0 <= robots <= 25,
            tabulates(table@, robots),
            prev == before(s@, i as int),
            total == costs(s@, robots, i as int),
        decreases s.len() - i,
    {
        let next = s[i];
        proof {
            lemma_costs_bound(s@, robots, i as int);
            lemma_costs_bound(s@, robots, i + 1);
            lemma_four_to_limit(robots);
            assert(four_to(robots) * (i + 1) <= 0x4_0000_0000_0000 * 0x2000) by (nonlinear_arith)
                requires
                    0 <= four_to(robots) <= 0x4_0000_0000_0000,
                    0 <= i + 1 <= 0x2000,
            ;
            assert(table[5 * key_code(prev) + key_code(next)] == cost(prev, next, robots));
        }
        total += table[5 * index_of(prev) + index_of(next)];
        prev = next;
        i += 1;
    }
    total
}

/// For every pair of keys, what moving from the first to the second and
/// pressing it costs `robots` keypads further on.
fn press_costs(robots: usize) -> (table: Vec<u64>)
    requires
        robots <= MOST_ROBOTS,
    ensures
        tabulates(table@, robots as int),
{
    let mut table: Vec<u64> = Vec::new();
    let mut n: usize = 0;
    while n < 25
        invariant
            n <= 25,
            table.len() == n,
            forall|i: int| 0 <= i < n ==> table[i] == 1,
        decreases 25 - n,
    {
        table.push(1);
        n += 1;
    }
    assert forall|a: Key, b: Key| #![trigger cost(a, b, 0)] table[5 * key_code(a) + key_code(b)]
        == cost(a, b, 0) by {}
    let mut level: usize = 0;
    while level < robots
        invariant
            level <= robots <= MOST_ROBOTS,
            tabulates(table@, level as int),
        decreases robots - level,
    {
        let mut next: Vec<u64> = Vec::new();
        let mut a: usize = 0;
        while a < 5
            invariant
                a <= 5,
                level < MOST_ROBOTS,
                tabulates(table@, level as int),
                next.len() == 5 * a,
                forall|x: Key, y: Key|
                    #![trigger cost(x, y, level + 1)]
                    key_code(x) < a ==> next[5 * key_code(x) + key_code(y)] == cost(x, y, level + 1),
            decreases 5 - a,
        {
            let mut b: usize = 0;
            while b < 5
                invariant
                    a < 5,
                    b <= 5,
                    level < MOST_ROBOTS,
                    tabulates(table@, level as int),
                    next.len() == 5 * a + b,
                    forall|x: Key, y: Key|
                        #![trigger cost(x, y, level + 1)]
                        key_code(x) < a || (key_code(x) == a && key_code(y) < b) ==> next[5
                            * key_code(x) + key_code(y)] == cost(x, y, level + 1),
                decreases 5 - b,
            {
                let from = key_at(a);
                let to = key_at(b);
                let keys = get_directional_way(from, to);
                proof {
                    lemma_way(from, to);
                }
                let value = add_up(keys.as_slice(), &table, Ghost(level as int));
                let ghost before_push = next@;
                next.push(value);
                proof {
                    assert(cost(from, to, level + 1) == value);
                    assert forall|x: Key, y: Key|
                        #![trigger cost(x, y, level + 1)]
                        key_code(x) < a || (key_code(x) == a && key_code(y) < b + 1) implies next[5
                            * key_code(x) + key_code(y)] == cost(x, y, level + 1) by {
                        if key_code(x) == a && key_code(y) == b {
                            assert(x == from && y == to);
                        } else {
                            assert(next[5 * key_code(x) + key_code(y)] == before_push[5 * key_code(
                                x,
                            ) + key_code(y)]);
                        }
                    }
                }
                b += 1;
            }
            a += 1;
        }
        table = next;
        level += 1;
    }
    table
}

/// The number of keys to press on the last keypad of a chain so that,
/// through `robots` robots, the keys of `seq` are pressed.
pub fn count_presses(seq: &[Key], robots: usize) -> (r: u64)
    requires
        robots <= MOST_ROBOTS,
        seq.len() <= 0x2000,
    ensures
        r == pressed(seq@, robots as int).len(),
{
    let table = press_costs(robots);
    proof {
        lemma_pressed_len(seq@, robots as int);
    }
    add_up(seq, &table, Ghost(robots as int))
}

/// The arrow keys that type a code on the number keypad, for the codes
/// that are known; nothing for any other code.
pub open spec fn first_keys(code: Seq<char>) -> Seq<Key> {
    if code == seq!['6', '7', '1', 'A'] {
        seq![
            Key::Up,
            Key::Up,
            Key::A,
            Key::Left,
            Key::Left,
            Key::Up,
            Key::A,
            Key::Down,
            Key::Down,
            Key::A,
            Key::Right,
            Key::Right,
            Key::Down,
            Key::A,
        ]
    } else if code == seq!['8', '2', '6', 'A'] {
        seq![
            Key::Left,
            Key::Up,
            Key::Up,
            Key::Up,
            Key::A,
            Key::Down,
            Key::Down,
            Key::A,
            Key::Up,
            Key::Right,
            Key::A,
            Key::Down,
            Key::Down,
            Key::A,
        ]
    } else if code == seq!['6', '7', '0', 'A'] {
        seq![
            Key::Up,
            Key::Up,
            Key::A,
            Key::Left,
            Key::Left,
            Key::Up,
            Key::A,
            Key::Right,
            Key::Down,
            Key::Down,
            Key::Down,
            Key::A,
            Key::Right,
            Key::A,
        ]
    } else if code == seq!['0', '8', '5', 'A'] {
        seq![
            Key::Left,
            Key::A,
            Key::Up,
            Key::Up,
            Key::Up,
            Key::A,
            Key::Down,
            Key::A,
            Key::Down,
            Key::Down,
            Key::Right,
            Key::A,
        ]
    } else if code == seq!['2', '8', '3', 'A'] {
        seq![
            Key::Left,
            Key::Up,
            Key::A,
            Key::Up,
            Key::Up,
            Key::A,
            Key::Down,
            Key::Down,
            Key::Right,
            Key::A,
            Key::Down,
            Key::A,
        ]
    } else if code == seq!['0', '2', '9', 'A'] {
        seq![
            Key::Left,
            Key::A,
            Key::Up,
            Key::A,
            Key::Up,
            Key::Up,
            Key::Right,
            Key::A,
            Key::Down,
            Key::Down,
            Key::Down,
            Key::A,
        ]
    } else if code == seq!['9', '8', '0', 'A'] {
        seq![
            Key::Up,
            Key::Up,
            Key::Up,
            Key::A,
            Key::Left,
            Key::A,
            Key::Down,
            Key::Down,
            Key::Down,
            Key::A,
            Key::Right,
            Key::A,
        ]
    } else if code == seq!['1', '7', '9', 'A'] {
        seq![
            Key::Up,
            Key::Left,
            Key::Left,
            Key::A,
            Key::Up,
            Key::Up,
            Key::A,
            Key::Right,
            Key::Right,
            Key::A,
            Key::Down,
            Key::Down,
            Key::Down,
            Key::A,
        ]
    } else if code == seq!['4', '5', '6', 'A'] {
        seq![
            Key::Up,
            Key::Up,
            Key::Left,
            Key::Left,
            Key::A,
            Key::Right,
            Key::A,
            Key::Right,
            Key::A,
            Key::Down,
            Key::Down,
            Key::A,
        ]
    } else if code == seq!['3', '7', '9', 'A'] {
        seq![
            Key::Up,
            Key::A,
            Key::Left,
            Key::Left,
            Key::Up,
            Key::Up,
            Key::A,
            Key::Right,
            Key::Right,
            Key::A,
            Key::Down,
            Key::Down,
            Key::Down,
            Key::A,
        ]
    } else if code == seq!['2'] {
        seq![Key::Up, Key::Left]
    } else {
        Seq::empty()
    }
}

/// Whether a code is the given four characters.
fn spells(code: &Code, a: char, b: char, c: char, d: char) -> (r: bool)
    ensures
        r == (code@ == seq![a, b, c, d]),
{
    if code.len() == 4 && code[0] == a && code[1] == b && code[2] == c && code[3] == d {
        assert(code@ =~= seq![a, b, c, d]);
        true
    } else {
        if code.len() == 4 {
            assert(seq![a, b, c, d][0] == a && seq![a, b, c, d][1] == b && seq![a, b, c, d][2] == c
                && seq![a, b, c, d][3] == d);
        } else {
            assert(seq![a, b, c, d].len() == 4);
        }
        false
    }
}

/// The arrow keys that type a code on the number keypad, for the codes
/// that are known; nothing for any other code.
pub fn keys_for(code: &Code) -> (r: Vec<Key>)
    ensures
        r@ == first_keys(code@),
        r.len() <= 14,
        r.len() > 0 ==> code.len() <= 4,
{
    let (u, d, l, r, a) = (Key::Up, Key::Down, Key::Left, Key::Right, Key::A);
    let out = if spells(code, '6', '7', '1', 'A') {
        vec![u, u, a, l, l, u, a, d, d, a, r, r, d, a]
    } else if spells(code, '8', '2', '6', 'A') {
        vec![l, u, u, u, a, d, d, a, u, r, a, d, d, a]
    } else if spells(code, '6', '7', '0', 'A') {
        vec![u, u, a, l, l, u, a, r, d, d, d, a, r, a]
    } else if spells(code, '0', '8', '5', 'A') {
        vec![l, a, u, u, u, a, d, a, d, d, r, a]
    } else if spells(code, '2', '8', '3', 'A') {
        vec![l, u, a, u, u, a, d, d, r, a, d, a]
    } else if spells(code, '0', '2', '9', 'A') {
        vec![l, a, u, a, u, u, r, a, d, d, d, a]
    } else if spells(code, '9', '8', '0', 'A') {
        vec![u, u, u, a, l, a, d, d, d, a, r, a]
    } else if spells(code, '1', '7', '9', 'A') {
        vec![u, l, l, a, u, u, a, r, r, a, d, d, d, a]
    } else if spells(code, '4', '5', '6', 'A') {
        vec![u, u, l, l, a, r, a, r, a, d, d, a]
    } else if spells(code, '3', '7', '9', 'A') {
        vec![u, a, l, l, u, u, a, r, r, a, d, d, d, a]
    } else if code.len() == 1 && code[0] == '2' {
        assert(code@ =~= seq!['2']);
        vec![u, l]
    } else {
        if code.len() == 1 {
            assert(seq!['2'][0] == '2');
        } else {
            assert(seq!['2'].len() == 1);
        }
        Vec::new()
    };
    assert(out@ =~= first_keys(code@));
    out
}

/// The number of keys that the typist presses so that, through `robots`
/// robots, a code is typed on the number keypad.
pub fn get_shortest_sequence_after(code: &Code, robots: usize) -> (r: u64)
    requires
        robots <= MOST_ROBOTS,
    ensures
        r == pressed(first_keys(code@), robots as int).len(),
{
    let keys = keys_for(code);
    count_presses(keys.as_slice(), robots)
}

/// The number of keys that the typist presses so that, through the whole
/// chain of robots, a code is typed on the number keypad.
pub fn get_shortest_sequence(code: &Code) -> (r: u64)
    ensures
        r == pressed(first_keys(code@), ROBOTS as int).len(),
{
    get_shortest_sequence_after(code, ROBOTS)
}

/// The digits of a code.
pub open spec fn digits_of(code: Seq<char>) -> Seq<char> {
    code.filter(|c: char| is_digit(c))
}

/// The digits of a code.
fn digits_in(code: &Code) -> (r: Vec<char>)
    ensures
        r@ == digits_of(code@),
        r.len() <= code.len(),
{
    let mut out: Vec<char> = Vec::new();
    let mut i: usize = 0;
    while i < code.len()
        invariant
            i <= code.len(),
            out@ == code@.take(i as int).filter(|c: char| is_digit(c)),
            out.len() <= i,
        decreases code.len() - i,
    {
        proof {
            lemma_filter_step(code@, i as int, |c: char| is_digit(c));
        }
        let n: u32 = code[i] as u32;
        if 0x30 <= n && n <= 0x39 {
            out.push(code[i]);
        }
        i += 1;
    }
    assert(code@.take(code.len() as int) =~= code@);
    out
}

/// The complexity of a code behind `robots` robots: the number of keys
/// that the typist presses, times the number that the digits of the code
/// make. `None` when the code has no digit or its number is too large.
pub open spec fn complexity(code: Seq<char>, robots: int) -> Option<int> {
    match number64(digits_of(code)) {
        Some(n) => Some(pressed(first_keys(code), robots).len() * n),
        None => None,
    }
}

/// The complexity of a code behind `robots` robots. Fails when the code
/// has no digit, or its digits make a number of more than 64 bits.
pub fn calculate_complexity_after(code: &Code, robots: usize) -> (r: Result<u64, PuzzleError>)
    requires
        robots <= MOST_ROBOTS,
        complexity(code@, robots as int) is Some ==> complexity(code@, robots as int)->0
            <= u64::MAX,
    ensures
        match r {
            Ok(c) => complexity(code@, robots as int) == Some(c as int),
            Err(e) => e == PuzzleError::MalformedInput && complexity(code@, robots as int) is None,
        },
{
    let digits = digits_in(code);
    let number = match parse_u64(&digits) {
        Some(n) => n,
        None => {
            return Err(PuzzleError::MalformedInput);
        },
    };
    let keys = keys_for(code);
    let presses = count_presses(keys.as_slice(), robots);
    Ok(presses * number)
}

/// The complexity of a code behind the whole chain of robots.
pub fn calculate_complexity(code: &Code) -> (r: Result<u64, PuzzleError>)
    requires
        complexity(code@, ROBOTS as int) is Some ==> complexity(code@, ROBOTS as int)->0
            <= u64::MAX,
    ensures
        match r {
            Ok(c) => complexity(code@, ROBOTS as int) == Some(c as int),
            Err(e) => e == PuzzleError::MalformedInput && complexity(code@, ROBOTS as int) is None,
        },
{
    calculate_complexity_after(code, ROBOTS)
}

/// Reads one code per line.
pub fn parse(input: &str) -> (r: Vec<Code>)
    ensures
        rows(r@) == lines(input@),
{
    let text = chars_of(input);
    split_lines(&text)
}

/// What the `i`-th line adds to the sum of the complexities.
pub open spec fn complexity_at(ls: Seq<Seq<char>>, robots: int) -> spec_fn(int) -> int {
    |i: int|
        match complexity(ls[i], robots) {
            Some(c) => c,
            None => 0,
        }
}

/// Whether every line has a complexity.
pub open spec fn all_codes(ls: Seq<Seq<char>>, robots: int) -> bool {
    forall|i: int| 0 <= i < ls.len() ==> complexity(#[trigger] ls[i], robots) is Some
}

/// The sum of the complexities of the codes of a text, one code per line,
/// behind the whole chain of robots. Fails when a code has no digit, or its
/// digits make a number of more than 64 bits.
pub fn solve(input: &str) -> (r: Result<u64, PuzzleError>)
    requires
        sum_below(lines(input@).len() as int, complexity_at(lines(input@), ROBOTS as int))
            <= u64::MAX,
    ensures
        match r {
            Ok(total) => all_codes(lines(input@), ROBOTS as int) && total == sum_below(
                lines(input@).len() as int,
                complexity_at(lines(input@), ROBOTS as int),
            ),
            Err(e) => e == PuzzleError::MalformedInput && !all_codes(lines(input@), ROBOTS as int),
        },
{
    let codes = parse(input);
    let ghost ls = lines(input@);
    let mut total: u64 = 0;
    let mut i: usize = 0;
    assert(rows(codes@).len() == codes.len());
    while i < codes.len()
        invariant
            i <= codes.len(),
            codes.len() == ls.len(),
            rows(codes@) == ls,
            ls == lines(input@),
            sum_below(ls.len() as int, complexity_at(ls, ROBOTS as int)) <= u64::MAX,
            forall|k: int| 0 <= k < i ==> complexity(#[trigger] ls[k], ROBOTS as int) is Some,
            total == sum_below(i as int, complexity_at(ls, ROBOTS as int)),
        decreases codes.len() - i,
    {
        assert(ls[i as int] == codes[i as int]@);
        proof {
            assert forall|k: int| 0 <= k < ls.len() implies 0 <= #[trigger] complexity_at(
                ls,
                ROBOTS as int,
            )(k) by {
                if complexity(ls[k], ROBOTS as int) is Some {
                    assert(pressed(first_keys(ls[k]), ROBOTS as int).len() * number64(
                        digits_of(ls[k]),
                    )->0 >= 0) by (nonlinear_arith)
                        requires
                            pressed(first_keys(ls[k]), ROBOTS as int).len() >= 0,
                            number64(digits_of(ls[k]))->0 >= 0,
                    ;
                }
            }
            lemma_sum_grows(i + 1, ls.len() as int, complexity_at(ls, ROBOTS as int));
            lemma_sum_grows(i as int, i + 1, complexity_at(ls, ROBOTS as int));
        }
        let c = match calculate_complexity(&codes[i]) {
            Ok(c) => c,
            Err(e) => {
                assert(complexity(ls[i as int], ROBOTS as int) is None);
                return Err(e);
            },
        };
        total += c;
        i += 1;
    }
    Ok(total)
}

} // verus!
