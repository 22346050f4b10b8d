//! Robots that move in straight lines over a floor whose edges wrap round.
use vstd::prelude::*;
use crate::adaptors::{counts, listed, occurrences};
use crate::counting::{count_below, lemma_count_bound, lemma_count_zero};
use crate::error::PuzzleError;
use crate::text::{
    chars_of, copy_range, find_char, find_from, integer64, lines, parse_i64, rows, split_lines,
};

verus! {

/// The width of the floor.
pub const WIDTH: i64 = 101;

/// The height of the floor.
pub const HEIGHT: i64 = 103;

/// The number of seconds after which the robots are counted.
pub const SECONDS: usize = 100;

/// A place on the floor.
#[derive(Debug, Clone, Copy, PartialEq, Eq, Hash, Structural)]
pub struct Position {
    pub x: i64,
    pub y: i64,
}

/// What a robot moves by in a second.
#[derive(Debug, Clone, Copy, PartialEq, Eq, Hash, Structural)]
pub struct Velocity {
    pub x: i64,
    pub y: i64,
}

/// A robot: where it is, and how it moves.
#[derive(Debug, Clone, Copy, PartialEq, Eq, Hash, Structural)]
pub struct Robot {
    pub pos: Position,
    pub vel: Velocity,
}

/// The remainder of `value` that lies from zero up to, not including, `size`.
pub open spec fn wrap_of(value: int, size: int) -> int {
    value % size
}

/// A position brought back onto a floor of the given size.
pub open spec fn wrapped(p: Position, width: int, height: int) -> Position {
    Position { x: wrap_of(p.x as int, width) as i64, y: wrap_of(p.y as int, height) as i64 }
}

/// Where a robot is a second later on a floor of the given size.
pub open spec fn moved(r: Robot, width: int, height: int) -> Robot {
    Robot {
        pos: Position {
            x: wrap_of(r.pos.x + r.vel.x, width) as i64,
            y: wrap_of(r.pos.y + r.vel.y, height) as i64,
        },
        vel: r.vel,
    }
}

/// Where a robot is `n` seconds later.
pub open spec fn moved_by(r: Robot, n: int, width: int, height: int) -> Robot
    decreases n,
{
    if n <= 0 {
        r
    } else {
        moved(moved_by(r, n - 1, width, height), width, height)
    }
}

/// The quarter of the floor in which a robot is: 0 top left, 1 top right,
/// 2 bottom left, 3 bottom right, and 4 for a robot on one of the two
/// middle lines.
pub open spec fn quarter(r: Robot, width: int, height: int) -> int {
    if r.pos.x < width / 2 && r.pos.y < height / 2 {
        0
    } else if r.pos.x > width / 2 && r.pos.y < height / 2 {
        1
    } else if r.pos.x < width / 2 && r.pos.y > height / 2 {
        2
    } else if r.pos.x > width / 2 && r.pos.y > height / 2 {
        3
    } else {
        4
    }
}

impl Position {
    /// Brings the position back onto the floor.
    pub fn apply_restrictions(&mut self)
        ensures
            *final(self) == wrapped(*old(self), WIDTH as int, HEIGHT as int),
            0 <= final(self).x < WIDTH,
            0 <= final(self).y < HEIGHT,
    {
        self.x = wrap_wide(self.x as i128, WIDTH);
        self.y = wrap_wide(self.y as i128, HEIGHT);
    }

    /// The eight positions round this one, row after row.
    pub fn get_neighbors(&self) -> (r: Vec<Position>)
        requires
            i64::MIN < self.x < i64::MAX,
            i64::MIN < self.y < i64::MAX,
        ensures
            r@ == seq![
                Position { x: (self.x - 1) as i64, y: (self.y - 1) as i64 },
                Position { x: self.x, y: (self.y - 1) as i64 },
                Position { x: (self.x + 1) as i64, y: (self.y - 1) as i64 },
                Position { x: (self.x - 1) as i64, y: self.y },
                Position { x: (self.x + 1) as i64, y: self.y },
                Position { x: (self.x - 1) as i64, y: (self.y + 1) as i64 },
                Position { x: self.x, y: (self.y + 1) as i64 },
                Position { x: (self.x + 1) as i64, y: (self.y + 1) as i64 },
            ],
    {
        let mut out: Vec<Position> = Vec::new();
        out.push(Position { x: self.x - 1, y: self.y - 1 });
        out.push(Position { x: self.x, y: self.y - 1 });
        out.push(Position { x: self.x + 1, y: self.y - 1 });
        out.push(Position { x: self.x - 1, y: self.y });
        out.push(Position { x: self.x + 1, y: self.y });
        out.push(Position { x: self.x - 1, y: self.y + 1 });
        out.push(Position { x: self.x, y: self.y + 1 });
        out.push(Position { x: self.x + 1, y: self.y + 1 });
        assert(out@ =~= seq![
            Position { x: (self.x - 1) as i64, y: (self.y - 1) as i64 },
            Position { x: self.x, y: (self.y - 1) as i64 },
            Position { x: (self.x + 1) as i64, y: (self.y - 1) as i64 },
            Position { x: (self.x - 1) as i64, y: self.y },
            Position { x: (self.x + 1) as i64, y: self.y },
            Position { x: (self.x - 1) as i64, y: (self.y + 1) as i64 },
            Position { x: self.x, y: (self.y + 1) as i64 },
            Position { x: (self.x + 1) as i64, y: (self.y + 1) as i64 },
        ]);
        out
    }
}

impl Robot {
    /// Moves the robot by one second on a floor of the given size.
    pub fn move_in(&mut self, width: i64, height: i64)
        requires
            width > 0,
            height > 0,
        ensures
            *final(self) == moved(*old(self), width as int, height as int),
            0 <= final(self).pos.x < width,
            0 <= final(self).pos.y < height,
    {
        let x: i128 = self.pos.x as i128 + self.vel.x as i128;
        let y: i128 = self.pos.y as i128 + self.vel.y as i128;
        self.pos.x = wrap_wide(x, width);
        self.pos.y = wrap_wide(y, height);
    }

    /// Moves the robot by one second.
    pub fn move_it(&mut self)
        ensures
            *final(self) == moved(*old(self), WIDTH as int, HEIGHT as int),
    {
        self.move_in(WIDTH, HEIGHT);
    }

    /// The quarter in which the robot is on a floor of the given size.
    pub fn quadrant_in(&self, width: i64, height: i64) -> (r: usize)
        requires
            width > 0,
            height > 0,
        ensures
            r == quarter(*self, width as int, height as int),
            r <= 4,
    {
        if self.pos.x < width / 2 && self.pos.y < height / 2 {
            return 0;
        }
        if self.pos.x > width / 2 && self.pos.y < height / 2 {
            return 1;
        }
        if self.pos.x < width / 2 && self.pos.y > height / 2 {
            return 2;
        }
        if self.pos.x > width / 2 && self.pos.y > height / 2 {
            return 3;
        }
        4
    }

    /// The quarter in which the robot is.
    pub fn quadrant(&self) -> (r: usize)
        ensures
            r == quarter(*self, WIDTH as int, HEIGHT as int),
    {
        self.quadrant_in(WIDTH, HEIGHT)
    }
}

/// A sum of two 64-bit numbers brought into the range from zero up to, not
/// including, `size`.
fn wrap_wide(value: i128, size: i64) -> (r: i64)
    requires
        size > 0,
        -0x1_0000_0000_0000_0000 <= value <= 0x1_0000_0000_0000_0000,
    ensures
        r == wrap_of(value as int, size as int),
        0 <= r < size,
{
    let mut v: i128 = value;
    let s: i128 = size as i128;
    while v < 0
        invariant
            s == size,
            s > 0,
            wrap_of(v as int, s as int) == wrap_of(value as int, size as int),
            -0x1_0000_0000_0000_0000 <= v <= 0x1_0000_0000_0000_0000,
        decreases (if v < 0 {
            -v
        } else {
            0
        }),
    {
        proof {
            vstd::arithmetic::div_mod::lemma_mod_add_multiples_vanish(v as int, s as int);
        }
        v += s;
    }
    while v >= s
        invariant
            s == size,
            s > 0,
            wrap_of(v as int, s as int) == wrap_of(value as int, size as int),
            0 <= v <= 0x1_0000_0000_0000_0000,
        decreases v,
    {
        proof {
            vstd::arithmetic::div_mod::lemma_mod_sub_multiples_vanish(v as int, s as int);
        }
        v -= s;
    }
    proof {
        vstd::arithmetic::div_mod::lemma_small_mod(v as nat, s as nat);
    }
    v as i64
}

/// Whether the robots `after` are the robots `before`, each `n` seconds later.
pub open spec fn all_moved(before: Seq<Robot>, after: Seq<Robot>, n: int, width: int, height: int) -> bool {
    &&& after.len() == before.len()
    &&& forall|i: int|
        0 <= i < before.len() ==> #[trigger] after[i] == moved_by(before[i], n, width, height)
}

/// Moves every robot by `freq` seconds on a floor of the given size.
pub fn move_robots_in(robots: &mut Vec<Robot>, freq: usize, width: i64, height: i64)
    requires
        width > 0,
        height > 0,
    ensures
        all_moved(old(robots)@, final(robots)@, freq as int, width as int, height as int),
{
    let ghost start = robots@;
    let mut i: usize = 0;
    while i < robots.len()
        invariant
            i <= robots.len(),
            width > 0,
            height > 0,
            robots.len() == start.len(),
            forall|k: int|
                0 <= k < i ==> #[trigger] robots[k] == moved_by(
                    start[k],
                    freq as int,
                    width as int,
                    height as int,
                ),
            forall|k: int| i <= k < robots.len() ==> #[trigger] robots[k] == start[k],
        decreases robots.len() - i,
    {
        let mut robot = robots[i];
        let mut n: usize = 0;
        while n < freq
            invariant
                n <= freq,
                width > 0,
                height > 0,
                i < start.len(),
                robot == moved_by(start[i as int], n as int, width as int, height as int),
            decreases freq - n,
        {
            robot.move_in(width, height);
            n += 1;
        }
        robots[i] = robot;
        i += 1;
    }
}

/// Moves every robot by `freq` seconds.
pub fn move_robots(robots: &mut Vec<Robot>, freq: usize)
    ensures
        all_moved(old(robots)@, final(robots)@, freq as int, WIDTH as int, HEIGHT as int),
{
    move_robots_in(robots, freq, WIDTH, HEIGHT);
}

/// The robots that are in a quarter.
pub open spec fn in_quarter(robots: Seq<Robot>, q: int, width: int, height: int) -> spec_fn(
    int,
) -> bool {
    |i: int| quarter(robots[i], width, height) == q
}

/// The number of robots in a quarter, or one if the quarter is empty.
pub open spec fn factor(robots: Seq<Robot>, q: int, width: int, height: int) -> int {
    let n = count_below(robots.len() as int, in_quarter(robots, q, width, height));
    if n == 0 {
        1
    } else {
        n as int
    }
}

/// The safety factor: the numbers of robots in the four quarters, as far
/// as a quarter has any, multiplied. Robots on the middle lines do not count.
pub open spec fn safety(robots: Seq<Robot>, width: int, height: int) -> int {
    factor(robots, 0, width, height) * factor(robots, 1, width, height) * factor(
        robots,
        2,
        width,
        height,
    ) * factor(robots, 3, width, height)
}

/// The count that a list of counts holds for a key, or one if it holds none.
fn count_or_one(list: &Vec<(usize, usize)>, key: usize, Ghost(values): Ghost<Seq<usize>>) -> (r: usize)
    requires
        forall|i: int|
            0 <= i < list.len() ==> (#[trigger] list[i]).1 == occurrences(values, list[i].0)
                && list[i].1 >= 1,
        forall|k: int| 0 <= k < values.len() ==> listed(list@, #[trigger] values[k]),
    ensures
        r == if occurrences(values, key) == 0 {
            1
        } else {
            occurrences(values, key)
        },
{
    let mut i: usize = 0;
    while i < list.len()
        invariant
            i <= list.len(),
            forall|i: int|
                0 <= i < list.len() ==> (#[trigger] list[i]).1 == occurrences(values, list[i].0)
                    && list[i].1 >= 1,
            forall|j: int| 0 <= j < i ==> (#[trigger] list[j]).0 != key,
        decreases list.len() - i,
    {
        if list[i].0 == key {
            assert(list[i as int].1 == occurrences(values, list[i as int].0));
            return list[i].1;
        }
        i += 1;
    }
    proof {
        lemma_count_zero(values.len() as int, crate::adaptors::holds_key(values, key));
        assert forall|k: int| 0 <= k < values.len() implies !#[trigger] crate::adaptors::holds_key(
            values,
            key,
        )(k) by {
            assert(listed(list@, values[k]));
            let j = choose|j: int| 0 <= j < list.len() && (#[trigger] list[j]).0 == values[k];
        }
    }
    1
}

/// The safety factor of robots on a floor of the given size.
pub fn count_quadrants_in(robots: &Vec<Robot>, width: i64, height: i64) -> (r: usize)
    requires
        width > 0,
        height > 0,
        safety(robots@, width as int, height as int) <= usize::MAX,
    ensures
        r == safety(robots@, width as int, height as int),
{
    let mut quarters: Vec<usize> = Vec::new();
    let mut i: usize = 0;
    while i < robots.len()
        invariant
            i <= robots.len(),
            width > 0,
            height > 0,
            quarters.len() == i,
            forall|k: int|
                0 <= k < i ==> #[trigger] quarters[k] == quarter(
                    robots[k],
                    width as int,
                    height as int,
                ),
        decreases robots.len() - i,
    {
        quarters.push(robots[i].quadrant_in(width, height));
        i += 1;
    }
    let list = counts(&quarters);
    let a = count_or_one(&list, 0, Ghost(quarters@));
    let b = count_or_one(&list, 1, Ghost(quarters@));
    let c = count_or_one(&list, 2, Ghost(quarters@));
    let d = count_or_one(&list, 3, Ghost(quarters@));
    proof {
        let w = width as int;
        let h = height as int;
        assert forall|q: usize| q < 4 implies occurrences(quarters@, q) == count_below(
            robots.len() as int,
            in_quarter(robots@, q as int, w, h),
        ) by {
            crate::counting::lemma_count_same(
                robots.len() as int,
                crate::adaptors::holds_key(quarters@, q),
                in_quarter(robots@, q as int, w, h),
            );
        }
        assert(a == factor(robots@, 0, w, h));
        assert(b == factor(robots@, 1, w, h));
        assert(c == factor(robots@, 2, w, h));
        assert(d == factor(robots@, 3, w, h));
        assert(a * b <= a * b * c * d && a * b * c <= a * b * c * d) by (nonlinear_arith)
            requires
                a >= 1,
                b >= 1,
                c >= 1,
                d >= 1,
        ;
    }
    a * b * c * d
}

/// The safety factor of robots.
pub fn count_quadrants(robots: &Vec<Robot>) -> (r: usize)
    requires
        safety(robots@, WIDTH as int, HEIGHT as int) <= usize::MAX,
    ensures
        r == safety(robots@, WIDTH as int, HEIGHT as int),
{
    count_quadrants_in(robots, WIDTH, HEIGHT)
}

/// The two numbers of a text such as `p=0,4`: the tag, an equals sign, and
/// two numbers with a comma between them.
pub open spec fn pair_of(s: Seq<char>, tag: char) -> Option<(i64, i64)> {
    let rest = s.skip(2);
    let comma = find_char(rest, ',', 0);
    if s.len() >= 2 && s[0] == tag && s[1] == '=' && comma < rest.len() && integer64(
        rest.take(comma),
    ) is Some && integer64(rest.skip(comma + 1)) is Some {
        Some((integer64(rest.take(comma)).unwrap(), integer64(rest.skip(comma + 1)).unwrap()))
    } else {
        None
    }
}

/// The robot that a line such as `p=0,4 v=3,-3` describes.
pub open spec fn robot_of(line: Seq<char>) -> Option<Robot> {
    let space = find_char(line, ' ', 0);
    if space < line.len() && pair_of(line.take(space), 'p') is Some && pair_of(
        line.skip(space + 1),
        'v',
    ) is Some {
        let p = pair_of(line.take(space), 'p').unwrap();
        let v = pair_of(line.skip(space + 1), 'v').unwrap();
        Some(Robot { pos: Position { x: p.0, y: p.1 }, vel: Velocity { x: v.0, y: v.1 } })
    } else {
        None
    }
}

/// Whether every line of a text describes a robot.
pub open spec fn well_formed(text: Seq<char>) -> bool {
    forall|i: int| 0 <= i < lines(text).len() ==> robot_of(#[trigger] lines(text)[i]) is Some
}

/// The robots that the lines of a text describe.
pub open spec fn robots_of(text: Seq<char>) -> Seq<Robot> {
    Seq::new(lines(text).len(), |i: int| robot_of(lines(text)[i]).unwrap())
}

/// Reads a tagged pair of numbers.
fn parse_pair(s: &Vec<char>, tag: char) -> (r: Option<(i64, i64)>)
    ensures
        r == pair_of(s@, tag),
{
    if s.len() < 2 || s[0] != tag || s[1] != '=' {
        return None;
    }
    let rest = copy_range(s, 2, s.len());
    assert(rest@ =~= s@.skip(2));
    let comma = find_from(&rest, ',', 0);
    if comma >= rest.len() {
        return None;
    }
    let first = copy_range(&rest, 0, comma);
    let second = copy_range(&rest, comma + 1, rest.len());
    assert(first@ =~= rest@.take(comma as int));
    assert(second@ =~= rest@.skip(comma + 1));
    match (parse_i64(&first), parse_i64(&second)) {
        (Some(a), Some(b)) => Some((a, b)),
        _ => None,
    }
}

/// Reads the robot that a line describes.
fn parse_robot(line: &Vec<char>) -> (r: Option<Robot>)
    ensures
        r == robot_of(line@),
{
    let space = find_from(line, ' ', 0);
    if space >= line.len() {
        return None;
    }
    let left = copy_range(line, 0, space);
    let right = copy_range(line, space + 1, line.len());
    assert(left@ =~= line@.take(space as int));
    assert(right@ =~= line@.skip(space + 1));
    match (parse_pair(&left, 'p'), parse_pair(&right, 'v')) {
        (Some(p), Some(v)) => Some(
            Robot { pos: Position { x: p.0, y: p.1 }, vel: Velocity { x: v.0, y: v.1 } },
        ),
        _ => None,
    }
}

/// Reads one robot per line, each as its position and its velocity:
/// `p=0,4 v=3,-3`. Fails when a line is not of that form.
pub fn parse(input: &str) -> (r: Result<Vec<Robot>, PuzzleError>)
    ensures
        match r {
            Ok(robots) => well_formed(input@) && robots@ == robots_of(input@),
            Err(e) => e == PuzzleError::MalformedInput && !well_formed(input@),
        },
{
    let text = chars_of(input);
    let all = split_lines(&text);
    let mut out: Vec<Robot> = Vec::new();
    let mut i: usize = 0;
    while i < all.len()
        invariant
            i <= all.len(),
            rows(all@) == lines(input@),
            out.len() == i,
            forall|k: int| 0 <= k < i ==> robot_of(#[trigger] lines(input@)[k]) == Some(out[k]),
        decreases all.len() - i,
    {
        assert(lines(input@)[i as int] == all[i as int]@);
        match parse_robot(&all[i]) {
            Some(robot) => {
                out.push(robot);
            },
            None => {
                return Err(PuzzleError::MalformedInput);
            },
        }
        i += 1;
    }
    assert(out@ =~= robots_of(input@));
    Ok(out)
}

/// Whether a robot stands on a place.
pub open spec fn occupied(robots: Seq<Robot>, x: int, y: int) -> bool {
    exists|j: int| 0 <= j < robots.len() && (#[trigger] robots[j]).pos.x == x && robots[j].pos.y == y
}

/// One for a hit, nothing for a miss.
pub open spec fn one_if(hit: bool) -> int {
    if hit {
        1
    } else {
        0
    }
}

/// The number of the eight places round a place on which a robot stands.
pub open spec fn company(robots: Seq<Robot>, x: int, y: int) -> int {
    one_if(occupied(robots, x - 1, y - 1)) + one_if(occupied(robots, x, y - 1)) + one_if(
        occupied(robots, x + 1, y - 1),
    ) + one_if(occupied(robots, x - 1, y)) + one_if(occupied(robots, x + 1, y)) + one_if(
        occupied(robots, x - 1, y + 1),
    ) + one_if(occupied(robots, x, y + 1)) + one_if(occupied(robots, x + 1, y + 1))
}

/// Whether no robot before the `i`-th stands where the `i`-th stands.
pub open spec fn first_there(robots: Seq<Robot>) -> spec_fn(int) -> bool {
    |i: int| forall|j: int| 0 <= j < i ==> (#[trigger] robots[j]).pos != robots[i].pos
}

/// Whether the `i`-th robot is the first on its place and has robots on at
/// least two of the eight places round it.
pub open spec fn in_company(robots: Seq<Robot>) -> spec_fn(int) -> bool {
    |i: int|
        first_there(robots)(i) && company(robots, robots[i].pos.x as int, robots[i].pos.y as int)
            >= 2
}

/// Whether the robots form a picture: of the places on which robots stand,
/// at least three in five have robots on two or more of the eight places
/// round them.
pub open spec fn picture(robots: Seq<Robot>) -> bool {
    let places = count_below(robots.len() as int, first_there(robots));
    let touching = count_below(robots.len() as int, in_company(robots));
    places > 0 && 5 * touching >= 3 * places
}

/// Whether a robot stands on a place.
fn stands_on(robots: &Vec<Robot>, x: i128, y: i128) -> (r: bool)
    ensures
        r == occupied(robots@, x as int, y as int),
{
    let mut j: usize = 0;
    while j < robots.len()
        invariant
            j <= robots.len(),
            forall|k: int|
                0 <= k < j ==> !((#[trigger] robots[k]).pos.x == x && robots[k].pos.y == y),
        decreases robots.len() - j,
    {
        if robots[j].pos.x as i128 == x && robots[j].pos.y as i128 == y {
            return true;
        }
        j += 1;
    }
    false
}

/// One for a robot on a place, nothing for none.
fn one_for(robots: &Vec<Robot>, x: i128, y: i128) -> (r: usize)
    ensures
        r == one_if(occupied(robots@, x as int, y as int)),
{
    if stands_on(robots, x, y) {
        1
    } else {
        0
    }
}

/// Whether the robots form a picture: of the places on which robots stand,
/// at least three in five have robots on two or more of the eight places
/// round them.
pub fn is_christmas_tree(robots: &Vec<Robot>) -> (r: bool)
    requires
        5 * robots.len() <= usize::MAX,
    ensures
        r == picture(robots@),
{
    let mut places: usize = 0;
    let mut touching: usize = 0;
    let mut i: usize = 0;
    while i < robots.len()
        invariant
            i <= robots.len(),
            places == count_below(i as int, first_there(robots@)),
            touching == count_below(i as int, in_company(robots@)),
            places <= i,
            touching <= i,
        decreases robots.len() - i,
    {
        let here = robots[i].pos;
        let mut first = true;
        let mut j: usize = 0;
        while j < i
            invariant
                j <= i < robots.len(),
                here == robots[i as int].pos,
                first == forall|k: int| 0 <= k < j ==> (#[trigger] robots[k]).pos != here,
            decreases i - j,
        {
            if robots[j].pos.x == here.x && robots[j].pos.y == here.y {
                first = false;
            }
            j += 1;
        }
        if first {
            places += 1;
            let x = here.x as i128;
            let y = here.y as i128;
            let round = one_for(robots, x - 1, y - 1) + one_for(robots, x, y - 1) + one_for(
                robots,
                x + 1,
                y - 1,
            ) + one_for(robots, x - 1, y) + one_for(robots, x + 1, y) + one_for(
                robots,
                x - 1,
                y + 1,
            ) + one_for(robots, x, y + 1) + one_for(robots, x + 1, y + 1);
            if round >= 2 {
                touching += 1;
            }
        }
        i += 1;
    }
    places > 0 && 5 * touching >= 3 * places
}

/// The robots of a list, each `n` seconds later.
pub open spec fn later(robots: Seq<Robot>, n: int) -> Seq<Robot> {
    Seq::new(robots.len(), |i: int| moved_by(robots[i], n, WIDTH as int, HEIGHT as int))
}

/// The number of seconds after which the places of the robots repeat.
pub const PERIOD: usize = 10403;

/// Moves the robots second by second until they form a picture, and tells
/// after how many seconds they do. `None`, with the robots moved all the
/// same, when they form none within the time after which their places repeat.
pub fn form_christmas_tree(robots: &mut Vec<Robot>) -> (r: Option<usize>)
    requires
        5 * old(robots).len() <= usize::MAX,
    ensures
        match r {
            Some(n) => {
                &&& n <= PERIOD
                &&& picture(later(old(robots)@, n as int))
                &&& forall|k: int| 0 <= k < n ==> !picture(#[trigger] later(old(robots)@, k))
                &&& final(robots)@ == later(old(robots)@, n as int)
            },
            None => forall|k: int| 0 <= k <= PERIOD ==> !picture(#[trigger] later(old(robots)@, k)),
        },
{
    let ghost start = robots@;
    let mut ctr: usize = 0;
    assert(robots@ =~= later(start, 0));
    loop
        invariant
            ctr <= PERIOD,
            start == old(robots)@,
            5 * robots.len() <= usize::MAX,
            robots@ == later(start, ctr as int),
            forall|k: int| 0 <= k < ctr ==> !picture(#[trigger] later(start, k)),
        decreases PERIOD - ctr,
    {
        if is_christmas_tree(robots) {
            return Some(ctr);
        }
        if ctr == PERIOD {
            return None;
        }
        let ghost before = robots@;
        move_robots(robots, 1);
        proof {
            assert forall|i: int| 0 <= i < start.len() implies robots@[i] == moved_by(
                start[i],
                ctr + 1,
                WIDTH as int,
                HEIGHT as int,
            ) by {
                assert(robots@[i] == moved_by(before[i], 1, WIDTH as int, HEIGHT as int));
                assert(before[i] == moved_by(start[i], ctr as int, WIDTH as int, HEIGHT as int));
                assert(moved_by(before[i], 0, WIDTH as int, HEIGHT as int) == before[i]);
            }
            assert(robots@ =~= later(start, ctr + 1));
        }
        ctr += 1;
    }
}

/// A copy of a list of robots.
fn copy_of(robots: &Vec<Robot>) -> (r: Vec<Robot>)
    ensures
        r@ == robots@,
{
    let mut out: Vec<Robot> = Vec::new();
    let mut i: usize = 0;
    while i < robots.len()
        invariant
            i <= robots.len(),
            out@ == robots@.take(i as int),
        decreases robots.len() - i,
    {
        out.push(robots[i]);
        i += 1;
        assert(out@ =~= robots@.take(i as int));
    }
    assert(robots@.take(robots.len() as int) =~= robots@);
    out
}

/// The safety factor of the robots after a hundred seconds.
pub fn solve_1(robots: &Vec<Robot>) -> (r: usize)
    requires
        safety(later(robots@, SECONDS as int), WIDTH as int, HEIGHT as int) <= usize::MAX,
    ensures
        r == safety(later(robots@, SECONDS as int), WIDTH as int, HEIGHT as int),
{
    let mut moving = copy_of(robots);
    move_robots(&mut moving, SECONDS);
    assert(moving@ =~= later(robots@, SECONDS as int));
    count_quadrants(&moving)
}

/// The number of seconds after which the robots form a picture for the
/// first time; `None` when they form none before their places repeat.
pub fn solve_2(robots: &Vec<Robot>) -> (r: Option<usize>)
    requires
        5 * robots.len() <= usize::MAX,
    ensures
        match r {
            Some(n) => {
                &&& n <= PERIOD
                &&& picture(later(robots@, n as int))
                &&& forall|k: int| 0 <= k < n ==> !picture(#[trigger] later(robots@, k))
            },
            None => forall|k: int| 0 <= k <= PERIOD ==> !picture(#[trigger] later(robots@, k)),
        },
{
    let mut moving = copy_of(robots);
    form_christmas_tree(&mut moving)
}

/// Both answers for robots given as text: the safety factor after a
/// hundred seconds, and the number of seconds after which the robots form
/// a picture.
pub fn solve(input: &str) -> (r: Result<(usize, Option<usize>), PuzzleError>)
    requires
        5 * lines(input@).len() <= usize::MAX,
        safety(later(robots_of(input@), SECONDS as int), WIDTH as int, HEIGHT as int)
            <= usize::MAX,
    ensures
        match r {
            Ok((factor, seconds)) => {
                &&& well_formed(input@)
                &&& factor == safety(
                    later(robots_of(input@), SECONDS as int),
                    WIDTH as int,
                    HEIGHT as int,
                )
                &&& match seconds {
                    Some(n) => {
                        &&& n <= PERIOD
                        &&& picture(later(robots_of(input@), n as int))
                        &&& forall|k: int|
                            0 <= k < n ==> !picture(#[trigger] later(robots_of(input@), k))
                    },
                    None => forall|k: int|
                        0 <= k <= PERIOD ==> !picture(#[trigger] later(robots_of(input@), k)),
                }
            },
            Err(e) => e == PuzzleError::MalformedInput && !well_formed(input@),
        },
{
    let robots = match parse(input) {
        Ok(r) => r,
        Err(e) => {
            return Err(e);
        },
    };
    let factor = solve_1(&robots);
    let seconds = solve_2(&robots);
    Ok((factor, seconds))
}

} // verus!
