//! A city of antennas. Two antennas of the same frequency make antinodes
//! on the line through them, beyond the second antenna, at multiples of
//! their distance.
use vstd::prelude::*;
use crate::counting::{count_below, lemma_count_bound, marks};
use crate::error::PuzzleError;
use crate::grid::{board_of, lemma_cell_index, lemma_index_cell, rectangular, Board, Grid};
use crate::text::{chars_of, lines, rows, split_lines};

verus! {

/// A place in the city: column and row.
pub type Coordinate = (i64, i64);

/// A city: its antennas in reading order, each with its place and its
/// frequency, and its size.
#[derive(Debug, PartialEq, Eq)]
pub struct City {
    pub antenna: Vec<(Coordinate, char)>,
    pub width: usize,
    pub height: usize,
}

/// Whether a place lies in a city of the given size.
pub open spec fn in_city(width: int, height: int, x: int, y: int) -> bool {
    0 <= x < width && 0 <= y < height
}

/// Whether an antenna at a place stands in a city of the given size.
pub open spec fn stands_in(width: int, height: int, place: Coordinate) -> bool {
    in_city(width, height, place.0 as int, place.1 as int)
}

/// The place that lies `k` times the way from antenna `a` to antenna `b`
/// beyond `b`.
pub open spec fn beyond(a: Coordinate, b: Coordinate, k: int) -> (int, int) {
    (b.0 + (b.0 - a.0) * k, b.1 + (b.1 - a.1) * k)
}

/// Whether the place `k` times the way beyond is reached from the two
/// antennas with indices `i` and `j` when the multiples are gone through
/// from `from` up to, not including, `until`, until one falls out of the
/// city: the antennas are two of the same frequency, `k` is among the
/// multiples, and no multiple up to `k` falls out of the city.
pub open spec fn reached(city: City, from: int, until: Option<i64>, i: int, j: int, k: int) -> bool {
    &&& 0 <= i < city.antenna.len()
    &&& 0 <= j < city.antenna.len()
    &&& i != j
    &&& city.antenna[i].1 == city.antenna[j].1
    &&& from <= k
    &&& (until is Some ==> k < until->0)
    &&& forall|m: int|
        from <= m <= k ==> in_city(
            city.width as int,
            city.height as int,
            (#[trigger] beyond(city.antenna[i].0, city.antenna[j].0, m)).0,
            beyond(city.antenna[i].0, city.antenna[j].0, m).1,
        )
}

/// Whether a place is an antinode of the city.
pub open spec fn is_antinode(city: City, from: int, until: Option<i64>, x: int, y: int) -> bool {
    exists|i: int, j: int, k: int| #[trigger]
        reached(city, from, until, i, j, k) && beyond(city.antenna[i].0, city.antenna[j].0, k) == (
            x,
            y,
        )
}

/// Whether the event `(i, j, k)` comes before `(a, b, c)` when pairs of
/// antennas are gone through in order, and for each pair the multiples.
pub open spec fn earlier(i: int, j: int, k: int, a: int, b: int, c: int) -> bool {
    i < a || (i == a && (j < b || (j == b && k < c)))
}

impl City {
    /// The antennas stand in the city, no two of them on the same place,
    /// and the city is small enough for its places to be numbered.
    pub open spec fn wf(&self) -> bool {
        &&& self.width * self.height <= usize::MAX
        &&& self.width <= i64::MAX
        &&& self.height <= i64::MAX
        &&& forall|i: int|
            0 <= i < self.antenna.len() ==> stands_in(
                self.width as int,
                self.height as int,
                (#[trigger] self.antenna[i]).0,
            )
        &&& forall|i: int, j: int|
            0 <= i < self.antenna.len() && 0 <= j < self.antenna.len() && i != j ==> (
            #[trigger] self.antenna[i]).0 != (#[trigger] self.antenna[j]).0
    }
}

/// Whether the marks record the antinodes that are reached before the event `(a, b, c)`.
pub open spec fn recorded(city: City, from: int, until: Option<i64>, seen: Seq<bool>, a: int, b: int, c: int) -> bool {
    &&& seen.len() == city.width * city.height
    &&& forall|x: int, y: int|
        in_city(city.width as int, city.height as int, x, y) && seen[#[trigger] (y * city.width
            + x)] ==> is_antinode(city, from, until, x, y)
    &&& forall|i: int, j: int, k: int|
        #[trigger] reached(city, from, until, i, j, k) && earlier(i, j, k, a, b, c) ==> seen[beyond(
            city.antenna[i].0,
            city.antenna[j].0,
            k,
        ).1 * city.width + beyond(city.antenna[i].0, city.antenna[j].0, k).0]
}

/// The place that lies `k` times the way from one antenna to another
/// beyond the other, if it lies in the city.
fn place_beyond(city: &City, a: Coordinate, b: Coordinate, k: i64) -> (r: Option<(usize, usize)>)
    requires
        city.wf(),
        0 <= a.0 && 0 <= a.1 && 0 <= b.0 && 0 <= b.1,
    ensures
        match r {
            Some((x, y)) => beyond(a, b, k as int) == (x as int, y as int) && in_city(
                city.width as int,
                city.height as int,
                x as int,
                y as int,
            ),
            None => !in_city(
                city.width as int,
                city.height as int,
                beyond(a, b, k as int).0,
                beyond(a, b, k as int).1,
            ),
        },
{
    let dx: i128 = b.0 as i128 - a.0 as i128;
    let dy: i128 = b.1 as i128 - a.1 as i128;
    assert(-0x4000_0000_0000_0000_0000_0000_0000_0000 <= dx * (k as i128)
        <= 0x4000_0000_0000_0000_0000_0000_0000_0000) by (nonlinear_arith)
        requires
            -0x8000_0000_0000_0000 <= dx <= 0x8000_0000_0000_0000,
            -0x8000_0000_0000_0000 <= k <= 0x8000_0000_0000_0000,
    ;
    assert(-0x4000_0000_0000_0000_0000_0000_0000_0000 <= dy * (k as i128)
        <= 0x4000_0000_0000_0000_0000_0000_0000_0000) by (nonlinear_arith)
        requires
            -0x8000_0000_0000_0000 <= dy <= 0x8000_0000_0000_0000,
            -0x8000_0000_0000_0000 <= k <= 0x8000_0000_0000_0000,
    ;
    let x: i128 = b.0 as i128 + dx * (k as i128);
    let y: i128 = b.1 as i128 + dy * (k as i128);
    if 0 <= x && x < city.width as i128 && 0 <= y && y < city.height as i128 {
        Some((x as usize, y as usize))
    } else {
        None
    }
}

/// Marks the antinodes that one antenna makes with another.
fn mark_pair(city: &City, seen: &mut Vec<bool>, i: usize, j: usize, from: i64, until: Option<i64>)
    requires
        city.wf(),
        i < city.antenna.len(),
        j < city.antenna.len(),
        recorded(*city, from as int, until, old(seen)@, i as int, j as int, from as int),
    ensures
        recorded(*city, from as int, until, final(seen)@, i as int, j + 1, from as int),
{
    let a = city.antenna[i].0;
    let b = city.antenna[j].0;
    let same = city.antenna[i].1 == city.antenna[j].1;
    if i == j || !same {
        proof {
            assert forall|i2: int, j2: int, k2: int|
                #[trigger] reached(*city, from as int, until, i2, j2, k2) && earlier(
                    i2,
                    j2,
                    k2,
                    i as int,
                    j + 1,
                    from as int,
                ) implies seen[beyond(city.antenna[i2].0, city.antenna[j2].0, k2).1 * city.width
                + beyond(city.antenna[i2].0, city.antenna[j2].0, k2).0] by {
                assert(earlier(i2, j2, k2, i as int, j as int, from as int));
            }
        }
        return ;
    }
    assert(stands_in(city.width as int, city.height as int, city.antenna[i as int].0));
    assert(stands_in(city.width as int, city.height as int, city.antenna[j as int].0));
    assert(a != b);
    let mut k: i64 = from;
    let ghost w = city.width as int;
    let ghost h = city.height as int;
    loop
        invariant
            city.wf(),
            w == city.width,
            h == city.height,
            i < city.antenna.len(),
            j < city.antenna.len(),
            i != j,
            a == city.antenna[i as int].0,
            b == city.antenna[j as int].0,
            a != b,
            0 <= a.0 && 0 <= a.1 && 0 <= b.0 && 0 <= b.1,
            city.antenna[i as int].1 == city.antenna[j as int].1,
            from <= k,
            until is Some ==> k <= until->0 || from > until->0,
            forall|m: int|
                from <= m < k ==> in_city(w, h, (#[trigger] beyond(a, b, m)).0, beyond(a, b, m).1),
            recorded(*city, from as int, until, seen@, i as int, j as int, k as int),
        ensures
            recorded(*city, from as int, until, seen@, i as int, j + 1, from as int),
        decreases
                if k >= 0 {
                    w + h - k
                } else {
                    w + h + 1
                },
                if k < 0 {
                    -k
                } else {
                    0
                },
    {
        let stop = match until {
            Some(u) => k >= u,
            None => false,
        };
        let spot = if stop {
            None
        } else {
            place_beyond(city, a, b, k)
        };
        match spot {
            None => {
                proof {
                    assert forall|i2: int, j2: int, k2: int|
                        #[trigger] reached(*city, from as int, until, i2, j2, k2) && earlier(
                            i2,
                            j2,
                            k2,
                            i as int,
                            j + 1,
                            from as int,
                        ) implies seen[beyond(city.antenna[i2].0, city.antenna[j2].0, k2).1
                        * city.width + beyond(city.antenna[i2].0, city.antenna[j2].0, k2).0] by {
                        if i2 == i && j2 == j && k2 >= k {
                            assert(in_city(w, h, beyond(a, b, k as int).0, beyond(a, b, k as int).1));
                        } else {
                            assert(earlier(i2, j2, k2, i as int, j as int, k as int));
                        }
                    }
                }
                break ;
            },
            Some((x, y)) => {
                proof {
                    lemma_cell_index(y as int, x as int, h, w);
                    assert(h * w == w * h) by (nonlinear_arith);
                    lemma_stays(a, b, w, h, k as int);
                }
                let ghost before = seen@;
                seen[y * city.width + x] = true;
                proof {
                    assert(reached(*city, from as int, until, i as int, j as int, k as int));
                    assert(is_antinode(*city, from as int, until, x as int, y as int));
                    assert forall|x2: int, y2: int|
                        in_city(w, h, x2, y2) && seen[#[trigger] (y2 * city.width
                            + x2)] implies is_antinode(*city, from as int, until, x2, y2) by {
                        lemma_cell_index(y2, x2, h, w);
                        if y2 * w + x2 != y * w + x {
                            assert(before[y2 * city.width + x2]);
                        }
                    }
                    assert forall|i2: int, j2: int, k2: int|
                        #[trigger] reached(*city, from as int, until, i2, j2, k2) && earlier(
                            i2,
                            j2,
                            k2,
                            i as int,
                            j as int,
                            k + 1,
                        ) implies seen[beyond(city.antenna[i2].0, city.antenna[j2].0, k2).1
                        * city.width + beyond(city.antenna[i2].0, city.antenna[j2].0, k2).0] by {
                        if i2 == i && j2 == j && k2 == k {
                        } else {
                            assert(earlier(i2, j2, k2, i as int, j as int, k as int));
                            let p = beyond(city.antenna[i2].0, city.antenna[j2].0, k2);
                            assert(in_city(w, h, p.0, p.1));
                            lemma_cell_index(p.1, p.0, h, w);
                            assert(before[p.1 * city.width + p.0]);
                        }
                    }
                }
                k += 1;
            },
        }
    }
}

/// A place beyond the second of two different antennas that stand in the
/// city, at a multiple that is not negative, lies in the city only for
/// multiples below the size of the city.
proof fn lemma_stays(a: Coordinate, b: Coordinate, w: int, h: int, k: int)
    requires
        a != b,
        w <= i64::MAX,
        h <= i64::MAX,
        in_city(w, h, a.0 as int, a.1 as int),
        in_city(w, h, b.0 as int, b.1 as int),
        in_city(w, h, beyond(a, b, k).0, beyond(a, b, k).1),
    ensures
        -(w + h) < k < w + h,
        k < i64::MAX,
{
    let dx = b.0 - a.0;
    let dy = b.1 - a.1;
    if dx != 0 {
        assert(-w < k < w) by (nonlinear_arith)
            requires
                dx != 0,
                0 <= b.0 < w,
                0 <= b.0 + dx * k < w,
        ;
    } else {
        assert(-h < k < h) by (nonlinear_arith)
            requires
                dy != 0,
                0 <= b.1 < h,
                0 <= b.1 + dy * k < h,
        ;
    }
}

/// The places of a city that are antinodes: for any two antennas of the
/// same frequency, the places that lie a multiple of the way from the
/// first to the second beyond the second, the multiples being gone through
/// from `from` up to, not including, `until`, or without end, until one
/// falls out of the city. Every antinode is listed once, row after row.
pub fn mark_antinodes(city: &City, from: i64, until: Option<i64>) -> (r: Vec<Coordinate>)
    requires
        city.wf(),
    ensures
        forall|n: int|
            0 <= n < r.len() ==> is_antinode(
                *city,
                from as int,
                until,
                (#[trigger] r[n]).0 as int,
                r[n].1 as int,
            ),
        forall|x: i64, y: i64|
            is_antinode(*city, from as int, until, x as int, y as int) ==> r@.contains((x, y)),
        forall|m: int, n: int| 0 <= m < n < r.len() ==> r[m] != r[n],
        r.len() == count_below(
            (city.width * city.height) as int,
            on_antinode(*city, from as int, until),
        ),
{
    let ghost w = city.width as int;
    let ghost h = city.height as int;
    let cells = city.width * city.height;
    let mut seen: Vec<bool> = Vec::new();
    let mut c: usize = 0;
    while c < cells
        invariant
            c <= cells,
            seen.len() == c,
            forall|k: int| 0 <= k < c ==> !seen[k],
        decreases cells - c,
    {
        seen.push(false);
        c += 1;
    }
    proof {
        assert forall|x: int, y: int|
            in_city(w, h, x, y) && seen[#[trigger] (y * city.width + x)] implies is_antinode(
            *city,
            from as int,
            until,
            x,
            y,
        ) by {
            lemma_cell_index(y, x, h, w);
            assert(h * w == w * h) by (nonlinear_arith);
        }
    }
    let mut i: usize = 0;
    while i < city.antenna.len()
        invariant
            i <= city.antenna.len(),
            city.wf(),
            recorded(*city, from as int, until, seen@, i as int, 0, from as int),
        decreases city.antenna.len() - i,
    {
        let mut j: usize = 0;
        while j < city.antenna.len()
            invariant
                i < city.antenna.len(),
                j <= city.antenna.len(),
                city.wf(),
                recorded(*city, from as int, until, seen@, i as int, j as int, from as int),
            decreases city.antenna.len() - j,
        {
            mark_pair(city, &mut seen, i, j, from, until);
            j += 1;
        }
        proof {
            assert forall|i2: int, j2: int, k2: int|
                #[trigger] reached(*city, from as int, until, i2, j2, k2) && earlier(
                    i2,
                    j2,
                    k2,
                    i + 1,
                    0,
                    from as int,
                ) implies seen[beyond(city.antenna[i2].0, city.antenna[j2].0, k2).1 * city.width
                + beyond(city.antenna[i2].0, city.antenna[j2].0, k2).0] by {
                assert(earlier(i2, j2, k2, i as int, j as int, from as int));
            }
        }
        i += 1;
    }
    proof {
        assert forall|k: int| 0 <= k < cells implies #[trigger] marks(seen@)(k) == on_antinode(
            *city,
            from as int,
            until,
        )(k) by {
            assert(h * w == w * h) by (nonlinear_arith);
            assert(w > 0) by (nonlinear_arith)
                requires
                    0 <= k < w * h,
                    0 <= w,
            ;
            lemma_index_cell(k, h, w);
            let x = k % w;
            let y = k / w;
            if seen[k] {
                assert(seen[y * city.width + x]);
            }
            if is_antinode(*city, from as int, until, x, y) {
                let (i2, j2, k2) = choose|i2: int, j2: int, k2: int| #[trigger]
                    reached(*city, from as int, until, i2, j2, k2) && beyond(
                        city.antenna[i2].0,
                        city.antenna[j2].0,
                        k2,
                    ) == (x, y);
                assert(earlier(i2, j2, k2, city.antenna.len() as int, 0, from as int));
            }
        }
        crate::counting::lemma_count_same(
            cells as int,
            marks(seen@),
            on_antinode(*city, from as int, until),
        );
    }
    let mut out: Vec<Coordinate> = Vec::new();
    let mut k: usize = 0;
    while k < cells
        invariant
            k <= cells,
            cells == w * h,
            w == city.width,
            h == city.height,
            city.wf(),
            seen.len() == cells,
            forall|n: int|
                0 <= n < out.len() ==> 0 <= (#[trigger] out[n]).0 < w && 0 <= out[n].1 < h
                    && out[n].1 * w + out[n].0 < k && seen[out[n].1 * w + out[n].0],
            forall|m: int, n: int|
                0 <= m < n < out.len() ==> (#[trigger] out[m]).1 * w + out[m].0 < (
                #[trigger] out[n]).1 * w + out[n].0,
            forall|c: int|
                0 <= c < k && seen[c] ==> out@.contains(((c % w) as i64, (#[trigger] (c / w)) as i64)),
            out.len() == count_below(k as int, marks(seen@)),
        decreases cells - k,
    {
        proof {
            assert(h * w == w * h) by (nonlinear_arith);
            assert(w > 0) by (nonlinear_arith)
                requires
                    0 <= k < w * h,
                    0 <= w,
            ;
            lemma_index_cell(k as int, h, w);
            lemma_count_bound(k as int, marks(seen@));
        }
        if seen[k] {
            let x = k % city.width;
            let y = k / city.width;
            let ghost before = out@;
            out.push((x as i64, y as i64));
            proof {
                assert(out@[before.len() as int] == (x as i64, y as i64));
                assert forall|c: int| 0 <= c < k + 1 && seen[c] implies out@.contains(
                    ((c % w) as i64, (#[trigger] (c / w)) as i64),
                ) by {
                    if c < k {
                        let p = ((c % w) as i64, (c / w) as i64);
                        assert(before.contains(p));
                        let n = choose|n: int| 0 <= n < before.len() && before[n] == p;
                        assert(out@[n] == p);
                    }
                }
            }
        }
        k += 1;
    }
    proof {
        assert forall|n: int| 0 <= n < out.len() implies is_antinode(
            *city,
            from as int,
            until,
            (#[trigger] out[n]).0 as int,
            out[n].1 as int,
        ) by {
            assert(seen[out[n].1 * city.width + out[n].0]);
        }
        assert forall|x: i64, y: i64|
            is_antinode(*city, from as int, until, x as int, y as int) implies out@.contains(
            (x, y),
        ) by {
            let (i2, j2, k2) = choose|i2: int, j2: int, k2: int| #[trigger]
                reached(*city, from as int, until, i2, j2, k2) && beyond(
                    city.antenna[i2].0,
                    city.antenna[j2].0,
                    k2,
                ) == (x as int, y as int);
            assert(earlier(i2, j2, k2, city.antenna.len() as int, 0, from as int));
            assert(in_city(w, h, x as int, y as int));
            lemma_cell_index(y as int, x as int, h, w);
            assert(h * w == w * h) by (nonlinear_arith);
            let c = y * w + x;
            assert(seen[c]);
            assert(out@.contains(((c % w) as i64, (c / w) as i64)));
        }
        assert forall|m: int, n: int| 0 <= m < n < out.len() implies out[m] != out[n] by {
            assert(out[m].1 * w + out[m].0 < out[n].1 * w + out[n].0);
        }
    }
    out
}

/// The places of the city, by their number row after row, that are antinodes.
pub open spec fn on_antinode(city: City, from: int, until: Option<i64>) -> spec_fn(int) -> bool {
    |c: int| is_antinode(city, from, until, c % (city.width as int), c / (city.width as int))
}

/// The antennas among the first `n` cells of a board, row after row: the
/// cells that hold anything but a dot, each with its column, its row and
/// what it holds.
pub open spec fn antennas(b: Board, n: int) -> Seq<(Coordinate, char)>
    decreases n,
{
    if n <= 0 {
        Seq::empty()
    } else if b.data[n - 1] != '.' {
        antennas(b, n - 1).push(
            ((((n - 1) % b.width) as i64, ((n - 1) / b.width) as i64), b.data[n - 1]),
        )
    } else {
        antennas(b, n - 1)
    }
}

/// The number, counting row after row in a city of width `w`, of the
/// place on which an antenna stands.
pub open spec fn number_of(a: (Coordinate, char), w: int) -> int {
    let place = a.0;
    place.1 * w + place.0
}

/// Whether a rectangle of lines is small enough for its columns and rows
/// to be numbered in 63 bits.
pub open spec fn mappable(ls: Seq<Seq<char>>) -> bool {
    ls.len() <= i64::MAX && ls[0].len() <= i64::MAX
}

impl City {
    /// Reads the map of a city: a dot is an empty place, anything else an
    /// antenna of that frequency. Fails when the lines of the text do not
    /// make a rectangle, or one too large to be numbered in 63 bits.
    pub fn new(input: &str) -> (r: Result<City, PuzzleError>)
        ensures
            match r {
                Ok(city) => {
                    &&& rectangular(lines(input@))
                    &&& mappable(lines(input@))
                    &&& city.wf()
                    &&& city.width == lines(input@)[0].len()
                    &&& city.height == lines(input@).len()
                    &&& city.antenna@ == antennas(
                        board_of(lines(input@)),
                        board_of(lines(input@)).data.len() as int,
                    )
                },
                Err(e) => e == PuzzleError::MalformedInput && !(rectangular(lines(input@))
                    && mappable(lines(input@))),
            },
    {
        let grid = match Grid::new(input) {
            Ok(g) => g,
            Err(e) => {
                return Err(e);
            },
        };
        let ghost ls = lines(input@);
        let ghost b = grid@;
        proof {
            grid.lemma_shows_board(ls);
            assert(ls[0].len() == grid.width);
            assert(grid.width * grid.height == grid.height * grid.width) by (nonlinear_arith);
        }
        if grid.width as u64 > 0x7fff_ffff_ffff_ffffu64 || grid.height as u64
            > 0x7fff_ffff_ffff_ffffu64 {
            return Err(PuzzleError::MalformedInput);
        }
        let w = grid.width;
        let mut antenna: Vec<(Coordinate, char)> = Vec::new();
        let mut k: usize = 0;
        while k < grid.data.len()
            invariant
                k <= grid.data.len(),
                b == grid@,
                grid.wf(),
                w == grid.width,
                grid.width <= i64::MAX,
                grid.height <= i64::MAX,
                grid.data.len() == grid.height * grid.width,
                antenna@ == antennas(b, k as int),
                forall|n: int|
                    0 <= n < antenna.len() ==> stands_in(
                        grid.width as int,
                        grid.height as int,
                        (#[trigger] antenna[n]).0,
                    ) && number_of(antenna[n], w as int) < k,
                forall|m: int, n: int|
                    0 <= m < n < antenna.len() ==> number_of(#[trigger] antenna[m], w as int)
                        < number_of(#[trigger] antenna[n], w as int),
            decreases grid.data.len() - k,
        {
            proof {
                lemma_index_cell(k as int, grid.height as int, grid.width as int);
            }
            let c = grid.data[k];
            if c != '.' {
                antenna.push((((k % w) as i64, (k / w) as i64), c));
            }
            k += 1;
        }
        let city = City { antenna, width: grid.width, height: grid.height };
        proof {
            assert forall|i: int, j: int|
                0 <= i < city.antenna.len() && 0 <= j < city.antenna.len() && i != j implies (
            #[trigger] city.antenna[i]).0 != (#[trigger] city.antenna[j]).0 by {
                if i < j {
                    assert(number_of(city.antenna[i], w as int) < number_of(
                        city.antenna[j],
                        w as int,
                    ));
                } else {
                    assert(number_of(city.antenna[j], w as int) < number_of(
                        city.antenna[i],
                        w as int,
                    ));
                }
            }
        }
        Ok(city)
    }
}

/// Both answers for a city given as text: the number of antinodes at one
/// time the way between two antennas, and the number of antinodes at any
/// multiple of it, the antennas themselves among them.
pub fn solve(input: &str) -> (r: Result<(usize, usize), PuzzleError>)
    ensures
        match r {
            Ok((single, all)) => exists|city: City| #[trigger]
                city.wf() && city.width == lines(input@)[0].len() && city.height == lines(
                    input@,
                ).len() && city.antenna@ == antennas(
                    board_of(lines(input@)),
                    board_of(lines(input@)).data.len() as int,
                ) && single == count_below(
                    (city.width * city.height) as int,
                    on_antinode(city, 1, Some(2i64)),
                ) && all == count_below(
                    (city.width * city.height) as int,
                    on_antinode(city, 0, None),
                ),
            Err(e) => e == PuzzleError::MalformedInput && !(rectangular(lines(input@)) && mappable(
                lines(input@),
            )),
        },
{
    let city = match City::new(input) {
        Ok(c) => c,
        Err(e) => {
            return Err(e);
        },
    };
    let single = mark_antinodes(&city, 1, Some(2)).len();
    let all = mark_antinodes(&city, 0, None).len();
    Ok((single, all))
}

} // verus!
