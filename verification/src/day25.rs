//! Schematics of locks and keys, five columns of pins each: which key
//! fits which lock without its pins running into those of the lock.
use vstd::prelude::*;
use crate::counting::{count_below, lemma_count_bound, sum_below};
use crate::error::PuzzleError;
use crate::text::{chars_of, lines, parts, rows, split_lines, split_pattern};

verus! {

/// The number of columns of a schematic.
pub const COLUMNS: usize = 5;

/// The height above which the pins of a key and a lock run into each other.
pub const SPACE: usize = 8;

/// The heights of the columns of a schematic whose top row is filled.
#[derive(Debug, PartialEq, Eq)]
pub struct Key(pub Vec<usize>);

/// The heights of the columns of a schematic whose top row is not filled.
#[derive(Debug, PartialEq, Eq)]
pub struct Lock(pub Vec<usize>);

/// The rows of a schematic that have a pin in a column.
pub open spec fn pinned(schematic: Seq<Seq<char>>, col: int) -> spec_fn(int) -> bool {
    |i: int| schematic[i][col] == '#'
}

/// The heights of the five columns of a schematic: for each column, the
/// number of rows that have a pin in it.
pub open spec fn heights(schematic: Seq<Seq<char>>) -> Seq<usize> {
    Seq::new(
        COLUMNS as nat,
        |col: int| count_below(schematic.len() as int, pinned(schematic, col)) as usize,
    )
}

/// Whether every row of a schematic has five columns at least.
pub open spec fn wide_enough(schematic: Seq<Seq<char>>) -> bool {
    forall|i: int| 0 <= i < schematic.len() ==> (#[trigger] schematic[i]).len() >= COLUMNS
}

/// Whether the top row of a schematic is five pins and nothing more.
pub open spec fn filled_on_top(schematic: Seq<Seq<char>>) -> bool {
    schematic[0] == seq!['#', '#', '#', '#', '#']
}

/// The rows of a schematic.
pub open spec fn drawn(schematic: Seq<Vec<char>>) -> Seq<Seq<char>> {
    schematic.map_values(|r: Vec<char>| r@)
}

/// The heights of the columns of a schematic.
pub fn count_things(schematic: &Vec<Vec<char>>) -> (r: Vec<usize>)
    requires
        wide_enough(drawn(schematic@)),
    ensures
        r@ == heights(drawn(schematic@)),
{
    let ghost rows_of = drawn(schematic@);
    let mut out: Vec<usize> = Vec::new();
    let mut col: usize = 0;
    while col < COLUMNS
        invariant
            col <= COLUMNS,
            rows_of == drawn(schematic@),
            wide_enough(rows_of),
            out.len() == col,
            forall|c: int| 0 <= c < col ==> #[trigger] out[c] == heights(rows_of)[c],
        decreases COLUMNS - col,
    {
        let mut count: usize = 0;
        let mut i: usize = 0;
        while i < schematic.len()
            invariant
                i <= schematic.len(),
                col < COLUMNS,
                rows_of == drawn(schematic@),
                wide_enough(rows_of),
                count == count_below(i as int, pinned(rows_of, col as int)),
            decreases schematic.len() - i,
        {
            proof {
                lemma_count_bound(i as int, pinned(rows_of, col as int));
                assert(rows_of[i as int] == schematic[i as int]@);
            }
            if schematic[i][col] == '#' {
                count += 1;
            }
            i += 1;
        }
        proof {
            lemma_count_bound(schematic.len() as int, pinned(rows_of, col as int));
        }
        out.push(count);
        col += 1;
    }
    assert(out@ =~= heights(rows_of));
    out
}

/// Whether a row is five pins and nothing more.
fn is_filled(row: &Vec<char>) -> (r: bool)
    ensures
        r == (row@ == seq!['#', '#', '#', '#', '#']),
{
    if row.len() == 5 && row[0] == '#' && row[1] == '#' && row[2] == '#' && row[3] == '#' && row[4]
        == '#' {
        assert(row@ =~= seq!['#', '#', '#', '#', '#']);
        true
    } else {
        proof {
            let full = seq!['#', '#', '#', '#', '#'];
            assert(full.len() == 5 && full[0] == '#' && full[1] == '#' && full[2] == '#' && full[3]
                == '#' && full[4] == '#');
        }
        false
    }
}

/// Whether every schematic has a row, and rows of five columns at least.
pub open spec fn all_drawn(schematics: Seq<Seq<Seq<char>>>) -> bool {
    forall|i: int|
        0 <= i < schematics.len() ==> (#[trigger] schematics[i]).len() >= 1 && wide_enough(
            schematics[i],
        )
}

/// The heights of the schematics among the first `n` whose top row is
/// filled (`keys` true) or is not (`keys` false), in their order.
pub open spec fn sorted_out(schematics: Seq<Seq<Seq<char>>>, keys: bool, n: int) -> Seq<Seq<usize>>
    decreases n,
{
    if n <= 0 {
        Seq::empty()
    } else if filled_on_top(schematics[n - 1]) == keys {
        sorted_out(schematics, keys, n - 1).push(heights(schematics[n - 1]))
    } else {
        sorted_out(schematics, keys, n - 1)
    }
}

/// No more schematics are sorted out than there are.
pub proof fn lemma_sorted_out_len(schematics: Seq<Seq<Seq<char>>>, keys: bool, n: int)
    requires
        0 <= n,
    ensures
        sorted_out(schematics, keys, n).len() <= n,
    decreases n,
{
    if n > 0 {
        lemma_sorted_out_len(schematics, keys, n - 1);
    }
}

/// The rows of a list of schematics.
pub open spec fn all_rows(schematics: Seq<Vec<Vec<char>>>) -> Seq<Seq<Seq<char>>> {
    schematics.map_values(|s: Vec<Vec<char>>| drawn(s@))
}

/// The heights that a list of keys holds.
pub open spec fn key_heights(keys: Seq<Key>) -> Seq<Seq<usize>> {
    keys.map_values(|k: Key| k.0@)
}

/// The heights that a list of locks holds.
pub open spec fn lock_heights(locks: Seq<Lock>) -> Seq<Seq<usize>> {
    locks.map_values(|l: Lock| l.0@)
}

/// Sorts schematics into those whose top row is filled and the others,
/// and measures the heights of their columns.
pub fn get_schematics(schematics: &Vec<Vec<Vec<char>>>) -> (r: (Vec<Key>, Vec<Lock>))
    requires
        all_drawn(all_rows(schematics@)),
    ensures
        key_heights(r.0@) == sorted_out(all_rows(schematics@), true, schematics.len() as int),
        lock_heights(r.1@) == sorted_out(all_rows(schematics@), false, schematics.len() as int),
{
    let mut keys: Vec<Key> = Vec::new();
    let mut locks: Vec<Lock> = Vec::new();
    let mut i: usize = 0;
    while i < schematics.len()
        invariant
            i <= schematics.len(),
            all_drawn(all_rows(schematics@)),
            key_heights(keys@) == sorted_out(all_rows(schematics@), true, i as int),
            lock_heights(locks@) == sorted_out(all_rows(schematics@), false, i as int),
        decreases schematics.len() - i,
    {
        let schema = &schematics[i];
        assert(all_rows(schematics@)[i as int] == drawn(schema@));
        assert(drawn(schema@)[0] == schema[0]@);
        let measured = count_things(schema);
        if is_filled(&schema[0]) {
            let ghost before = keys@;
            keys.push(Key(measured));
            assert(key_heights(keys@) =~= key_heights(before).push(measured@));
        } else {
            let ghost before = locks@;
            locks.push(Lock(measured));
            assert(lock_heights(locks@) =~= lock_heights(before).push(measured@));
        }
        i += 1;
    }
    (keys, locks)
}

/// Whether a key and a lock fit: in no column, as far as both have
/// columns, do the two heights add up to the space or more.
pub open spec fn fits(key: Seq<usize>, lock: Seq<usize>) -> bool {
    forall|c: int| 0 <= c < key.len() && 0 <= c < lock.len() ==> #[trigger] key[c] + lock[c] < SPACE
}

/// The locks, by index, that a key fits.
pub open spec fn fitting(key: Seq<usize>, locks: Seq<Seq<usize>>) -> spec_fn(int) -> bool {
    |j: int| fits(key, locks[j])
}

/// The number of locks that the `i`-th key fits.
pub open spec fn fits_of(keys: Seq<Seq<usize>>, locks: Seq<Seq<usize>>) -> spec_fn(int) -> int {
    |i: int| count_below(locks.len() as int, fitting(keys[i], locks)) as int
}

/// The number of pairs of a key and a lock that fit.
pub open spec fn pairs(keys: Seq<Seq<usize>>, locks: Seq<Seq<usize>>) -> int {
    sum_below(keys.len() as int, fits_of(keys, locks))
}

/// Whether a key fits a lock.
fn fits_into(key: &Vec<usize>, lock: &Vec<usize>) -> (r: bool)
    ensures
        r == fits(key@, lock@),
{
    let mut c: usize = 0;
    while c < key.len() && c < lock.len()
        invariant
            forall|k: int| 0 <= k < c ==> #[trigger] key[k] + lock[k] < SPACE,
            c <= key.len(),
            c <= lock.len(),
        decreases key.len() - c,
    {
        if key[c] >= SPACE || lock[c] >= SPACE - key[c] {
            return false;
        }
        c += 1;
    }
    true
}

/// Counts the pairs of a key and a lock that fit.
pub fn match_keys(keys: &Vec<Key>, locks: &Vec<Lock>) -> (r: usize)
    requires
        keys.len() * locks.len() <= usize::MAX,
    ensures
        r == pairs(key_heights(keys@), lock_heights(locks@)),
{
    let ghost ks = key_heights(keys@);
    let ghost ls = lock_heights(locks@);
    let mut total: usize = 0;
    let mut i: usize = 0;
    while i < keys.len()
        invariant
            i <= keys.len(),
            ks == key_heights(keys@),
            ls == lock_heights(locks@),
            keys.len() * locks.len() <= usize::MAX,
            total == sum_below(i as int, fits_of(ks, ls)),
            total <= i * locks.len(),
        decreases keys.len() - i,
    {
        let mut count: usize = 0;
        let mut j: usize = 0;
        while j < locks.len()
            invariant
                j <= locks.len(),
                i < keys.len(),
                ks == key_heights(keys@),
                ls == lock_heights(locks@),
                count == count_below(j as int, fitting(ks[i as int], ls)),
                count <= j,
            decreases locks.len() - j,
        {
            assert(ks[i as int] == keys[i as int].0@);
            assert(ls[j as int] == locks[j as int].0@);
            if fits_into(&keys[i].0, &locks[j].0) {
                count += 1;
            }
            j += 1;
        }
        proof {
            assert((i + 1) * locks.len() == i * locks.len() + locks.len()) by (nonlinear_arith);
            assert((i + 1) * locks.len() <= keys.len() * locks.len()) by (nonlinear_arith)
                requires
                    i + 1 <= keys.len(),
            ;
        }
        total += count;
        i += 1;
    }
    total
}

/// The schematics of a text: its parts between empty lines, each as its lines.
pub open spec fn schematics_of(text: Seq<char>) -> Seq<Seq<Seq<char>>> {
    parts(text, seq!['\n', '\n']).map_values(|p: Seq<char>| lines(p))
}

/// Reads schematics that empty lines separate, each as its lines.
pub fn parse(input: &str) -> (r: Vec<Vec<Vec<char>>>)
    ensures
        all_rows(r@) == schematics_of(input@),
{
    let text = chars_of(input);
    let mut gap: Vec<char> = Vec::new();
    gap.push('\n');
    gap.push('\n');
    assert(gap@ =~= seq!['\n', '\n']);
    let blocks = split_pattern(&text, &gap);
    let mut out: Vec<Vec<Vec<char>>> = Vec::new();
    let mut i: usize = 0;
    assert(rows(blocks@).len() == blocks.len());
    while i < blocks.len()
        invariant
            i <= blocks.len(),
            rows(blocks@) == parts(input@, seq!['\n', '\n']),
            out.len() == i,
            forall|k: int| 0 <= k < i ==> drawn((#[trigger] out[k])@) == schematics_of(input@)[k],
        decreases blocks.len() - i,
    {
        assert(rows(blocks@)[i as int] == blocks[i as int]@);
        let schema = split_lines(&blocks[i]);
        assert(drawn(schema@) =~= rows(schema@));
        out.push(schema);
        i += 1;
    }
    assert(all_rows(out@) =~= schematics_of(input@));
    out
}

/// Whether every schematic of a list has a row, and rows of five columns
/// at least.
fn check_drawn(schematics: &Vec<Vec<Vec<char>>>) -> (r: bool)
    ensures
        r == all_drawn(all_rows(schematics@)),
{
    let ghost all = all_rows(schematics@);
    let mut i: usize = 0;
    while i < schematics.len()
        invariant
            i <= schematics.len(),
            all == all_rows(schematics@),
            forall|k: int| 0 <= k < i ==> (#[trigger] all[k]).len() >= 1 && wide_enough(all[k]),
        decreases schematics.len() - i,
    {
        let schema = &schematics[i];
        assert(all[i as int] == drawn(schema@));
        if schema.len() == 0 {
            return false;
        }
        let mut j: usize = 0;
        while j < schema.len()
            invariant
                j <= schema.len(),
                i < schematics.len(),
                schema == schematics[i as int],
                all == all_rows(schematics@),
                all[i as int] == drawn(schema@),
                forall|k: int| 0 <= k < j ==> (#[trigger] drawn(schema@)[k]).len() >= COLUMNS,
            decreases schema.len() - j,
        {
            assert(drawn(schema@)[j as int] == schema[j as int]@);
            if schema[j].len() < COLUMNS {
                assert(!wide_enough(all[i as int]));
                return false;
            }
            j += 1;
        }
        i += 1;
    }
    true
}

/// The number of pairs of a key and a lock, among the schematics of a
/// text, that fit. Fails when a schematic has no row, or a row of fewer
/// than five columns.
pub fn solve(input: &str) -> (r: Result<usize, PuzzleError>)
    requires
        schematics_of(input@).len() * schematics_of(input@).len() <= usize::MAX,
    ensures
        match r {
            Ok(n) => all_drawn(schematics_of(input@)) && n == pairs(
                sorted_out(schematics_of(input@), true, schematics_of(input@).len() as int),
                sorted_out(schematics_of(input@), false, schematics_of(input@).len() as int),
            ),
            Err(e) => e == PuzzleError::MalformedInput && !all_drawn(schematics_of(input@)),
        },
{
    let schematics = parse(input);
    if !check_drawn(&schematics) {
        return Err(PuzzleError::MalformedInput);
    }
    let (keys, locks) = get_schematics(&schematics);
    proof {
        let all = schematics_of(input@);
        let n = all.len() as int;
        assert(all_rows(schematics@).len() == schematics.len());
        lemma_sorted_out_len(all, true, n);
        lemma_sorted_out_len(all, false, n);
        assert(key_heights(keys@).len() == keys.len());
        assert(lock_heights(locks@).len() == locks.len());
        assert(keys.len() * locks.len() <= n * n) by (nonlinear_arith)
            requires
                keys.len() <= n,
                locks.len() <= n,
        ;
    }
    Ok(match_keys(&keys, &locks))
}

} // verus!
