//! Towels with striped patterns, and designs to be laid out of them: in
//! how many ways a design can be made of towels laid end to end.
use vstd::prelude::*;
use crate::counting::{count_below, lemma_count_bound, lemma_sum_grows, sum_below};
use crate::error::PuzzleError;
use crate::text::{
    chars_of, copy_range, matches_at, occurs_at, parts, pieces, rows, same_text, split_char,
    split_pattern,
};

verus! {

/// The towels that begin with one stripe.
#[derive(Debug, PartialEq, Eq)]
pub struct Shelf {
    pub stripe: char,
    pub towels: Vec<Vec<char>>,
}

/// The towels at hand, sorted by their first stripe.
pub type Catalogue = Vec<Shelf>;

/// The towels of the first `n` shelves, shelf after shelf.
pub open spec fn stock(cat: Seq<Shelf>, n: int) -> Seq<Seq<char>>
    decreases n,
{
    if n <= 0 {
        Seq::empty()
    } else {
        stock(cat, n - 1) + rows(cat[n - 1].towels@)
    }
}

/// Whether a towel can be laid at a place of a design: it has a stripe at
/// least, and the design shows its stripes from that place on.
pub open spec fn lies_at(towel: Seq<char>, design: Seq<char>, at: int) -> bool {
    towel.len() >= 1 && occurs_at(design, towel, at)
}

/// The number of ways to lay the rest of a design, from the place `from`
/// on, out of the towels.
pub open spec fn ways(towels: Seq<Seq<char>>, design: Seq<char>, from: int) -> nat
    decreases design.len() - from, 1int, 0int,
{
    if from >= design.len() || from < 0 {
        1
    } else {
        ways_with(towels, design, from, towels.len() as int)
    }
}

/// The number of ways to lay the rest of a design, from the place `from`
/// on, that begin with one of the first `k` towels.
pub open spec fn ways_with(towels: Seq<Seq<char>>, design: Seq<char>, from: int, k: int) -> nat
    decreases design.len() - from, 0int, k,
{
    if k <= 0 || from >= design.len() || from < 0 {
        0
    } else if lies_at(towels[k - 1], design, from) {
        ways_with(towels, design, from, k - 1) + ways(
            towels,
            design,
            from + towels[k - 1].len(),
        )
    } else {
        ways_with(towels, design, from, k - 1)
    }
}

/// The ways that begin with some of the towels are no more than the ways
/// that begin with any towel.
proof fn lemma_ways_grow(towels: Seq<Seq<char>>, design: Seq<char>, from: int, j: int, k: int)
    requires
        0 <= j <= k,
    ensures
        ways_with(towels, design, from, j) <= ways_with(towels, design, from, k),
    decreases k - j,
{
    if j < k {
        lemma_ways_grow(towels, design, from, j, k - 1);
    }
}

/// Whether all the numbers of ways that the count for a design goes
/// through fit in a machine word.
pub open spec fn countable(towels: Seq<Seq<char>>, design: Seq<char>) -> bool {
    forall|from: int| 0 <= from <= design.len() ==> #[trigger] ways(towels, design, from) <= usize::MAX
}

/// The towels of a catalogue, shelf after shelf.
fn take_stock(cat: &Catalogue) -> (r: Vec<Vec<char>>)
    ensures
        rows(r@) == stock(cat@, cat.len() as int),
{
    let mut out: Vec<Vec<char>> = Vec::new();
    let mut s: usize = 0;
    assert(rows(out@) =~= stock(cat@, 0));
    while s < cat.len()
        invariant
            s <= cat.len(),
            rows(out@) == stock(cat@, s as int),
        decreases cat.len() - s,
    {
        let shelf = &cat[s];
        let ghost start = rows(out@);
        let mut k: usize = 0;
        while k < shelf.towels.len()
            invariant
                k <= shelf.towels.len(),
                rows(out@) == start + rows(shelf.towels@).take(k as int),
            decreases shelf.towels.len() - k,
        {
            let towel = copy_range(&shelf.towels[k], 0, shelf.towels[k].len());
            assert(towel@ =~= shelf.towels[k as int]@);
            let ghost before = out@;
            out.push(towel);
            k += 1;
            assert(rows(out@) =~= rows(before).push(towel@));
            assert(rows(shelf.towels@).take(k as int) =~= rows(shelf.towels@).take(k - 1).push(
                shelf.towels[k - 1]@,
            ));
            assert(rows(out@) =~= start + rows(shelf.towels@).take(k as int));
        }
        assert(rows(shelf.towels@).take(shelf.towels.len() as int) =~= rows(shelf.towels@));
        s += 1;
    }
    out
}

/// Counts the ways in which a design can be laid out of towels, end to
/// end, as far as the numbers that the count goes through fit in a
/// machine word; `None` where one of them does not.
pub fn try_count_arrangements(towels: &Vec<Vec<char>>, design: &Vec<char>) -> (r: Option<usize>)
    ensures
        match r {
            Some(n) => countable(rows(towels@), design@) && n == ways(rows(towels@), design@, 0),
            None => !countable(rows(towels@), design@),
        },
{
    let ghost ts = rows(towels@);
    let n = design.len();
    // `table[i]` is the number of ways to lay the design from place `n - i` on.
    let mut table: Vec<usize> = Vec::new();
    table.push(1);
    let mut done: usize = 0;
    while done < n
        invariant
            done <= n,
            n == design.len(),
            ts == rows(towels@),
            table.len() == done + 1,
            forall|i: int| 0 <= i <= done ==> #[trigger] table[i] == ways(ts, design@, n - i),
        decreases n - done,
    {
        let from = n - done - 1;
        let mut total: usize = 0;
        let mut k: usize = 0;
        while k < towels.len()
            invariant
                k <= towels.len(),
                done < n,
                from == n - done - 1,
                n == design.len(),
                ts == rows(towels@),
                table.len() == done + 1,
                forall|i: int| 0 <= i <= done ==> #[trigger] table[i] == ways(ts, design@, n - i),
                total == ways_with(ts, design@, from as int, k as int),
            decreases towels.len() - k,
        {
            let towel = &towels[k];
            proof {
                assert(ts[k as int] == towel@);
                lemma_ways_grow(ts, design@, from as int, k + 1, towels.len() as int);
            }
            if towel.len() >= 1 && matches_at(design, towel, from) {
                let rest = n - (from + towel.len());
                assert(table[rest as int] == ways(ts, design@, n - rest));
                if table[rest] > usize::MAX - total {
                    assert(ways(ts, design@, from as int) > usize::MAX);
                    return None;
                }
                total += table[rest];
            }
            k += 1;
        }
        table.push(total);
        done += 1;
    }
    assert forall|from: int| 0 <= from <= design.len() implies #[trigger] ways(ts, design@, from)
        <= usize::MAX by {
        assert(table[n - from] == ways(ts, design@, n - (n - from)));
    }
    Some(table[n])
}

/// Counts the ways in which a design can be laid out of towels, end to end.
pub fn count_arrangements(towels: &Vec<Vec<char>>, design: &Vec<char>) -> (r: usize)
    requires
        countable(rows(towels@), design@),
    ensures
        r == ways(rows(towels@), design@, 0),
{
    try_count_arrangements(towels, design).unwrap()
}

/// The numbers of ways that have been counted, each design once.
#[derive(Debug)]
pub struct Cache {
    pub designs: Vec<Vec<char>>,
    pub counts: Vec<usize>,
}

impl Cache {
    /// Every design has a number and stands once.
    pub open spec fn wf(&self) -> bool {
        &&& self.designs.len() == self.counts.len()
        &&& forall|i: int, j: int|
            0 <= i < j < self.designs.len() ==> (#[trigger] self.designs[i])@ != (
            #[trigger] self.designs[j])@
    }

    /// Whether a design stands at an index.
    pub open spec fn named(&self, name: Seq<char>, i: int) -> bool {
        0 <= i < self.designs.len() && self.designs[i]@ == name
    }

    /// Whether a design stands in the cache.
    pub open spec fn holds(&self, name: Seq<char>) -> bool {
        exists|i: int| self.named(name, i)
    }

    /// Where a design stands.
    pub open spec fn place(&self, name: Seq<char>) -> int {
        choose|i: int| self.named(name, i)
    }

    /// A design that stands at an index stands there and nowhere else.
    pub proof fn lemma_place(&self, i: int)
        requires
            self.wf(),
            0 <= i < self.designs.len(),
        ensures
            self.holds(self.designs[i]@),
            self.place(self.designs[i]@) == i,
            self@.contains_key(self.designs[i]@),
            self@[self.designs[i]@] == self.counts[i],
    {
        assert(self.named(self.designs[i]@, i));
        let p = self.place(self.designs[i]@);
        assert(self.named(self.designs[i]@, p));
        if p < i {
            assert(self.designs[p]@ != self.designs[i]@);
        } else if i < p {
            assert(self.designs[i]@ != self.designs[p]@);
        }
    }

    /// A cache that holds nothing.
    pub fn new() -> (r: Cache)
        ensures
            r.wf(),
            r@ == Map::<Seq<char>, usize>::empty(),
    {
        let r = Cache { designs: Vec::new(), counts: Vec::new() };
        assert(r@ =~= Map::<Seq<char>, usize>::empty());
        r
    }

    /// Where a design stands, if it stands in the cache.
    pub fn find(&self, name: &Vec<char>) -> (r: Option<usize>)
        requires
            self.wf(),
        ensures
            match r {
                Some(i) => i < self.designs.len() && self.designs[i as int]@ == name@
                    && self@.contains_key(name@) && self@[name@] == self.counts[i as int],
                None => !self@.contains_key(name@),
            },
    {
        let mut i: usize = 0;
        while i < self.designs.len()
            invariant
                self.wf(),
                i <= self.designs.len(),
                forall|k: int| 0 <= k < i ==> self.designs[k]@ != name@,
            decreases self.designs.len() - i,
        {
            if same_text(&self.designs[i], name) {
                proof {
                    self.lemma_place(i as int);
                }
                return Some(i);
            }
            i += 1;
        }
        assert(!self.holds(name@)) by {
            if self.holds(name@) {
                let p = self.place(name@);
                assert(self.named(name@, p));
            }
        }
        None
    }

    /// Whether a design stands in the cache.
    pub fn contains_key(&self, name: &Vec<char>) -> (r: bool)
        requires
            self.wf(),
        ensures
            r == self@.contains_key(name@),
    {
        self.find(name).is_some()
    }

    /// The number kept for a design, if it stands in the cache.
    pub fn get(&self, name: &Vec<char>) -> (r: Option<usize>)
        requires
            self.wf(),
        ensures
            r == (if self@.contains_key(name@) {
                Some(self@[name@])
            } else {
                None::<usize>
            }),
    {
        match self.find(name) {
            Some(i) => Some(self.counts[i]),
            None => None,
        }
    }

    /// Keeps a number for a design, whether it stood in the cache or not.
    pub fn insert(&mut self, name: Vec<char>, value: usize)
        requires
            old(self).wf(),
        ensures
            final(self).wf(),
            final(self)@ == old(self)@.insert(name@, value),
    {
        let ghost before = *self;
        match self.find(&name) {
            Some(i) => {
                self.counts.set(i, value);
                proof {
                    let after = *self;
                    assert(after.wf());
                    assert forall|k: Seq<char>| after.holds(k) == before.holds(k) by {
                        if after.holds(k) {
                            assert(before.named(k, after.place(k)));
                        }
                        if before.holds(k) {
                            assert(after.named(k, before.place(k)));
                        }
                    }
                    assert forall|k: Seq<char>| #[trigger] after@.contains_key(k) implies after@[k]
                        == before@.insert(name@, value)[k] by {
                        let p = after.place(k);
                        assert(after.named(k, p));
                        after.lemma_place(p);
                        before.lemma_place(p);
                        before.lemma_place(i as int);
                    }
                    assert(after@ =~= before@.insert(name@, value));
                }
            },
            None => {
                self.designs.push(name);
                self.counts.push(value);
                proof {
                    let after = *self;
                    let n = before.designs.len() as int;
                    assert forall|a: int, b: int| 0 <= a < b < after.designs.len() implies (
                    #[trigger] after.designs[a])@ != (#[trigger] after.designs[b])@ by {
                        if b == n {
                            assert(before.named(after.designs[a]@, a));
                        }
                    }
                    assert(after.named(name@, n));
                    assert forall|k: Seq<char>| after.holds(k) == (before.holds(k) || k
                        == name@) by {
                        if after.holds(k) {
                            let p = after.place(k);
                            assert(after.named(k, p));
                            if p < n {
                                assert(before.named(k, p));
                            }
                        }
                        if before.holds(k) {
                            assert(after.named(k, before.place(k)));
                        }
                    }
                    assert forall|k: Seq<char>| #[trigger] after@.contains_key(k) implies after@[k]
                        == before@.insert(name@, value)[k] by {
                        let p = after.place(k);
                        assert(after.named(k, p));
                        after.lemma_place(p);
                        if p < n {
                            assert(before.named(k, p));
                            before.lemma_place(p);
                        }
                    }
                    assert(after@ =~= before@.insert(name@, value));
                }
            },
        }
    }
}

impl View for Cache {
    type V = Map<Seq<char>, usize>;

    open spec fn view(&self) -> Map<Seq<char>, usize> {
        Map::new(|k: Seq<char>| self.holds(k), |k: Seq<char>| self.counts[self.place(k)])
    }
}

/// Whether every number that a cache keeps is the number of ways to lay
/// its design out of the towels.
pub open spec fn consistent(cache: Map<Seq<char>, usize>, towels: Seq<Seq<char>>) -> bool {
    forall|design: Seq<char>| #[trigger]
        cache.contains_key(design) ==> cache[design] == ways(towels, design, 0)
}

/// Counts the ways in which a design can be laid out of the towels of a
/// catalogue, end to end. A design that stands in the cache is not
/// counted again; one that does not is counted, and stands in the cache
/// afterwards with its number.
pub fn how_many_times_producable(cat: &Catalogue, stack: &str, cache: &mut Cache) -> (r: usize)
    requires
        old(cache).wf(),
        consistent(old(cache)@, stock(cat@, cat.len() as int)),
        countable(stock(cat@, cat.len() as int), stack@),
    ensures
        r == ways(stock(cat@, cat.len() as int), stack@, 0),
        final(cache).wf(),
        final(cache)@ == old(cache)@.insert(stack@, r),
        consistent(final(cache)@, stock(cat@, cat.len() as int)),
{
    let design = chars_of(stack);
    match cache.get(&design) {
        Some(known) => {
            assert(cache@ =~= cache@.insert(stack@, known));
            known
        },
        None => {
            let towels = take_stock(cat);
            let n = count_arrangements(&towels, &design);
            cache.insert(design, n);
            n
        },
    }
}

/// Whether every towel has a stripe.
pub open spec fn all_striped(towels: Seq<Seq<char>>) -> bool {
    forall|i: int| 0 <= i < towels.len() ==> (#[trigger] towels[i]).len() >= 1
}

/// The index of the shelf for a stripe among the first `n` shelves; `n` if
/// there is none.
pub open spec fn shelf_of(cat: Seq<Shelf>, stripe: char, n: int) -> int
    decreases n,
{
    if n <= 0 {
        0
    } else if shelf_of(cat, stripe, n - 1) < n - 1 {
        shelf_of(cat, stripe, n - 1)
    } else if cat[n - 1].stripe == stripe {
        n - 1
    } else {
        n
    }
}

/// Whether a catalogue is in order: no two shelves are for the same
/// stripe, and every towel lies on the shelf for its first stripe.
pub open spec fn tidy(cat: Seq<Shelf>) -> bool {
    &&& forall|a: int, b: int|
        0 <= a < cat.len() && 0 <= b < cat.len() && a != b ==> (#[trigger] cat[a]).stripe != (
        #[trigger] cat[b]).stripe
    &&& forall|s: int, k: int|
        0 <= s < cat.len() && 0 <= k < cat[s].towels.len() ==> (#[trigger] cat[s].towels[k]).len()
            >= 1 && cat[s].towels[k][0] == cat[s].stripe
}

/// The towels among the first `n` that begin with a stripe, in their order.
pub open spec fn beginning_with(towels: Seq<Seq<char>>, stripe: char, n: int) -> Seq<Seq<char>>
    decreases n,
{
    if n <= 0 {
        Seq::empty()
    } else if towels[n - 1][0] == stripe {
        beginning_with(towels, stripe, n - 1).push(towels[n - 1])
    } else {
        beginning_with(towels, stripe, n - 1)
    }
}

/// Whether a catalogue holds the first `n` towels of a list: it is tidy,
/// and the shelf for a stripe holds the towels that begin with that
/// stripe, in their order, a shelf being there for every stripe with
/// which a towel begins and for no other.
pub open spec fn holds(cat: Seq<Shelf>, towels: Seq<Seq<char>>, n: int) -> bool {
    &&& tidy(cat)
    &&& forall|s: int|
        0 <= s < cat.len() ==> rows((#[trigger] cat[s]).towels@) == beginning_with(
            towels,
            cat[s].stripe,
            n,
        ) && cat[s].towels.len() >= 1
    &&& forall|i: int|
        0 <= i < n ==> exists|s: int| 0 <= s < cat.len() && (#[trigger] cat[s]).stripe == (
        #[trigger] towels[i])[0]
}

/// A towel put on the shelf for its first stripe keeps the catalogue in order.
proof fn lemma_put_on_shelf(before: Seq<Shelf>, after: Seq<Shelf>, ts: Seq<Seq<char>>, i: int, s: int)
    requires
        0 <= i < ts.len(),
        ts[i].len() >= 1,
        holds(before, ts, i),
        0 <= s < before.len(),
        before[s].stripe == ts[i][0],
        after.len() == before.len(),
        forall|k: int| 0 <= k < before.len() && k != s ==> #[trigger] after[k] == before[k],
        after[s].stripe == before[s].stripe,
        rows(after[s].towels@) == rows(before[s].towels@).push(ts[i]),
    ensures
        holds(after, ts, i + 1),
{
    assert forall|k: int| 0 <= k < after.len() implies rows((#[trigger] after[k]).towels@)
        == beginning_with(ts, after[k].stripe, i + 1) && after[k].towels.len() >= 1 by {
        if k != s {
            assert(after[k] == before[k]);
            assert(before[k].stripe != before[s].stripe);
        } else {
            assert(rows(after[s].towels@).len() == after[s].towels.len());
        }
    }
    assert forall|a: int, k: int|
        0 <= a < after.len() && 0 <= k < after[a].towels.len() implies (
    #[trigger] after[a].towels[k]).len() >= 1 && after[a].towels[k][0] == after[a].stripe by {
        if a != s {
            assert(after[a] == before[a]);
        } else {
            let old_rows = rows(before[s].towels@);
            let new_rows = rows(after[s].towels@);
            assert(new_rows.len() == after[s].towels.len());
            assert(old_rows.len() == before[s].towels.len());
            assert(new_rows[k] == after[s].towels[k]@);
            if k < before[s].towels.len() {
                assert(new_rows[k] == old_rows[k]);
                assert(old_rows[k] == before[s].towels[k]@);
                assert(before[s].towels[k].len() >= 1 && before[s].towels[k][0] == before[s].stripe);
            } else {
                assert(new_rows[k] == ts[i]);
            }
        }
    }
    assert forall|j: int| 0 <= j < i + 1 implies exists|a: int|
        0 <= a < after.len() && (#[trigger] after[a]).stripe == (#[trigger] ts[j])[0] by {
        if j < i {
            let a = choose|a: int| 0 <= a < before.len() && (#[trigger] before[a]).stripe == ts[j][0];
            assert(after[a].stripe == before[a].stripe);
        } else {
            assert(after[s].stripe == ts[j][0]);
        }
    }
    assert forall|a: int, b: int|
        0 <= a < after.len() && 0 <= b < after.len() && a != b implies (#[trigger] after[a]).stripe
        != (#[trigger] after[b]).stripe by {
        assert(after[a].stripe == before[a].stripe && after[b].stripe == before[b].stripe);
    }
}

/// A towel put on a new shelf, when none was there for its first stripe,
/// keeps the catalogue in order.
proof fn lemma_new_shelf(before: Seq<Shelf>, after: Seq<Shelf>, ts: Seq<Seq<char>>, i: int)
    requires
        0 <= i < ts.len(),
        ts[i].len() >= 1,
        holds(before, ts, i),
        forall|k: int| 0 <= k < before.len() ==> (#[trigger] before[k]).stripe != ts[i][0],
        after.len() == before.len() + 1,
        forall|k: int| 0 <= k < before.len() ==> #[trigger] after[k] == before[k],
        after[before.len() as int].stripe == ts[i][0],
        rows(after[before.len() as int].towels@) == seq![ts[i]],
    ensures
        holds(after, ts, i + 1),
{
    let s = before.len() as int;
    lemma_none_before(ts, ts[i][0], i, before);
    assert(rows(after[s].towels@) =~= beginning_with(ts, ts[i][0], i).push(ts[i]));
    assert forall|k: int| 0 <= k < after.len() implies rows((#[trigger] after[k]).towels@)
        == beginning_with(ts, after[k].stripe, i + 1) && after[k].towels.len() >= 1 by {
        if k < s {
            assert(after[k] == before[k]);
        } else {
            assert(rows(after[s].towels@).len() == after[s].towels.len());
        }
    }
    assert forall|a: int, k: int|
        0 <= a < after.len() && 0 <= k < after[a].towels.len() implies (
    #[trigger] after[a].towels[k]).len() >= 1 && after[a].towels[k][0] == after[a].stripe by {
        if a < s {
            assert(after[a] == before[a]);
        } else {
            assert(rows(after[s].towels@).len() == after[s].towels.len());
            assert(rows(after[s].towels@)[k] == after[s].towels[k]@);
        }
    }
    assert forall|j: int| 0 <= j < i + 1 implies exists|a: int|
        0 <= a < after.len() && (#[trigger] after[a]).stripe == (#[trigger] ts[j])[0] by {
        if j < i {
            let a = choose|a: int| 0 <= a < before.len() && (#[trigger] before[a]).stripe == ts[j][0];
            assert(after[a] == before[a]);
        } else {
            assert(after[s].stripe == ts[j][0]);
        }
    }
    assert forall|a: int, b: int|
        0 <= a < after.len() && 0 <= b < after.len() && a != b implies (#[trigger] after[a]).stripe
        != (#[trigger] after[b]).stripe by {
        if a < s {
            assert(after[a] == before[a]);
        }
        if b < s {
            assert(after[b] == before[b]);
        }
    }
}

/// The first stripe of a towel.
fn first_stripe(towel: &Vec<char>) -> (r: char)
    requires
        towel.len() >= 1,
    ensures
        r == towel[0],
{
    towel[0]
}

/// The index of the shelf for a stripe; the number of shelves if there is none.
fn find_shelf(cat: &Vec<Shelf>, stripe: char) -> (s: usize)
    ensures
        s <= cat.len(),
        s < cat.len() ==> cat[s as int].stripe == stripe,
        forall|k: int| 0 <= k < s ==> (#[trigger] cat[k]).stripe != stripe,
{
    let mut s: usize = 0;
    while s < cat.len() && cat[s].stripe != stripe
        invariant
            s <= cat.len(),
            forall|k: int| 0 <= k < s ==> (#[trigger] cat[k]).stripe != stripe,
        decreases cat.len() - s,
    {
        s += 1;
    }
    s
}

/// Sorts towels onto shelves by their first stripe. The shelves stand in
/// the order in which their stripes first occur.
pub fn create_catalogue(towels: &Vec<Vec<char>>) -> (cat: Catalogue)
    requires
        all_striped(rows(towels@)),
    ensures
        holds(cat@, rows(towels@), towels.len() as int),
{
    let ghost ts = rows(towels@);
    let mut cat: Vec<Shelf> = Vec::new();
    let mut i: usize = 0;
    while i < towels.len()
        invariant
            i <= towels.len(),
            ts == rows(towels@),
            ts.len() == towels.len(),
            all_striped(ts),
            holds(cat@, ts, i as int),
        decreases towels.len() - i,
    {
        let towel = copy_range(&towels[i], 0, towels[i].len());
        assert(towel@ =~= towels[i as int]@);
        assert(ts[i as int] == towel@);
        let stripe = first_stripe(&towel);
        let s = find_shelf(&cat, stripe);
        let ghost before = cat@;
        if s < cat.len() {
            let ghost shelf_before = cat[s as int].towels@;
            cat[s].towels.push(towel);
            proof {
                assert(rows(cat@[s as int].towels@) =~= rows(shelf_before).push(ts[i as int]));
                lemma_put_on_shelf(before, cat@, ts, i as int, s as int);
            }
        } else {
            let mut fresh: Vec<Vec<char>> = Vec::new();
            fresh.push(towel);
            assert(rows(fresh@) =~= seq![ts[i as int]]);
            cat.push(Shelf { stripe, towels: fresh });
            proof {
                lemma_new_shelf(before, cat@, ts, i as int);
            }
        }
        i += 1;
    }
    cat
}

/// When no shelf is there for a stripe, no towel so far begins with it.
proof fn lemma_none_before(ts: Seq<Seq<char>>, stripe: char, n: int, cat: Seq<Shelf>)
    requires
        holds(cat, ts, n),
        forall|k: int| 0 <= k < cat.len() ==> (#[trigger] cat[k]).stripe != stripe,
    ensures
        beginning_with(ts, stripe, n) == Seq::<Seq<char>>::empty(),
{
    lemma_none_begin(ts, stripe, n, cat, n);
}

/// When no shelf is there for a stripe, none of the first `m` towels
/// begins with it.
proof fn lemma_none_begin(ts: Seq<Seq<char>>, stripe: char, n: int, cat: Seq<Shelf>, m: int)
    requires
        holds(cat, ts, n),
        m <= n,
        forall|k: int| 0 <= k < cat.len() ==> (#[trigger] cat[k]).stripe != stripe,
    ensures
        beginning_with(ts, stripe, m) == Seq::<Seq<char>>::empty(),
    decreases m,
{
    if m > 0 {
        lemma_none_begin(ts, stripe, n, cat, m - 1);
        let a = choose|a: int| 0 <= a < cat.len() && (#[trigger] cat[a]).stripe == (#[trigger] ts[m - 1])[0];
    }
}

/// The two parts of a text that an empty line separates. More parts may follow.
pub open spec fn halves(text: Seq<char>) -> Seq<Seq<char>> {
    parts(text, seq!['\n', '\n'])
}

/// The towels of a text: the pieces of its first part between commas that
/// are followed by a space.
pub open spec fn towels_of(text: Seq<char>) -> Seq<Seq<char>> {
    parts(halves(text)[0], seq![',', ' '])
}

/// The designs of a text: the pieces of its second part between line feeds.
pub open spec fn designs_of(text: Seq<char>) -> Seq<Seq<char>> {
    pieces(halves(text)[1], '\n')
}

/// Reads the towels, with a comma and a space between them, and after an
/// empty line the designs, one per line. Fails when the empty line is missing.
pub fn parse(input: &str) -> (r: Result<(Vec<Vec<char>>, Vec<Vec<char>>), PuzzleError>)
    ensures
        match r {
            Ok((towels, designs)) => {
                &&& halves(input@).len() >= 2
                &&& rows(towels@) == towels_of(input@)
                &&& rows(designs@) == designs_of(input@)
            },
            Err(e) => e == PuzzleError::MalformedInput && halves(input@).len() < 2,
        },
{
    let text = chars_of(input);
    let mut gap: Vec<char> = Vec::new();
    gap.push('\n');
    gap.push('\n');
    assert(gap@ =~= seq!['\n', '\n']);
    let both = split_pattern(&text, &gap);
    assert(rows(both@).len() == both.len());
    if both.len() < 2 {
        return Err(PuzzleError::MalformedInput);
    }
    assert(rows(both@)[0] == both[0]@ && rows(both@)[1] == both[1]@);
    let mut comma: Vec<char> = Vec::new();
    comma.push(',');
    comma.push(' ');
    assert(comma@ =~= seq![',', ' ']);
    let towels = split_pattern(&both[0], &comma);
    let designs = split_char(&both[1], '\n');
    Ok((towels, designs))
}

/// The designs, by index, that can be laid out of the towels.
pub open spec fn possible(towels: Seq<Seq<char>>, designs: Seq<Seq<char>>) -> spec_fn(int) -> bool {
    |i: int| ways(towels, designs[i], 0) > 0
}

/// The number of ways to lay the `i`-th design out of the towels.
pub open spec fn ways_of(towels: Seq<Seq<char>>, designs: Seq<Seq<char>>) -> spec_fn(int) -> int {
    |i: int| ways(towels, designs[i], 0) as int
}

/// Whether the numbers of ways for all designs, and their sum, fit in a
/// machine word.
pub open spec fn all_countable(towels: Seq<Seq<char>>, designs: Seq<Seq<char>>) -> bool {
    &&& forall|i: int| 0 <= i < designs.len() ==> countable(towels, #[trigger] designs[i])
    &&& sum_below(designs.len() as int, ways_of(towels, designs)) <= usize::MAX
}

/// Whether every towel of a list has a stripe.
fn check_striped(towels: &Vec<Vec<char>>) -> (r: bool)
    ensures
        r == all_striped(rows(towels@)),
{
    let mut i: usize = 0;
    while i < towels.len()
        invariant
            i <= towels.len(),
            forall|k: int| 0 <= k < i ==> (#[trigger] rows(towels@)[k]).len() >= 1,
        decreases towels.len() - i,
    {
        assert(rows(towels@)[i as int] == towels[i as int]@);
        if towels[i].len() == 0 {
            return false;
        }
        i += 1;
    }
    true
}

/// Both answers for towels and designs given as text: the number of
/// designs that can be laid out of the towels, and the number of ways of
/// laying them, all designs taken together. Fails when the empty line
/// between towels and designs is missing, or a towel has no stripe.
pub fn solve(input: &str) -> (r: Result<(usize, usize), PuzzleError>)
    requires
        all_countable(towels_of(input@), designs_of(input@)),
    ensures
        match r {
            Ok((designs, arrangements)) => {
                &&& halves(input@).len() >= 2
                &&& all_striped(towels_of(input@))
                &&& designs == count_below(
                    designs_of(input@).len() as int,
                    possible(towels_of(input@), designs_of(input@)),
                )
                &&& arrangements == sum_below(
                    designs_of(input@).len() as int,
                    ways_of(towels_of(input@), designs_of(input@)),
                )
            },
            Err(e) => e == PuzzleError::MalformedInput && (halves(input@).len() < 2 || !all_striped(
                towels_of(input@),
            )),
        },
{
    let (towels, stacks) = match parse(input) {
        Ok(p) => p,
        Err(e) => {
            return Err(e);
        },
    };
    if !check_striped(&towels) {
        return Err(PuzzleError::MalformedInput);
    }
    let ghost ts = rows(towels@);
    let ghost ds = rows(stacks@);
    assert(ds.len() == stacks.len());
    let mut designs: usize = 0;
    let mut arrangements: usize = 0;
    let mut i: usize = 0;
    while i < stacks.len()
        invariant
            i <= stacks.len(),
            ts == rows(towels@),
            ds == rows(stacks@),
            ds.len() == stacks.len(),
            all_countable(ts, ds),
            designs == count_below(i as int, possible(ts, ds)),
            arrangements == sum_below(i as int, ways_of(ts, ds)),
        decreases stacks.len() - i,
    {
        proof {
            assert(ds[i as int] == stacks[i as int]@);
            lemma_count_bound(i as int, possible(ts, ds));
            assert forall|k: int| 0 <= k < ds.len() implies 0 <= #[trigger] ways_of(ts, ds)(k) by {}
            lemma_sum_grows(i + 1, ds.len() as int, ways_of(ts, ds));
        }
        let n = count_arrangements(&towels, &stacks[i]);
        if n > 0 {
            designs += 1;
        }
        arrangements += n;
        i += 1;
    }
    Ok((designs, arrangements))
}

} // verus!
