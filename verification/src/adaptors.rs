//! The few calls into the `itertools` crate, and the one into the standard
//! library's sort, that the solvers rely on.
//!
//! None of these bodies is verified: each contract restates what is
//! documented for the call it wraps.
use vstd::prelude::*;
use itertools::Itertools;
use crate::counting::count_below;
use crate::text::rows;

verus! {

/// The usual order on 32-bit numbers.
pub open spec fn ascending() -> spec_fn(u32, u32) -> bool {
    |a: u32, b: u32| a <= b
}

/// `Itertools::sorted`, which collects the items and sorts them with the
/// standard library's stable sort: the result has the items of `values`,
/// each as often as `values` has it, in ascending order.
#[verifier::external_body]
pub(crate) fn sorted(values: &Vec<u32>) -> (out: Vec<u32>)
    ensures
        out@.to_multiset() == values@.to_multiset(),
        vstd::relations::sorted_by(out@, ascending()),
{
    values.iter().copied().sorted().collect()
}

/// `Itertools::tuple_windows` for pairs: every item together with its
/// successor, in order. A list of fewer than two items has no such pair.
#[verifier::external_body]
pub(crate) fn adjacent_pairs<T: Copy>(values: &Vec<T>) -> (out: Vec<(T, T)>)
    ensures
        values.len() < 2 ==> out.len() == 0,
        values.len() >= 2 ==> out.len() == values.len() - 1,
        forall|i: int| 0 <= i < out.len() ==> #[trigger] out[i] == (values[i], values[i + 1]),
{
    values.iter().copied().tuple_windows().collect()
}

/// `Itertools::tuples` for pairs: the items two by two, in order. A last
/// item without a partner is left out.
#[verifier::external_body]
pub(crate) fn byte_pairs(values: &Vec<u8>) -> (out: Vec<(u8, u8)>)
    ensures
        out.len() == values.len() / 2,
        forall|i: int| 0 <= i < out.len() ==> #[trigger] out[i] == (values[2 * i], values[2 * i + 1]),
{
    values.iter().copied().tuples().collect()
}

/// The places at which a list holds a key.
pub open spec fn holds_key(values: Seq<usize>, key: usize) -> spec_fn(int) -> bool {
    |i: int| values[i] == key
}

/// How often a list holds a key.
pub open spec fn occurrences(values: Seq<usize>, key: usize) -> nat {
    count_below(values.len() as int, holds_key(values, key))
}

/// Whether a list of keys with their counts lists a key.
pub open spec fn listed(list: Seq<(usize, usize)>, key: usize) -> bool {
    exists|i: int| 0 <= i < list.len() && (#[trigger] list[i]).0 == key
}

/// `Itertools::counts_by` with every item as its own key, the resulting map
/// handed out as a list of keys with their counts: every key that occurs in
/// `values` is listed once, with the number of times it occurs, and no
/// other key is listed. The order of the list is that of the map, which
/// is left open.
#[verifier::external_body]
pub(crate) fn counts(values: &Vec<usize>) -> (out: Vec<(usize, usize)>)
    ensures
        forall|i: int|
            0 <= i < out.len() ==> (#[trigger] out[i]).1 == occurrences(values@, out[i].0)
                && out[i].1 >= 1,
        forall|i: int, j: int|
            0 <= i < out.len() && 0 <= j < out.len() && i != j ==> (#[trigger] out[i]).0 != (
            #[trigger] out[j]).0,
        forall|k: int| 0 <= k < values.len() ==> listed(out@, #[trigger] values[k]),
{
    values.iter().counts_by(|v| *v).into_iter().collect()
}

/// Whether `p` lists positions below `n` in rising order.
pub open spec fn rising_below(p: Seq<int>, n: int) -> bool {
    &&& forall|i: int| 0 <= i < p.len() ==> 0 <= #[trigger] p[i] < n
    &&& forall|i: int, j: int| 0 <= i < j < p.len() ==> #[trigger] p[i] < #[trigger] p[j]
}

/// The items of a list at given positions.
pub open spec fn picked(items: Seq<usize>, p: Seq<int>) -> Seq<usize> {
    Seq::new(p.len(), |i: int| items[p[i]])
}

/// Whether `combo` holds `k` items of a list, taken at rising positions.
pub open spec fn chosen(items: Seq<usize>, k: int, combo: Seq<usize>) -> bool {
    exists|p: Seq<int>|
        p.len() == k && rising_below(p, items.len() as int) && combo == #[trigger] picked(items, p)
}

/// Whether a list of combinations holds a combination.
pub open spec fn offers(out: Seq<Vec<usize>>, combo: Seq<usize>) -> bool {
    exists|c: int| 0 <= c < out.len() && (#[trigger] out[c])@ == combo
}

/// `Itertools::combinations`: the ways of taking `k` items of a list at
/// rising positions. Every combination that is handed out is such a way,
/// and every such way is handed out. Equal items at different positions
/// are different items to it.
#[verifier::external_body]
pub(crate) fn combinations(items: &Vec<usize>, k: usize) -> (out: Vec<Vec<usize>>)
    ensures
        forall|c: int| 0 <= c < out.len() ==> chosen(items@, k as int, (#[trigger] out[c])@),
        forall|p: Seq<int>|
            p.len() == k && rising_below(p, items.len() as int) ==> offers(
                out@,
                #[trigger] picked(items@, p),
            ),
{
    items.iter().copied().combinations(k).collect()
}

/// The items of a list with a separator between each two of the first `n`.
pub open spec fn joined_with(names: Seq<Seq<char>>, sep: Seq<char>, n: int) -> Seq<char>
    decreases n,
{
    if n <= 0 {
        Seq::empty()
    } else if n == 1 {
        names[0]
    } else {
        joined_with(names, sep, n - 1) + sep + names[n - 1]
    }
}

/// `Itertools::join` on names, each a list of characters: the names one
/// after the other, with the separator between each two.
#[verifier::external_body]
pub(crate) fn join(names: &Vec<Vec<char>>, sep: &str) -> (out: String)
    ensures
        out@ == joined_with(rows(names@), sep@, names.len() as int),
{
    names.iter().map(|n| n.iter().collect::<String>()).join(sep)
}

/// Whether `a` comes before `b`, or is `b`, in the order of a dictionary
/// that ranks characters by their number.
pub open spec fn in_order(a: Seq<char>, b: Seq<char>) -> bool
    decreases a.len(),
{
    if a.len() == 0 {
        true
    } else if b.len() == 0 {
        false
    } else if a[0] != b[0] {
        (a[0] as u32) < (b[0] as u32)
    } else {
        in_order(a.drop_first(), b.drop_first())
    }
}

/// The standard library's `sort` on a list of names, each a list of
/// characters: the same names, each as often as before, in the order of a
/// dictionary that ranks characters by their number.
#[verifier::external_body]
pub(crate) fn sort_names(names: Vec<Vec<char>>) -> (out: Vec<Vec<char>>)
    ensures
        rows(out@).to_multiset() == rows(names@).to_multiset(),
        forall|i: int, j: int|
            0 <= i < j < out.len() ==> in_order((#[trigger] out[i])@, (#[trigger] out[j])@),
{
    let mut sorted = names;
    sorted.sort();
    sorted
}

} // verus!
