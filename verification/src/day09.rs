//! A disk described by run lengths: its block image and its checksum.
use vstd::prelude::*;
use crate::adaptors::byte_pairs;
use crate::counting::{lemma_sum_grows, sum_below};

verus! {

/// The marker of a free block in a disk image.
pub const FREE: i64 = -1;

/// What the block at index `i` adds to the checksum: its index times the
/// identifier of the file it holds, and nothing if it is free.
pub open spec fn block_weight(disk: Seq<i64>) -> spec_fn(int) -> int {
    |i: int|
        if disk[i] != FREE {
            i * disk[i]
        } else {
            0
        }
}

/// The checksum of a disk image.
pub open spec fn checksum(disk: Seq<i64>) -> int {
    sum_below(disk.len() as int, block_weight(disk))
}

/// Whether every block of `disk` is free or holds a file identifier.
pub open spec fn is_image(disk: Seq<i64>) -> bool {
    forall|i: int| 0 <= i < disk.len() ==> #[trigger] disk[i] >= FREE
}

/// The blocks that one file and the gap behind it take up.
pub open spec fn run(id: int, file_len: int, free_len: int) -> Seq<i64> {
    Seq::new(file_len as nat, |k: int| id as i64) + Seq::new(free_len as nat, |k: int| FREE)
}

/// The run lengths of `map`, file and gap, two by two. A last file without
/// a gap gets a gap of length zero.
pub open spec fn run_lengths(map: Seq<u8>) -> Seq<(u8, u8)> {
    Seq::new(
        ((map.len() + 1) / 2) as nat,
        |i: int| (map.push(0x30u8)[2 * i], map.push(0x30u8)[2 * i + 1]),
    )
}

/// The disk image of the first `n` files of a list of run lengths, each
/// length given as an ASCII digit.
pub open spec fn image(lengths: Seq<(u8, u8)>, n: int) -> Seq<i64>
    decreases n,
{
    if n <= 0 {
        Seq::empty()
    } else {
        image(lengths, n - 1) + run(n - 1, lengths[n - 1].0 - 0x30, lengths[n - 1].1 - 0x30)
    }
}

/// The checksum of a disk image: the sum, over the blocks that hold a file,
/// of the block's index times the file's identifier.
pub fn check_sum(disk: &[i64]) -> (r: usize)
    requires
        is_image(disk@),
        checksum(disk@) <= usize::MAX,
    ensures
        r == checksum(disk@),
{
    let mut total: usize = 0;
    let mut i: usize = 0;
    while i < disk.len()
        invariant
            i <= disk.len(),
            is_image(disk@),
            checksum(disk@) <= usize::MAX,
            total == sum_below(i as int, block_weight(disk@)),
        decreases disk.len() - i,
    {
        proof {
            assert forall|k: int| 0 <= k < disk.len() implies 0 <= #[trigger] block_weight(disk@)(
                k,
            ) by {
                assert(disk@[k] >= FREE);
                if disk@[k] != FREE {
                    assert(0 <= k * disk@[k]) by (nonlinear_arith)
                        requires
                            0 <= k,
                            0 <= disk@[k],
                    ;
                }
            }
            lemma_sum_grows(i + 1, disk.len() as int, block_weight(disk@));
            lemma_sum_grows(i as int, i + 1, block_weight(disk@));
        }
        let content = disk[i];
        if content != FREE {
            assert(disk@[i as int] >= FREE);
            assert(block_weight(disk@)(i as int) == i * content);
            let term: u128 = (i as u128) * (content as u128);
            total = total + (term as usize);
        }
        i += 1;
    }
    total
}

/// Lays out a disk map as blocks. The map alternates the length of a file
/// and the length of the gap behind it, each as one ASCII digit; the files
/// are numbered from zero in the order in which they appear.
pub fn expand(disk: &[u8]) -> (r: Vec<i64>)
    requires
        forall|i: int| 0 <= i < disk.len() ==> #[trigger] disk[i] >= 0x30,
    ensures
        r@ == image(run_lengths(disk@), run_lengths(disk@).len() as int),
{
    let mut padded: Vec<u8> = Vec::new();
    let mut k: usize = 0;
    while k < disk.len()
        invariant
            k <= disk.len(),
            padded@ == disk@.take(k as int),
        decreases disk.len() - k,
    {
        padded.push(disk[k]);
        k += 1;
        assert(padded@ =~= disk@.take(k as int));
    }
    assert(disk@.take(disk.len() as int) =~= disk@);
    padded.push(0x30u8);
    let pairs = byte_pairs(&padded);
    assert(pairs@ =~= run_lengths(disk@));
    let mut out: Vec<i64> = Vec::new();
    let mut idx: usize = 0;
    while idx < pairs.len()
        invariant
            idx <= pairs.len(),
            pairs@ == run_lengths(disk@),
            padded@ == disk@.push(0x30u8),
            forall|i: int| 0 <= i < disk.len() ==> #[trigger] disk[i] >= 0x30,
            out@ == image(pairs@, idx as int),
        decreases pairs.len() - idx,
    {
        let (file_digit, free_digit) = pairs[idx];
        assert(file_digit >= 0x30 && free_digit >= 0x30) by {
            assert(pairs@[idx as int] == (padded@[2 * idx], padded@[2 * idx + 1]));
        }
        let file_len: u8 = file_digit - 0x30;
        let free_len: u8 = free_digit - 0x30;
        let ghost before = out@;
        let id: i64 = idx as i64;
        let mut n: u8 = 0;
        while n < file_len
            invariant
                n <= file_len,
                out@ == before + Seq::new(n as nat, |k: int| id),
            decreases file_len - n,
        {
            out.push(id);
            n += 1;
            assert(out@ =~= before + Seq::new(n as nat, |k: int| id));
        }
        let ghost filled = out@;
        let mut m: u8 = 0;
        while m < free_len
            invariant
                m <= free_len,
                out@ == filled + Seq::new(m as nat, |k: int| FREE),
            decreases free_len - m,
        {
            out.push(FREE);
            m += 1;
            assert(out@ =~= filled + Seq::new(m as nat, |k: int| FREE));
        }
        assert(out@ =~= before + run(idx as int, file_len as int, free_len as int));
        idx += 1;
    }
    out
}

/// Both answers for a disk map given as text. Neither is worked out yet,
/// so nothing is read from the map.
pub fn solve(input: &str) {
}

} // verus!
