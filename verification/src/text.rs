//! Plain-text handling shared by the puzzle readers: characters, lines,
//! separators, words and decimal numbers. Every function has a mathematical
//! counterpart over `Seq<char>` that its contract refers to.
use vstd::prelude::*;

verus! {

/// The contents of a vector of character vectors, as a sequence of sequences.
pub open spec fn rows(v: Seq<Vec<char>>) -> Seq<Seq<char>> {
    v.map_values(|r: Vec<char>| r@)
}

/// Index of the first `c` in `s` at or after `from`; `s.len()` if there is none.
pub open spec fn find_char(s: Seq<char>, c: char, from: int) -> int
    decreases s.len() - from,
{
    if from >= s.len() {
        s.len() as int
    } else if s[from] == c {
        from
    } else {
        find_char(s, c, from + 1)
    }
}

/// The pieces of `s` between occurrences of `sep`, starting at `from`.
/// There is always at least one piece; pieces may be empty.
pub open spec fn pieces_from(s: Seq<char>, sep: char, from: int) -> Seq<Seq<char>>
    decreases s.len() - from,
{
    let i = find_char(s, sep, from);
    if 0 <= from <= i < s.len() {
        seq![s.subrange(from, i)] + pieces_from(s, sep, i + 1)
    } else if 0 <= from <= s.len() {
        seq![s.subrange(from, s.len() as int)]
    } else {
        seq![]
    }
}

/// The pieces of `s` between occurrences of `sep`.
pub open spec fn pieces(s: Seq<char>, sep: char) -> Seq<Seq<char>> {
    pieces_from(s, sep, 0)
}

/// `s` without one trailing carriage return, if it has one.
pub open spec fn strip_cr(s: Seq<char>) -> Seq<char> {
    if s.len() > 0 && s.last() == '\r' {
        s.drop_last()
    } else {
        s
    }
}

/// The lines of `s` starting at `from`. A line ends at a line feed; a carriage
/// return directly before that line feed belongs to the line ending. A last
/// line without a line feed is kept as it is, and no line follows a final line
/// feed.
pub open spec fn lines_from(s: Seq<char>, from: int) -> Seq<Seq<char>>
    decreases s.len() - from,
{
    let i = find_char(s, '\n', from);
    if 0 <= from <= i < s.len() {
        seq![strip_cr(s.subrange(from, i))] + lines_from(s, i + 1)
    } else if 0 <= from < s.len() {
        seq![s.subrange(from, s.len() as int)]
    } else {
        seq![]
    }
}

/// The lines of `s`.
pub open spec fn lines(s: Seq<char>) -> Seq<Seq<char>> {
    lines_from(s, 0)
}

/// White space in the sense of Unicode's `White_Space` property.
pub open spec fn is_space(c: char) -> bool {
    let n = c as u32;
    (0x09 <= n <= 0x0d) || n == 0x20 || n == 0x85 || n == 0xa0 || n == 0x1680 || (0x2000 <= n
        <= 0x200a) || n == 0x2028 || n == 0x2029 || n == 0x202f || n == 0x205f || n == 0x3000
}

/// Index of the first character at or after `from` that is white space
/// (`space` true) or is not (`space` false); `s.len()` if there is none.
pub open spec fn scan(s: Seq<char>, space: bool, from: int) -> int
    decreases s.len() - from,
{
    if from >= s.len() {
        s.len() as int
    } else if is_space(s[from]) == space {
        from
    } else {
        scan(s, space, from + 1)
    }
}

/// The maximal runs of characters that are not white space, from `from` on.
pub open spec fn words_from(s: Seq<char>, from: int) -> Seq<Seq<char>>
    decreases s.len() - from,
{
    let a = scan(s, false, from);
    let b = scan(s, true, a);
    if 0 <= from <= a < b <= s.len() {
        seq![s.subrange(a, b)] + words_from(s, b)
    } else {
        seq![]
    }
}

/// The words of `s`: its maximal runs of characters that are not white space.
pub open spec fn words(s: Seq<char>) -> Seq<Seq<char>> {
    words_from(s, 0)
}

/// One past the index of the last character before `to` that is not white
/// space; zero if there is none.
pub open spec fn last_mark(s: Seq<char>, to: int) -> int
    decreases to,
{
    if to <= 0 {
        0
    } else if to <= s.len() && !is_space(s[to - 1]) {
        to
    } else {
        last_mark(s, to - 1)
    }
}

/// `s` without the white space at its beginning and at its end.
pub open spec fn trimmed(s: Seq<char>) -> Seq<char> {
    let a = scan(s, false, 0);
    let b = last_mark(s, s.len() as int);
    if a < b <= s.len() {
        s.subrange(a, b)
    } else {
        seq![]
    }
}

/// Whether `pat` occurs in `s` at index `at`.
pub open spec fn occurs_at(s: Seq<char>, pat: Seq<char>, at: int) -> bool {
    0 <= at && at + pat.len() <= s.len() && s.subrange(at, at + pat.len()) == pat
}

/// Index of the first occurrence of `pat` in `s` at or after `from`;
/// `s.len()` if there is none.
pub open spec fn find_pattern(s: Seq<char>, pat: Seq<char>, from: int) -> int
    decreases s.len() - from,
{
    if from >= s.len() {
        s.len() as int
    } else if occurs_at(s, pat, from) {
        from
    } else {
        find_pattern(s, pat, from + 1)
    }
}

/// The pieces of `s` between successive occurrences of the non-empty pattern
/// `pat`, scanning from `from`.
pub open spec fn parts_from(s: Seq<char>, pat: Seq<char>, from: int) -> Seq<Seq<char>>
    decreases s.len() - from,
{
    let i = find_pattern(s, pat, from);
    if 0 <= from <= i < s.len() && pat.len() > 0 && i + pat.len() <= s.len() {
        seq![s.subrange(from, i)] + parts_from(s, pat, i + pat.len())
    } else if 0 <= from <= s.len() {
        seq![s.subrange(from, s.len() as int)]
    } else {
        seq![]
    }
}

/// The pieces of `s` between successive occurrences of `pat`.
pub open spec fn parts(s: Seq<char>, pat: Seq<char>) -> Seq<Seq<char>> {
    parts_from(s, pat, 0)
}

/// Whether `c` is one of the ten ASCII digits.
pub open spec fn is_digit(c: char) -> bool {
    0x30 <= c as u32 <= 0x39
}

/// The value of an ASCII digit.
pub open spec fn digit_value(c: char) -> nat {
    (c as u32 - 0x30) as nat
}

/// Whether `s` is a non-empty run of ASCII digits.
pub open spec fn all_digits(s: Seq<char>) -> bool {
    s.len() > 0 && forall|i: int| 0 <= i < s.len() ==> is_digit(#[trigger] s[i])
}

/// The number that the digits of `s` denote in base ten.
pub open spec fn decimal(s: Seq<char>) -> nat
    decreases s.len(),
{
    if s.len() == 0 {
        0
    } else {
        decimal(s.drop_last()) * 10 + digit_value(s.last())
    }
}

/// The natural number that `s` denotes: digits, with an optional leading plus sign.
pub open spec fn unsigned_of(s: Seq<char>) -> Option<nat> {
    let body = if s.len() > 0 && s[0] == '+' {
        s.skip(1)
    } else {
        s
    };
    if all_digits(body) {
        Some(decimal(body))
    } else {
        None
    }
}

/// The integer that `s` denotes: digits, with an optional leading sign.
pub open spec fn signed_of(s: Seq<char>) -> Option<int> {
    if s.len() > 0 && s[0] == '-' {
        if all_digits(s.skip(1)) {
            Some(-(decimal(s.skip(1)) as int))
        } else {
            None
        }
    } else {
        match unsigned_of(s) {
            Some(v) => Some(v as int),
            None => None,
        }
    }
}

/// The 32-bit number that `s` denotes, if it denotes one.
pub open spec fn number32(s: Seq<char>) -> Option<u32> {
    match unsigned_of(s) {
        Some(v) => if v <= u32::MAX {
            Some(v as u32)
        } else {
            None
        },
        None => None,
    }
}

/// The 64-bit number that `s` denotes, if it denotes one.
pub open spec fn number64(s: Seq<char>) -> Option<u64> {
    match unsigned_of(s) {
        Some(v) => if v <= u64::MAX {
            Some(v as u64)
        } else {
            None
        },
        None => None,
    }
}

/// The machine-word number that `s` denotes, if it denotes one.
pub open spec fn number_size(s: Seq<char>) -> Option<usize> {
    match unsigned_of(s) {
        Some(v) => if v <= usize::MAX {
            Some(v as usize)
        } else {
            None
        },
        None => None,
    }
}

/// The signed 64-bit number that `s` denotes, if it denotes one.
pub open spec fn integer64(s: Seq<char>) -> Option<i64> {
    match signed_of(s) {
        Some(v) => if i64::MIN <= v <= i64::MAX {
            Some(v as i64)
        } else {
            None
        },
        None => None,
    }
}

/// A digit string denotes at least what any of its prefixes denotes.
pub proof fn lemma_decimal_prefix(s: Seq<char>, k: int)
    requires
        0 <= k <= s.len(),
    ensures
        decimal(s.take(k)) <= decimal(s),
    decreases s.len(),
{
    if k == s.len() {
        assert(s.take(k) =~= s);
    } else {
        assert(s.drop_last().take(k) =~= s.take(k));
        lemma_decimal_prefix(s.drop_last(), k);
    }
}

/// Copies the characters of a string slice into a vector.
pub fn chars_of(s: &str) -> (out: Vec<char>)
    ensures
        out@ == s@,
{
    let mut out: Vec<char> = Vec::new();
    for c in it: s.chars()
        invariant
            out@ == it.seq().take(it.index() as int),
            it.seq() == s@,
    {
        out.push(c);
    }
    out
}

/// Copies the characters of `s` from index `from` up to, not including, `to`.
pub fn copy_range(s: &Vec<char>, from: usize, to: usize) -> (out: Vec<char>)
    requires
        from <= to <= s.len(),
    ensures
        out@ == s@.subrange(from as int, to as int),
{
    let mut out: Vec<char> = Vec::new();
    let mut i: usize = from;
    while i < to
        invariant
            from <= i <= to <= s.len(),
            out@ == s@.subrange(from as int, i as int),
        decreases to - i,
    {
        out.push(s[i]);
        i += 1;
        assert(out@ =~= s@.subrange(from as int, i as int));
    }
    out
}

/// Finds the first `c` at or after `from`.
pub fn find_from(s: &Vec<char>, c: char, from: usize) -> (i: usize)
    requires
        from <= s.len(),
    ensures
        i == find_char(s@, c, from as int),
        from <= i <= s.len(),
        i < s.len() ==> s[i as int] == c,
{
    let mut i: usize = from;
    while i < s.len() && s[i] != c
        invariant
            from <= i <= s.len(),
            find_char(s@, c, from as int) == find_char(s@, c, i as int),
        decreases s.len() - i,
    {
        i += 1;
    }
    i
}

/// Splits `s` at every occurrence of `sep`.
pub fn split_char(s: &Vec<char>, sep: char) -> (out: Vec<Vec<char>>)
    ensures
        rows(out@) == pieces(s@, sep),
{
    let mut out: Vec<Vec<char>> = Vec::new();
    let mut pos: usize = 0;
    loop
        invariant_except_break
            pos <= s.len(),
            pieces(s@, sep) == rows(out@) + pieces_from(s@, sep, pos as int),
        ensures
            rows(out@) == pieces(s@, sep),
        decreases s.len() - pos,
    {
        let i = find_from(s, sep, pos);
        let piece = copy_range(s, pos, i);
        let ghost before = out@;
        out.push(piece);
        assert(rows(out@) =~= rows(before) + seq![piece@]);
        if i >= s.len() {
            break ;
        }
        assert(pieces(s@, sep) =~= rows(out@) + pieces_from(s@, sep, i + 1));
        pos = i + 1;
    }
    out
}

/// Splits `s` into its lines.
pub fn split_lines(s: &Vec<char>) -> (out: Vec<Vec<char>>)
    ensures
        rows(out@) == lines(s@),
{
    let mut out: Vec<Vec<char>> = Vec::new();
    let mut pos: usize = 0;
    while pos < s.len()
        invariant
            pos <= s.len(),
            lines(s@) == rows(out@) + lines_from(s@, pos as int),
        decreases s.len() - pos,
    {
        let i = find_from(s, '\n', pos);
        let ghost before = out@;
        if i >= s.len() {
            let piece = copy_range(s, pos, i);
            out.push(piece);
            assert(rows(out@) =~= rows(before) + seq![piece@]);
            assert(lines_from(s@, s.len() as int) =~= seq![]);
            assert(lines(s@) =~= rows(out@) + lines_from(s@, s.len() as int));
            pos = i;
        } else {
            let end = if i > pos && s[i - 1] == '\r' {
                i - 1
            } else {
                i
            };
            let piece = copy_range(s, pos, end);
            assert(piece@ =~= strip_cr(s@.subrange(pos as int, i as int)));
            out.push(piece);
            assert(rows(out@) =~= rows(before) + seq![piece@]);
            assert(lines(s@) =~= rows(out@) + lines_from(s@, i + 1));
            pos = i + 1;
        }
    }
    assert(lines_from(s@, pos as int) =~= seq![]);
    assert(rows(out@) + Seq::<Seq<char>>::empty() =~= rows(out@));
    out
}

/// Whether `c` is white space.
pub fn is_whitespace(c: char) -> (b: bool)
    ensures
        b == is_space(c),
{
    let n: u32 = c as u32;
    (0x09 <= n && n <= 0x0d) || n == 0x20 || n == 0x85 || n == 0xa0 || n == 0x1680 || (0x2000 <= n
        && n <= 0x200a) || n == 0x2028 || n == 0x2029 || n == 0x202f || n == 0x205f || n == 0x3000
}

/// Finds the first character at or after `from` that is white space (or is
/// not, when `space` is false).
pub fn scan_from(s: &Vec<char>, space: bool, from: usize) -> (i: usize)
    requires
        from <= s.len(),
    ensures
        i == scan(s@, space, from as int),
        from <= i <= s.len(),
        i < s.len() ==> is_space(s[i as int]) == space,
{
    let mut i: usize = from;
    while i < s.len() && is_whitespace(s[i]) != space
        invariant
            from <= i <= s.len(),
            scan(s@, space, from as int) == scan(s@, space, i as int),
        decreases s.len() - i,
    {
        i += 1;
    }
    i
}

/// Splits `s` into its words.
pub fn split_words(s: &Vec<char>) -> (out: Vec<Vec<char>>)
    ensures
        rows(out@) == words(s@),
{
    let mut out: Vec<Vec<char>> = Vec::new();
    let mut pos: usize = 0;
    loop
        invariant_except_break
            pos <= s.len(),
            words(s@) == rows(out@) + words_from(s@, pos as int),
        ensures
            rows(out@) == words(s@),
        decreases s.len() - pos,
    {
        let a = scan_from(s, false, pos);
        if a >= s.len() {
            assert(words_from(s@, pos as int) =~= seq![]);
            assert(rows(out@) + Seq::<Seq<char>>::empty() =~= rows(out@));
            break ;
        }
        let b = scan_from(s, true, a);
        assert(b > a);
        let piece = copy_range(s, a, b);
        let ghost before = out@;
        out.push(piece);
        assert(rows(out@) =~= rows(before) + seq![piece@]);
        assert(words(s@) =~= rows(out@) + words_from(s@, b as int));
        pos = b;
    }
    out
}

/// Whether `pat` occurs in `s` at index `at`.
pub fn matches_at(s: &Vec<char>, pat: &Vec<char>, at: usize) -> (b: bool)
    requires
        at <= s.len(),
    ensures
        b == occurs_at(s@, pat@, at as int),
{
    if pat.len() > s.len() - at {
        return false;
    }
    let mut k: usize = 0;
    while k < pat.len()
        invariant
            at + pat.len() <= s.len(),
            k <= pat.len(),
            forall|j: int| 0 <= j < k ==> s[at + j] == pat[j],
        decreases pat.len() - k,
    {
        if s[at + k] != pat[k] {
            assert(s@.subrange(at as int, at + pat.len())[k as int] != pat@[k as int]);
            return false;
        }
        k += 1;
    }
    assert(s@.subrange(at as int, at + pat.len()) =~= pat@);
    true
}

/// Finds the first occurrence of `pat` at or after `from`.
pub fn find_pattern_from(s: &Vec<char>, pat: &Vec<char>, from: usize) -> (i: usize)
    requires
        from <= s.len(),
    ensures
        i == find_pattern(s@, pat@, from as int),
        from <= i <= s.len(),
        i < s.len() ==> occurs_at(s@, pat@, i as int),
{
    let mut i: usize = from;
    while i < s.len()
        invariant
            from <= i <= s.len(),
            find_pattern(s@, pat@, from as int) == find_pattern(s@, pat@, i as int),
        decreases s.len() - i,
    {
        if matches_at(s, pat, i) {
            return i;
        }
        i += 1;
    }
    i
}

/// Splits `s` at every occurrence of the non-empty pattern `pat`.
pub fn split_pattern(s: &Vec<char>, pat: &Vec<char>) -> (out: Vec<Vec<char>>)
    requires
        pat.len() > 0,
    ensures
        rows(out@) == parts(s@, pat@),
{
    let mut out: Vec<Vec<char>> = Vec::new();
    let mut pos: usize = 0;
    loop
        invariant_except_break
            pos <= s.len(),
            pat.len() > 0,
            parts(s@, pat@) == rows(out@) + parts_from(s@, pat@, pos as int),
        ensures
            rows(out@) == parts(s@, pat@),
        decreases s.len() - pos,
    {
        let i = find_pattern_from(s, pat, pos);
        let piece = copy_range(s, pos, i);
        let ghost before = out@;
        out.push(piece);
        assert(rows(out@) =~= rows(before) + seq![piece@]);
        if i >= s.len() {
            break ;
        }
        assert(parts(s@, pat@) =~= rows(out@) + parts_from(s@, pat@, i + pat.len()));
        pos = i + pat.len();
    }
    out
}

/// Reads the digits of `s` from index `from` to its end as a number.
/// `None` when there is no digit, when something else than a digit occurs,
/// or when the number does not fit in 64 bits.
pub fn parse_digits(s: &Vec<char>, from: usize) -> (r: Option<u64>)
    requires
        from <= s.len(),
    ensures
        r == (if all_digits(s@.skip(from as int)) && decimal(s@.skip(from as int)) <= u64::MAX {
            Some(decimal(s@.skip(from as int)) as u64)
        } else {
            None
        }),
{
    let ghost body = s@.skip(from as int);
    if from == s.len() {
        return None;
    }
    let mut acc: u64 = 0;
    let mut i: usize = from;
    while i < s.len()
        invariant
            from <= i <= s.len(),
            body == s@.skip(from as int),
            acc == decimal(body.take(i - from)),
            forall|j: int| 0 <= j < i - from ==> is_digit(#[trigger] body[j]),
        decreases s.len() - i,
    {
        let c = s[i];
        let n: u32 = c as u32;
        assert(body[i - from] == c);
        if n < 0x30 || n > 0x39 {
            return None;
        }
        let d: u64 = (n - 0x30) as u64;
        proof {
            assert(body.take(i + 1 - from).drop_last() =~= body.take(i - from));
            assert(body.take(i + 1 - from).last() == c);
            assert(decimal(body.take(i + 1 - from)) == acc * 10 + d);
            lemma_decimal_prefix(body, i + 1 - from);
        }
        if acc > (u64::MAX - d) / 10 {
            return None;
        }
        acc = acc * 10 + d;
        i += 1;
    }
    assert(body.take(i - from) =~= body);
    Some(acc)
}

/// Reads `s` as a natural number that fits in 64 bits.
pub fn parse_u64(s: &Vec<char>) -> (r: Option<u64>)
    ensures
        r == number64(s@),
{
    if s.len() > 0 && s[0] == '+' {
        parse_digits(s, 1)
    } else {
        assert(s@.skip(0) =~= s@);
        parse_digits(s, 0)
    }
}

/// Reads `s` as an integer that fits in 64 bits.
pub fn parse_i64(s: &Vec<char>) -> (r: Option<i64>)
    ensures
        r == integer64(s@),
{
    if s.len() > 0 && s[0] == '-' {
        match parse_digits(s, 1) {
            Some(m) => {
                if m <= 0x7fff_ffff_ffff_ffff {
                    Some(-(m as i64))
                } else if m == 0x8000_0000_0000_0000 {
                    Some(i64::MIN)
                } else {
                    None
                }
            },
            None => None,
        }
    } else {
        match parse_u64(s) {
            Some(m) => {
                if m <= 0x7fff_ffff_ffff_ffff {
                    Some(m as i64)
                } else {
                    None
                }
            },
            None => None,
        }
    }
}

/// Reads `s` as a natural number that fits in 32 bits.
pub fn parse_u32(s: &Vec<char>) -> (r: Option<u32>)
    ensures
        r == number32(s@),
{
    match parse_u64(s) {
        Some(v) => if v <= 0xffff_ffff {
            Some(v as u32)
        } else {
            None
        },
        None => None,
    }
}

/// Reads `s` as a natural number that fits in a machine word.
pub fn parse_usize(s: &Vec<char>) -> (r: Option<usize>)
    ensures
        r == number_size(s@),
{
    match parse_u64(s) {
        Some(v) => if v <= usize::MAX as u64 {
            Some(v as usize)
        } else {
            None
        },
        None => None,
    }
}

/// Whether two texts are the same.
pub fn same_text(a: &Vec<char>, b: &Vec<char>) -> (r: bool)
    ensures
        r == (a@ == b@),
{
    if a.len() != b.len() {
        return false;
    }
    let mut i: usize = 0;
    while i < a.len()
        invariant
            i <= a.len(),
            a.len() == b.len(),
            forall|k: int| 0 <= k < i ==> a[k] == b[k],
        decreases a.len() - i,
    {
        if a[i] != b[i] {
            return false;
        }
        i += 1;
    }
    assert(a@ =~= b@);
    true
}

/// Takes the white space off both ends of `s`.
pub fn trim(s: &Vec<char>) -> (out: Vec<char>)
    ensures
        out@ == trimmed(s@),
{
    let a = scan_from(s, false, 0);
    let mut b: usize = s.len();
    while b > 0 && is_whitespace(s[b - 1])
        invariant
            b <= s.len(),
            last_mark(s@, s.len() as int) == last_mark(s@, b as int),
        decreases b,
    {
        b -= 1;
    }
    if a < b {
        copy_range(s, a, b)
    } else {
        Vec::new()
    }
}

} // verus!
