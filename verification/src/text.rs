//! Character-level text handling: whitespace, trimming, searching, splitting
//! and decimal numbers, each stated over `Seq<char>`.
use vstd::prelude::*;

verus! {

/// `char::is_whitespace`: the characters with the Unicode `White_Space` property.
pub open spec fn is_ws(c: char) -> bool {
    let n = c as u32;
    (0x9 <= n && n <= 0xd) || n == 0x20 || n == 0x85 || n == 0xa0 || n == 0x1680
        || (0x2000 <= n && n <= 0x200a) || n == 0x2028 || n == 0x2029 || n == 0x202f
        || n == 0x205f || n == 0x3000
}

pub fn is_whitespace(c: char) -> (r: bool)
    ensures
        r == is_ws(c),
{
    let n = c as u32;
    (0x9 <= n && n <= 0xd) || n == 0x20 || n == 0x85 || n == 0xa0 || n == 0x1680
        || (0x2000 <= n && n <= 0x200a) || n == 0x2028 || n == 0x2029 || n == 0x202f
        || n == 0x205f || n == 0x3000
}

/// Appends one character to a string.
/// Calls `String::push`, which appends the given char to the end of the string.
#[verifier::external_body]
pub(crate) fn push_char(s: &mut String, c: char)
    ensures
        final(s)@ == old(s)@.push(c),
{
    s.push(c);
}

/// Removes the last character of a string.
/// Calls `String::pop`, which removes the last character and returns it, or
/// returns `None` and leaves the string alone when it is empty.
#[verifier::external_body]
pub(crate) fn pop_char(s: &mut String) -> (r: Option<char>)
    ensures
        old(s)@.len() == 0 ==> r is None && final(s)@ == old(s)@,
        old(s)@.len() > 0 ==> r == Some(old(s)@[old(s)@.len() - 1]) && final(s)@ == old(
            s,
        )@.subrange(0, old(s)@.len() - 1),
{
    s.pop()
}

/// The characters of a string slice, in order.
pub fn chars_of(s: &str) -> (v: Vec<char>)
    ensures
        v@ == s@,
{
    let mut v: Vec<char> = Vec::new();
    for c in it: s.chars()
        invariant
            v@ == it.seq().take(it.index() as int),
    {
        v.push(c);
    }
    v
}

/// A string built from the characters `v[lo..hi]`.
pub fn string_of(v: &Vec<char>, lo: usize, hi: usize) -> (s: String)
    requires
        lo <= hi <= v.len(),
    ensures
        s@ == v@.subrange(lo as int, hi as int),
{
    let mut s = String::new();
    let mut i = lo;
    while i < hi
        invariant
            lo <= i <= hi <= v.len(),
            s@ == v@.subrange(lo as int, i as int),
        decreases hi - i,
    {
        push_char(&mut s, v[i]);
        i = i + 1;
        assert(s@ =~= v@.subrange(lo as int, i as int));
    }
    s
}

/// Appends a string slice to `s`.
pub fn push_str(s: &mut String, t: &str)
    ensures
        final(s)@ == old(s)@ + t@,
{
    s.append(t);
}

/// `s` begins with `p`.
pub open spec fn starts_with(s: Seq<char>, p: Seq<char>) -> bool {
    p.len() <= s.len() && s.subrange(0, p.len() as int) == p
}

/// `s` ends with `p`.
pub open spec fn ends_with(s: Seq<char>, p: Seq<char>) -> bool {
    p.len() <= s.len() && s.subrange(s.len() - p.len(), s.len() as int) == p
}

/// `p` occurs in `s` starting at index `i`.
pub open spec fn occurs_at(s: Seq<char>, p: Seq<char>, i: int) -> bool {
    0 <= i && i + p.len() <= s.len() && s.subrange(i, i + p.len()) == p
}

/// `p` occurs somewhere in `s`.
pub open spec fn contains(s: Seq<char>, p: Seq<char>) -> bool {
    exists|i: int| occurs_at(s, p, i)
}

/// Whether `v[lo..hi]` holds the pattern `p` at offset `at`.
fn matches_at(v: &Vec<char>, lo: usize, hi: usize, at: usize, p: &Vec<char>) -> (r: bool)
    requires
        lo <= at <= hi <= v.len(),
    ensures
        r == occurs_at(v@.subrange(lo as int, hi as int), p@, at - lo),
{
    if p.len() > hi - at {
        return false;
    }
    let mut k: usize = 0;
    while k < p.len()
        invariant
            lo <= at <= hi <= v.len(),
            p.len() <= hi - at,
            k <= p.len(),
            forall|j: int| 0 <= j < k ==> v@[at + j] == p@[j],
        decreases p.len() - k,
    {
        if v[at + k] != p[k] {
            assert(v@.subrange(lo as int, hi as int).subrange(at - lo, at - lo + p.len())[k as int]
                != p@[k as int]);
            return false;
        }
        k = k + 1;
    }
    assert(v@.subrange(lo as int, hi as int).subrange(at - lo, at - lo + p.len()) =~= p@);
    true
}

/// Whether `v[lo..hi]` begins with `p`.
pub fn range_starts_with(v: &Vec<char>, lo: usize, hi: usize, p: &Vec<char>) -> (r: bool)
    requires
        lo <= hi <= v.len(),
    ensures
        r == starts_with(v@.subrange(lo as int, hi as int), p@),
{
    matches_at(v, lo, hi, lo, p)
}

/// Whether `v[lo..hi]` ends with `p`.
pub fn range_ends_with(v: &Vec<char>, lo: usize, hi: usize, p: &Vec<char>) -> (r: bool)
    requires
        lo <= hi <= v.len(),
    ensures
        r == ends_with(v@.subrange(lo as int, hi as int), p@),
{
    if p.len() > hi - lo {
        return false;
    }
    matches_at(v, lo, hi, hi - p.len(), p)
}

/// Whether `p` occurs in `v[lo..hi]`.
pub fn range_contains(v: &Vec<char>, lo: usize, hi: usize, p: &Vec<char>) -> (r: bool)
    requires
        lo <= hi <= v.len(),
    ensures
        r == contains(v@.subrange(lo as int, hi as int), p@),
{
    let ghost s = v@.subrange(lo as int, hi as int);
    if p.len() > hi - lo {
        assert forall|i: int| !occurs_at(s, p@, i) by {}
        return false;
    }
    let last = hi - p.len();
    let mut at = lo;
    loop
        invariant
            lo <= at <= last,
            last == hi - p.len(),
            p.len() <= hi - lo,
            hi <= v.len(),
            s == v@.subrange(lo as int, hi as int),
            forall|i: int| 0 <= i < at - lo ==> !occurs_at(s, p@, i),
        ensures
            forall|i: int| 0 <= i <= last - lo ==> !occurs_at(s, p@, i),
        decreases last - at,
    {
        if matches_at(v, lo, hi, at, p) {
            assert(occurs_at(s, p@, at - lo));
            return true;
        }
        if at == last {
            break;
        }
        at = at + 1;
    }
    assert forall|i: int| !occurs_at(s, p@, i) by {}
    false
}

/// `s` with leading whitespace removed (`str::trim_start`).
pub open spec fn trim_start(s: Seq<char>) -> Seq<char>
    decreases s.len(),
{
    if s.len() > 0 && is_ws(s[0]) {
        trim_start(s.subrange(1, s.len() as int))
    } else {
        s
    }
}

/// `s` with trailing whitespace removed (`str::trim_end`).
pub open spec fn trim_end(s: Seq<char>) -> Seq<char>
    decreases s.len(),
{
    if s.len() > 0 && is_ws(s[s.len() - 1]) {
        trim_end(s.subrange(0, s.len() - 1))
    } else {
        s
    }
}

/// `s` with whitespace removed at both ends (`str::trim`).
pub open spec fn trim(s: Seq<char>) -> Seq<char> {
    trim_end(trim_start(s))
}

/// The bounds of `trim(v[lo..hi])` inside `v`.
pub fn trim_range(v: &Vec<char>, lo: usize, hi: usize) -> (r: (usize, usize))
    requires
        lo <= hi <= v.len(),
    ensures
        lo <= r.0 <= r.1 <= hi,
        v@.subrange(r.0 as int, r.1 as int) == trim(v@.subrange(lo as int, hi as int)),
{
    let mut a = lo;
    while a < hi && is_whitespace(v[a])
        invariant
            lo <= a <= hi <= v.len(),
            trim_start(v@.subrange(a as int, hi as int)) == trim_start(
                v@.subrange(lo as int, hi as int),
            ),
        decreases hi - a,
    {
        assert(v@.subrange(a as int, hi as int).subrange(1, hi - a) =~= v@.subrange(
            a + 1,
            hi as int,
        ));
        a = a + 1;
    }
    let mut b = hi;
    while b > a && is_whitespace(v[b - 1])
        invariant
            lo <= a <= b <= hi <= v.len(),
            trim_end(v@.subrange(a as int, b as int)) == trim_end(v@.subrange(a as int, hi as int)),
        decreases b - a,
    {
        assert(v@.subrange(a as int, b as int).subrange(0, b - a - 1) =~= v@.subrange(
            a as int,
            b - 1,
        ));
        b = b - 1;
    }
    (a, b)
}

/// The pieces between whitespace runs, scanning with a current piece `cur`
/// (`str::split_whitespace`).
pub open spec fn words_acc(s: Seq<char>, cur: Seq<char>) -> Seq<Seq<char>>
    decreases s.len(),
{
    if s.len() == 0 {
        if cur.len() > 0 {
            seq![cur]
        } else {
            seq![]
        }
    } else if is_ws(s[0]) {
        (if cur.len() > 0 {
            seq![cur]
        } else {
            seq![]
        }) + words_acc(s.subrange(1, s.len() as int), seq![])
    } else {
        words_acc(s.subrange(1, s.len() as int), cur.push(s[0]))
    }
}

/// The whitespace-separated words of `s`, in order (`str::split_whitespace`).
pub open spec fn words(s: Seq<char>) -> Seq<Seq<char>> {
    words_acc(s, seq![])
}

/// The texts that a list of ranges of `v` denotes.
pub open spec fn pieces(v: Seq<char>, r: Seq<(usize, usize)>) -> Seq<Seq<char>> {
    Seq::new(r.len(), |j: int| v.subrange(r[j].0 as int, r[j].1 as int))
}

/// Valid ranges inside `v[lo..hi]`.
pub open spec fn ranges_within(r: Seq<(usize, usize)>, lo: int, hi: int) -> bool {
    forall|j: int| 0 <= j < r.len() ==> lo <= #[trigger] r[j].0 <= r[j].1 <= hi
}

/// The ranges of the words of `v[lo..hi]`.
pub fn word_ranges(v: &Vec<char>, lo: usize, hi: usize) -> (r: Vec<(usize, usize)>)
    requires
        lo <= hi <= v.len(),
    ensures
        ranges_within(r@, lo as int, hi as int),
        pieces(v@, r@) == words(v@.subrange(lo as int, hi as int)),
{
    let ghost full = v@.subrange(lo as int, hi as int);
    let mut r: Vec<(usize, usize)> = Vec::new();
    let mut start = lo;
    let mut i = lo;
    assert(pieces(v@, r@) =~= Seq::<Seq<char>>::empty());
    assert(v@.subrange(lo as int, lo as int) =~= Seq::<char>::empty());
    assert(Seq::<Seq<char>>::empty() + words_acc(full, seq![]) =~= words(full));
    while i < hi
        invariant
            lo <= start <= i <= hi <= v.len(),
            full == v@.subrange(lo as int, hi as int),
            ranges_within(r@, lo as int, hi as int),
            pieces(v@, r@) + words_acc(v@.subrange(i as int, hi as int), v@.subrange(start as int, i as int))
                == words(full),
        decreases hi - i,
    {
        let ghost rest = v@.subrange(i as int, hi as int);
        let ghost cur = v@.subrange(start as int, i as int);
        assert(rest.subrange(1, rest.len() as int) =~= v@.subrange(i + 1, hi as int));
        if is_whitespace(v[i]) {
            let ghost before = pieces(v@, r@);
            if start < i {
                r.push((start, i));
                assert(pieces(v@, r@) =~= before + seq![cur]);
            } else {
                assert(pieces(v@, r@) =~= before + seq![]);
            }
            assert(v@.subrange(i + 1, i + 1) =~= Seq::<char>::empty());
            i = i + 1;
            start = i;
        } else {
            assert(cur.push(v@[i as int]) =~= v@.subrange(start as int, i + 1));
            i = i + 1;
        }
    }
    let ghost cur = v@.subrange(start as int, i as int);
    let ghost before = pieces(v@, r@);
    if start < i {
        r.push((start, i));
        assert(pieces(v@, r@) =~= before + seq![cur]);
    } else {
        assert(pieces(v@, r@) =~= before + seq![]);
    }
    r
}

/// The pieces of `s` between occurrences of `c`, scanning with a current
/// piece `cur` (`str::split` by a char).
pub open spec fn split_acc(s: Seq<char>, c: char, cur: Seq<char>) -> Seq<Seq<char>>
    decreases s.len(),
{
    if s.len() == 0 {
        seq![cur]
    } else if s[0] == c {
        seq![cur] + split_acc(s.subrange(1, s.len() as int), c, seq![])
    } else {
        split_acc(s.subrange(1, s.len() as int), c, cur.push(s[0]))
    }
}

/// The pieces of `s` between occurrences of `c`; there is always at least one.
pub open spec fn split(s: Seq<char>, c: char) -> Seq<Seq<char>> {
    split_acc(s, c, seq![])
}

/// The ranges of the pieces of `v[lo..hi]` between occurrences of `c`.
pub fn split_ranges(v: &Vec<char>, lo: usize, hi: usize, c: char) -> (r: Vec<(usize, usize)>)
    requires
        lo <= hi <= v.len(),
    ensures
        ranges_within(r@, lo as int, hi as int),
        pieces(v@, r@) == split(v@.subrange(lo as int, hi as int), c),
{
    let ghost full = v@.subrange(lo as int, hi as int);
    let mut r: Vec<(usize, usize)> = Vec::new();
    let mut start = lo;
    let mut i = lo;
    assert(pieces(v@, r@) =~= Seq::<Seq<char>>::empty());
    assert(v@.subrange(lo as int, lo as int) =~= Seq::<char>::empty());
    assert(Seq::<Seq<char>>::empty() + split_acc(full, c, seq![]) =~= split(full, c));
    while i < hi
        invariant
            lo <= start <= i <= hi <= v.len(),
            full == v@.subrange(lo as int, hi as int),
            ranges_within(r@, lo as int, hi as int),
            pieces(v@, r@) + split_acc(v@.subrange(i as int, hi as int), c, v@.subrange(start as int, i as int))
                == split(full, c),
        decreases hi - i,
    {
        let ghost rest = v@.subrange(i as int, hi as int);
        let ghost cur = v@.subrange(start as int, i as int);
        assert(rest.subrange(1, rest.len() as int) =~= v@.subrange(i + 1, hi as int));
        if v[i] == c {
            let ghost before = pieces(v@, r@);
            r.push((start, i));
            assert(pieces(v@, r@) =~= before + seq![cur]);
            assert(v@.subrange(i + 1, i + 1) =~= Seq::<char>::empty());
            i = i + 1;
            start = i;
        } else {
            assert(cur.push(v@[i as int]) =~= v@.subrange(start as int, i + 1));
            i = i + 1;
        }
    }
    let ghost cur = v@.subrange(start as int, i as int);
    let ghost before = pieces(v@, r@);
    r.push((start, i));
    assert(pieces(v@, r@) =~= before + seq![cur]);
    r
}

/// The index of the first `c` in `s`, or `s.len()` when there is none.
pub open spec fn find(s: Seq<char>, c: char) -> int
    decreases s.len(),
{
    if s.len() == 0 {
        0
    } else if s[0] == c {
        0
    } else {
        1 + find(s.subrange(1, s.len() as int), c)
    }
}

/// The position of the first `c` in `v[lo..hi]`, or `hi`.
pub fn find_in(v: &Vec<char>, lo: usize, hi: usize, c: char) -> (k: usize)
    requires
        lo <= hi <= v.len(),
    ensures
        lo <= k <= hi,
        k - lo == find(v@.subrange(lo as int, hi as int), c),
{
    let mut k = lo;
    while k < hi && v[k] != c
        invariant
            lo <= k <= hi <= v.len(),
            find(v@.subrange(lo as int, hi as int), c) == (k - lo) + find(
                v@.subrange(k as int, hi as int),
                c,
            ),
        decreases hi - k,
    {
        assert(v@.subrange(k as int, hi as int).subrange(1, hi - k) =~= v@.subrange(
            k + 1,
            hi as int,
        ));
        k = k + 1;
    }
    k
}

/// `s` without one trailing carriage return.
pub open spec fn strip_cr(s: Seq<char>) -> Seq<char> {
    if s.len() > 0 && s[s.len() - 1] == '\r' {
        s.subrange(0, s.len() - 1)
    } else {
        s
    }
}

/// The lines of `s`, scanning with a current line `cur` (`str::lines`): lines
/// end at `\n`, a `\r` just before it is dropped, and a final line ending is
/// optional.
pub open spec fn lines_acc(s: Seq<char>, cur: Seq<char>) -> Seq<Seq<char>>
    decreases s.len(),
{
    if s.len() == 0 {
        if cur.len() > 0 {
            seq![cur]
        } else {
            seq![]
        }
    } else if s[0] == '\n' {
        seq![strip_cr(cur)] + lines_acc(s.subrange(1, s.len() as int), seq![])
    } else {
        lines_acc(s.subrange(1, s.len() as int), cur.push(s[0]))
    }
}

/// The lines of `s` (`str::lines`).
pub open spec fn lines(s: Seq<char>) -> Seq<Seq<char>> {
    lines_acc(s, seq![])
}

/// The ranges of the lines of `v`.
pub fn line_ranges(v: &Vec<char>) -> (r: Vec<(usize, usize)>)
    ensures
        ranges_within(r@, 0, v.len() as int),
        pieces(v@, r@) == lines(v@),
{
    let hi = v.len();
    let mut r: Vec<(usize, usize)> = Vec::new();
    let mut start: usize = 0;
    let mut i: usize = 0;
    assert(pieces(v@, r@) =~= Seq::<Seq<char>>::empty());
    assert(v@.subrange(0, 0) =~= Seq::<char>::empty());
    assert(v@.subrange(0, hi as int) =~= v@);
    assert(Seq::<Seq<char>>::empty() + lines_acc(v@, seq![]) =~= lines(v@));
    while i < hi
        invariant
            start <= i <= hi == v.len(),
            ranges_within(r@, 0, hi as int),
            pieces(v@, r@) + lines_acc(v@.subrange(i as int, hi as int), v@.subrange(start as int, i as int))
                == lines(v@),
        decreases hi - i,
    {
        let ghost rest = v@.subrange(i as int, hi as int);
        let ghost cur = v@.subrange(start as int, i as int);
        assert(rest.subrange(1, rest.len() as int) =~= v@.subrange(i + 1, hi as int));
        if v[i] == '\n' {
            let ghost before = pieces(v@, r@);
            let end = if i > start && v[i - 1] == '\r' {
                i - 1
            } else {
                i
            };
            assert(v@.subrange(start as int, end as int) =~= strip_cr(cur));
            r.push((start, end));
            assert(pieces(v@, r@) =~= before + seq![strip_cr(cur)]);
            assert(v@.subrange(i + 1, i + 1) =~= Seq::<char>::empty());
            i = i + 1;
            start = i;
        } else {
            assert(cur.push(v@[i as int]) =~= v@.subrange(start as int, i + 1));
            i = i + 1;
        }
    }
    let ghost cur = v@.subrange(start as int, i as int);
    let ghost before = pieces(v@, r@);
    if start < i {
        r.push((start, i));
        assert(pieces(v@, r@) =~= before + seq![cur]);
    } else {
        assert(pieces(v@, r@) =~= before + seq![]);
    }
    r
}

} // verus!
