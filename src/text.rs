//! Character-level building blocks: splitting on a separator, trimming
//! whitespace, reading decimal numbers, counting lines and replacing a
//! pattern.
use vstd::prelude::*;

verus! {

/// The characters of `s`, in order.
pub fn chars_of(s: &str) -> (r: Vec<char>)
    ensures
        r@ == s@,
{
    let mut r: Vec<char> = Vec::new();
    for c in it: s.chars()
        invariant
            it.seq() == s@,
            r@ == it.seq().take(it.index() as int),
    {
        r.push(c);
    }
    r
}

/// Pieces of `s` between occurrences of `sep`; there is always at least one
/// piece, and a separator at either end yields an empty piece there.
pub open spec fn split(s: Seq<char>, sep: char) -> Seq<Seq<char>>
    decreases s.len(),
{
    if s.len() == 0 {
        seq![Seq::empty()]
    } else {
        let rest = split(s.drop_last(), sep);
        if s.last() == sep {
            rest.push(Seq::empty())
        } else {
            rest.update(rest.len() - 1, rest.last().push(s.last()))
        }
    }
}

/// Splitting always yields at least one piece.
pub proof fn lemma_split_nonempty(s: Seq<char>, sep: char)
    ensures
        split(s, sep).len() >= 1,
    decreases s.len(),
{
    if s.len() > 0 {
        lemma_split_nonempty(s.drop_last(), sep);
    }
}

/// Bounds of the pieces of `cs[lo..hi]` between occurrences of `sep`.
pub fn split_bounds(cs: &Vec<char>, lo: usize, hi: usize, sep: char) -> (r: Vec<(usize, usize)>)
    requires
        lo <= hi <= cs@.len(),
    ensures
        r@.len() == split(cs@.subrange(lo as int, hi as int), sep).len(),
        forall|k: int| 0 <= k < r@.len() ==> lo <= (#[trigger] r@[k]).0 <= r@[k].1 <= hi,
        forall|k: int|
            0 <= k < r@.len() ==> #[trigger] cs@.subrange(r@[k].0 as int, r@[k].1 as int) == split(
                cs@.subrange(lo as int, hi as int),
                sep,
            )[k],
{
    let mut r: Vec<(usize, usize)> = Vec::new();
    let mut start: usize = lo;
    let mut i: usize = lo;
    while i < hi
        invariant
            lo <= start <= i <= hi <= cs@.len(),
            r@.len() + 1 == split(cs@.subrange(lo as int, i as int), sep).len(),
            split(cs@.subrange(lo as int, i as int), sep).last() == cs@.subrange(
                start as int,
                i as int,
            ),
            forall|k: int| 0 <= k < r@.len() ==> lo <= (#[trigger] r@[k]).0 <= r@[k].1 <= i,
            forall|k: int|
                0 <= k < r@.len() ==> #[trigger] cs@.subrange(r@[k].0 as int, r@[k].1 as int)
                    == split(cs@.subrange(lo as int, i as int), sep)[k],
        decreases hi - i,
    {
        let ghost before = split(cs@.subrange(lo as int, i as int), sep);
        proof {
            lemma_split_nonempty(cs@.subrange(lo as int, i as int), sep);
            assert(cs@.subrange(lo as int, i + 1).drop_last() =~= cs@.subrange(lo as int, i as int));
            assert(cs@.subrange(lo as int, i + 1).last() == cs@[i as int]);
        }
        let ghost old_r = r@;
        let ghost old_start = start;
        if cs[i] == sep {
            r.push((start, i));
            start = i + 1;
            assert(cs@.subrange(start as int, i + 1) =~= Seq::<char>::empty());
            assert(split(cs@.subrange(lo as int, i + 1), sep) == before.push(Seq::empty()));
        } else {
            assert(split(cs@.subrange(lo as int, i + 1), sep) == before.update(
                before.len() - 1,
                before.last().push(cs@[i as int]),
            ));
            assert(cs@.subrange(start as int, i + 1) =~= cs@.subrange(start as int, i as int).push(
                cs@[i as int],
            ));
        }
        let ghost after = split(cs@.subrange(lo as int, i + 1), sep);
        assert forall|k: int| 0 <= k < r@.len() implies #[trigger] cs@.subrange(
            r@[k].0 as int,
            r@[k].1 as int,
        ) == after[k] by {
            if k < old_r.len() {
                assert(r@[k] == old_r[k]);
                assert(after[k] == before[k]);
            } else {
                assert(r@[k] == (old_start, i));
                assert(after[k] == before.last());
            }
        }
        i = i + 1;
    }
    proof {
        lemma_split_nonempty(cs@.subrange(lo as int, hi as int), sep);
    }
    let ghost old_r = r@;
    let ghost whole = split(cs@.subrange(lo as int, hi as int), sep);
    assert(whole.last() == cs@.subrange(start as int, i as int));
    r.push((start, i));
    assert forall|k: int| 0 <= k < r@.len() implies #[trigger] cs@.subrange(
        r@[k].0 as int,
        r@[k].1 as int,
    ) == whole[k] by {
        if k < old_r.len() {
            assert(r@[k] == old_r[k]);
        } else {
            assert(r@[k] == (start, i));
        }
    }
    r
}

/// Unicode `White_Space`, the set that `char::is_whitespace` tests.
pub open spec fn is_space(c: char) -> bool {
    let n: u32 = c as u32;
    (0x09 <= n <= 0x0d) || n == 0x20 || n == 0x85 || n == 0xa0 || n == 0x1680 || (0x2000 <= n
        <= 0x200a) || n == 0x2028 || n == 0x2029 || n == 0x202f || n == 0x205f || n == 0x3000
}

/// Whether `c` is whitespace.
pub fn is_space_char(c: char) -> (r: bool)
    ensures
        r == is_space(c),
{
    let n: u32 = c as u32;
    (0x09 <= n && n <= 0x0d) || n == 0x20 || n == 0x85 || n == 0xa0 || n == 0x1680 || (0x2000 <= n
        && n <= 0x200a) || n == 0x2028 || n == 0x2029 || n == 0x202f || n == 0x205f || n == 0x3000
}

/// `s` without leading whitespace.
pub open spec fn trim_start(s: Seq<char>) -> Seq<char>
    decreases s.len(),
{
    if s.len() > 0 && is_space(s[0]) {
        trim_start(s.drop_first())
    } else {
        s
    }
}

/// `s` without trailing whitespace.
pub open spec fn trim_end(s: Seq<char>) -> Seq<char>
    decreases s.len(),
{
    if s.len() > 0 && is_space(s.last()) {
        trim_end(s.drop_last())
    } else {
        s
    }
}

/// `s` without leading and trailing whitespace.
pub open spec fn trim(s: Seq<char>) -> Seq<char> {
    trim_end(trim_start(s))
}

/// Bounds of `cs[lo..hi]` with leading and trailing whitespace left out.
pub fn trim_bounds(cs: &Vec<char>, lo: usize, hi: usize) -> (r: (usize, usize))
    requires
        lo <= hi <= cs@.len(),
    ensures
        lo <= r.0 <= r.1 <= hi,
        cs@.subrange(r.0 as int, r.1 as int) == trim(cs@.subrange(lo as int, hi as int)),
{
    let mut a: usize = lo;
    while a < hi && is_space_char(cs[a])
        invariant
            lo <= a <= hi <= cs@.len(),
            trim_start(cs@.subrange(lo as int, hi as int)) == trim_start(
                cs@.subrange(a as int, hi as int),
            ),
        decreases hi - a,
    {
        assert(cs@.subrange(a as int, hi as int).drop_first() =~= cs@.subrange(a + 1, hi as int));
        a = a + 1;
    }
    let mut b: usize = hi;
    while a < b && is_space_char(cs[b - 1])
        invariant
            lo <= a <= b <= hi <= cs@.len(),
            trim_end(cs@.subrange(a as int, hi as int)) == trim_end(cs@.subrange(a as int, b as int)),
        decreases b - a,
    {
        assert(cs@.subrange(a as int, b as int).drop_last() =~= cs@.subrange(a as int, b - 1));
        b = b - 1;
    }
    (a, b)
}

/// An ASCII decimal digit.
pub open spec fn is_digit(c: char) -> bool {
    '0' <= c <= '9'
}

/// The value of a decimal digit.
pub open spec fn digit_value(c: char) -> nat {
    (c as u32 - '0' as u32) as nat
}

/// The number written by the decimal digits `s`, most significant first.
pub open spec fn decimal_value(s: Seq<char>) -> nat
    decreases s.len(),
{
    if s.len() == 0 {
        0
    } else {
        decimal_value(s.drop_last()) * 10 + digit_value(s.last())
    }
}

/// A non-empty run of decimal digits.
pub open spec fn is_decimal(s: Seq<char>) -> bool {
    s.len() > 0 && forall|i: int| 0 <= i < s.len() ==> is_digit(#[trigger] s[i])
}

/// The `usize` that the digits `s` write, if they write one that fits.
pub open spec fn digits_usize(s: Seq<char>) -> Option<usize> {
    if is_decimal(s) && decimal_value(s) <= usize::MAX {
        Some(decimal_value(s) as usize)
    } else {
        None
    }
}

/// `s` without one leading `+`, if it has one.
pub open spec fn unsigned_part(s: Seq<char>) -> Seq<char> {
    if s.len() > 0 && s[0] == '+' {
        s.drop_first()
    } else {
        s
    }
}

/// The `usize` that `s` writes, in the format `str::parse::<usize>` reads:
/// an optional `+` followed by decimal digits, the value fitting in `usize`.
pub open spec fn parse_usize(s: Seq<char>) -> Option<usize> {
    digits_usize(unsigned_part(s))
}

proof fn lemma_decimal_prefix(s: Seq<char>, k: int)
    requires
        0 <= k <= s.len(),
    ensures
        decimal_value(s.take(k)) <= decimal_value(s),
    decreases s.len() - k,
{
    if k < s.len() {
        lemma_decimal_prefix(s, k + 1);
        assert(s.take(k + 1).drop_last() =~= s.take(k));
    } else {
        assert(s.take(k) =~= s);
    }
}

/// Reads `cs[lo..hi]` as an optional `+` and a decimal `usize`.
pub fn parse_usize_at(cs: &Vec<char>, lo: usize, hi: usize) -> (r: Option<usize>)
    requires
        lo <= hi <= cs@.len(),
    ensures
        r == parse_usize(cs@.subrange(lo as int, hi as int)),
{
    if lo < hi && cs[lo] == '+' {
        assert(cs@.subrange(lo as int, hi as int).drop_first() =~= cs@.subrange(lo + 1, hi as int));
        parse_digits_at(cs, lo + 1, hi)
    } else {
        parse_digits_at(cs, lo, hi)
    }
}

/// Reads the digits `cs[lo..hi]` as a `usize`.
fn parse_digits_at(cs: &Vec<char>, lo: usize, hi: usize) -> (r: Option<usize>)
    requires
        lo <= hi <= cs@.len(),
    ensures
        r == digits_usize(cs@.subrange(lo as int, hi as int)),
{
    let ghost s = cs@.subrange(lo as int, hi as int);
    if lo == hi {
        return None;
    }
    let mut v: u128 = 0;
    let mut j: usize = lo;
    while j < hi
        invariant
            lo <= j <= hi <= cs@.len(),
            s == cs@.subrange(lo as int, hi as int),
            v == decimal_value(s.take(j - lo)),
            v <= usize::MAX,
            forall|i: int| 0 <= i < j - lo ==> is_digit(#[trigger] s[i]),
        decreases hi - j,
    {
        let c = cs[j];
        if !('0' <= c && c <= '9') {
            assert(!is_digit(s[j - lo]));
            return None;
        }
        let d: u128 = (c as u32 - '0' as u32) as u128;
        proof {
            assert(s.take(j + 1 - lo).drop_last() =~= s.take(j - lo));
            assert(s.take(j + 1 - lo).last() == c);
        }
        v = v * 10 + d;
        j = j + 1;
        if v > usize::MAX as u128 {
            proof {
                lemma_decimal_prefix(s, j - lo);
            }
            return None;
        }
    }
    proof {
        assert(s.take(hi - lo) =~= s);
    }
    Some(v as usize)
}

/// An owned copy of the characters `lo..hi` of `s`.
pub fn piece(s: &str, lo: usize, hi: usize) -> (r: String)
    requires
        lo <= hi <= s@.len(),
    ensures
        r@ == s@.subrange(lo as int, hi as int),
{
    String::from_str(s.substring_char(lo, hi))
}

/// `s` with every occurrence of `pat` replaced by `w`, occurrences taken
/// from left to right without overlap.
pub open spec fn replace_all(s: Seq<char>, pat: Seq<char>, w: Seq<char>) -> Seq<char>
    decreases s.len(),
{
    if pat.len() == 0 || s.len() < pat.len() {
        s
    } else if s.take(pat.len() as int) == pat {
        w + replace_all(s.skip(pat.len() as int), pat, w)
    } else {
        seq![s[0]] + replace_all(s.skip(1), pat, w)
    }
}

/// `pat` occurs in `s` at position `i`.
pub open spec fn occurs_at(s: Seq<char>, pat: Seq<char>, i: int) -> bool {
    0 <= i && i + pat.len() <= s.len() && s.subrange(i, i + pat.len()) == pat
}

/// `pat` occurs somewhere in `s`.
pub open spec fn contains(s: Seq<char>, pat: Seq<char>) -> bool {
    exists|i: int| occurs_at(s, pat, i)
}

/// Whether `pat` occurs in `cs` at position `i`.
pub fn occurs_at_exec(cs: &Vec<char>, pat: &Vec<char>, i: usize) -> (r: bool)
    ensures
        r == occurs_at(cs@, pat@, i as int),
{
    if i > cs.len() || pat.len() > cs.len() - i {
        return false;
    }
    let mut j: usize = 0;
    while j < pat.len()
        invariant
            i + pat@.len() <= cs@.len(),
            i + pat.len() <= cs.len(),
            0 <= j <= pat@.len(),
            forall|k: int| 0 <= k < j ==> cs@[i + k] == pat@[k],
        decreases pat.len() - j,
    {
        if cs[i + j] != pat[j] {
            assert(cs@.subrange(i as int, i + pat@.len())[j as int] != pat@[j as int]);
            return false;
        }
        j = j + 1;
    }
    assert(cs@.subrange(i as int, i + pat@.len()) =~= pat@);
    true
}

/// Whether `pat` occurs anywhere in `cs`.
pub fn contains_exec(cs: &Vec<char>, pat: &Vec<char>) -> (r: bool)
    ensures
        r == contains(cs@, pat@),
{
    let mut i: usize = 0;
    while i < cs.len()
        invariant
            0 <= i <= cs@.len(),
            forall|k: int| 0 <= k < i ==> !occurs_at(cs@, pat@, k),
        decreases cs.len() - i,
    {
        if occurs_at_exec(cs, pat, i) {
            return true;
        }
        i = i + 1;
    }
    if occurs_at_exec(cs, pat, i) {
        return true;
    }
    assert forall|k: int| !occurs_at(cs@, pat@, k) by {
        if 0 <= k <= i {
        }
    }
    false
}

/// `s` with every occurrence of the non-empty `pat` replaced by `w`.
pub fn replace_all_exec(s: &str, pat: &Vec<char>, w: &str) -> (r: String)
    requires
        pat@.len() > 0,
    ensures
        r@ == replace_all(s@, pat@, w@),
{
    let cs = chars_of(s);
    let mut out = String::new();
    let mut i: usize = 0;
    assert(cs@.skip(0) =~= cs@);
    assert(out@ + replace_all(cs@, pat@, w@) =~= replace_all(cs@, pat@, w@));
    while i < cs.len()
        invariant
            cs@ == s@,
            pat@.len() > 0,
            0 <= i <= cs@.len(),
            out@ + replace_all(cs@.skip(i as int), pat@, w@) == replace_all(cs@, pat@, w@),
        decreases cs.len() - i,
    {
        let ghost rest = cs@.skip(i as int);
        if occurs_at_exec(&cs, pat, i) {
            assert(rest.take(pat@.len() as int) =~= cs@.subrange(i as int, i + pat@.len()));
            assert(rest.skip(pat@.len() as int) =~= cs@.skip(i + pat@.len()));
            let ghost tail = replace_all(cs@.skip(i + pat@.len()), pat@, w@);
            assert(out@ + (w@ + tail) =~= (out@ + w@) + tail);
            out.append(w);
            i = i + pat.len();
        } else {
            proof {
                assert(rest.skip(1) =~= cs@.skip(i + 1));
                if rest.len() >= pat@.len() {
                    assert(rest.take(pat@.len() as int) =~= cs@.subrange(i as int, i + pat@.len()));
                } else {
                    assert(replace_all(rest.skip(1), pat@, w@) == rest.skip(1));
                    assert(rest =~= seq![rest[0]] + rest.skip(1));
                }
            }
            let ghost tail = replace_all(cs@.skip(i + 1), pat@, w@);
            assert(out@ + (seq![cs@[i as int]] + tail) =~= (out@ + seq![cs@[i as int]]) + tail);
            out.append(s.substring_char(i, i + 1));
            assert(s@.subrange(i as int, i + 1) =~= seq![cs@[i as int]]);
            i = i + 1;
        }
    }
    assert(cs@.skip(i as int) =~= Seq::<char>::empty());
    assert(out@ + Seq::<char>::empty() =~= out@);
    out
}

/// Number of `'\n'` characters in `s`.
pub open spec fn newline_count(s: Seq<char>) -> nat
    decreases s.len(),
{
    if s.len() == 0 {
        0
    } else {
        newline_count(s.drop_last()) + if s.last() == '\n' {
            1nat
        } else {
            0nat
        }
    }
}

/// Number of lines of `s`: each `'\n'` ends one, and a last line without
/// a terminator counts too; the empty text has none.
pub open spec fn line_count(s: Seq<char>) -> nat {
    newline_count(s) + if s.len() > 0 && s.last() != '\n' {
        1nat
    } else {
        0nat
    }
}

proof fn lemma_newline_count_bound(s: Seq<char>)
    ensures
        newline_count(s) <= s.len(),
    decreases s.len(),
{
    if s.len() > 0 {
        lemma_newline_count_bound(s.drop_last());
    }
}

/// Counts the lines of `s`, as `str::lines` yields them.
pub fn line_count_exec(s: &str) -> (r: usize)
    ensures
        r == line_count(s@),
{
    let cs = chars_of(s);
    let mut n: usize = 0;
    let mut i: usize = 0;
    while i < cs.len()
        invariant
            cs@ == s@,
            0 <= i <= cs@.len(),
            n == newline_count(cs@.take(i as int)),
        decreases cs.len() - i,
    {
        assert(cs@.take(i + 1).drop_last() =~= cs@.take(i as int));
        proof {
            lemma_newline_count_bound(cs@.take(i as int));
        }
        if cs[i] == '\n' {
            n = n + 1;
        }
        i = i + 1;
    }
    assert(cs@.take(i as int) =~= cs@);
    if cs.len() > 0 && cs[cs.len() - 1] != '\n' {
        proof {
            lemma_newline_count_bound(cs@.drop_last());
            assert(newline_count(cs@) <= cs@.len() - 1);
        }
        n = n + 1;
    }
    n
}

/// Text without the separator is a single piece.
pub proof fn lemma_split_without_sep(s: Seq<char>, sep: char)
    requires
        forall|i: int| 0 <= i < s.len() ==> s[i] != sep,
    ensures
        split(s, sep) == seq![s],
    decreases s.len(),
{
    if s.len() > 0 {
        lemma_split_without_sep(s.drop_last(), sep);
        assert(s.drop_last().push(s.last()) =~= s);
        assert(seq![s.drop_last()].update(0, s) =~= seq![s]);
    } else {
        assert(s =~= Seq::<char>::empty());
    }
}

/// Appending text without the separator extends the last piece.
pub proof fn lemma_split_extend_last(p: Seq<char>, s: Seq<char>, sep: char)
    requires
        forall|i: int| 0 <= i < s.len() ==> s[i] != sep,
    ensures
        split(p + s, sep) == split(p, sep).update(
            split(p, sep).len() - 1,
            split(p, sep).last() + s,
        ),
    decreases s.len(),
{
    lemma_split_nonempty(p, sep);
    if s.len() == 0 {
        assert(p + s =~= p);
        assert(split(p, sep).last() + s =~= split(p, sep).last());
        assert(split(p, sep).update(split(p, sep).len() - 1, split(p, sep).last()) =~= split(p, sep));
    } else {
        lemma_split_extend_last(p, s.drop_last(), sep);
        assert((p + s).drop_last() =~= p + s.drop_last());
        assert((p + s).last() == s.last());
        assert((split(p, sep).last() + s.drop_last()).push(s.last()) =~= split(p, sep).last() + s);
        let a = split(p, sep);
        let b = a.update(a.len() - 1, a.last() + s.drop_last());
        assert(b.update(b.len() - 1, b.last().push(s.last())) =~= a.update(
            a.len() - 1,
            a.last() + s,
        ));
    }
}

/// A number that `parse_usize` reads has no whitespace at either end.
pub proof fn lemma_trim_number(s: Seq<char>)
    requires
        parse_usize(s) is Some,
    ensures
        trim(s) == s,
{
    let u = unsigned_part(s);
    assert(is_decimal(u));
    if s[0] == '+' {
        assert(!is_space(s[0]));
        assert(u[u.len() - 1] == s.last());
    } else {
        assert(is_digit(u[0]));
    }
    assert(is_digit(u[u.len() - 1]));
    assert(trim_start(s) == s);
}

/// The pieces of `s` around the occurrences of `pat` that `replace_all`
/// replaces: one more piece than occurrences.
pub open spec fn split_on(s: Seq<char>, pat: Seq<char>) -> Seq<Seq<char>>
    decreases s.len(),
{
    if pat.len() == 0 || s.len() < pat.len() {
        seq![s]
    } else if s.take(pat.len() as int) == pat {
        seq![Seq::empty()] + split_on(s.skip(pat.len() as int), pat)
    } else {
        let r = split_on(s.skip(1), pat);
        r.update(0, seq![s[0]] + r[0])
    }
}

/// The pieces `ps` with `sep` between each two neighbours.
pub open spec fn join(ps: Seq<Seq<char>>, sep: Seq<char>) -> Seq<char>
    decreases ps.len(),
{
    if ps.len() == 0 {
        Seq::empty()
    } else if ps.len() == 1 {
        ps[0]
    } else {
        ps[0] + sep + join(ps.skip(1), sep)
    }
}

/// There is always at least one piece.
pub proof fn lemma_split_on_nonempty(s: Seq<char>, pat: Seq<char>)
    ensures
        split_on(s, pat).len() >= 1,
    decreases s.len(),
{
    if pat.len() > 0 && s.len() >= pat.len() {
        if s.take(pat.len() as int) == pat {
            lemma_split_on_nonempty(s.skip(pat.len() as int), pat);
        } else {
            lemma_split_on_nonempty(s.skip(1), pat);
        }
    }
}

/// Replacing is cutting at the occurrences and joining with the word.
pub proof fn lemma_replace_all_is_join(s: Seq<char>, pat: Seq<char>, w: Seq<char>)
    requires
        pat.len() > 0,
    ensures
        replace_all(s, pat, w) == join(split_on(s, pat), w),
    decreases s.len(),
{
    if s.len() >= pat.len() {
        if s.take(pat.len() as int) == pat {
            let rest = s.skip(pat.len() as int);
            let r = split_on(rest, pat);
            lemma_replace_all_is_join(rest, pat, w);
            lemma_split_on_nonempty(rest, pat);
            let ps = seq![Seq::<char>::empty()] + r;
            assert(ps.skip(1) =~= r);
            assert(join(ps, w) == ps[0] + w + join(ps.skip(1), w));
            assert(Seq::<char>::empty() + w + join(r, w) =~= w + join(r, w));
        } else {
            let rest = s.skip(1);
            let r = split_on(rest, pat);
            lemma_replace_all_is_join(rest, pat, w);
            lemma_split_on_nonempty(rest, pat);
            let ps = r.update(0, seq![s[0]] + r[0]);
            if r.len() == 1 {
                assert(join(r, w) == r[0]);
            } else {
                assert(ps.skip(1) =~= r.skip(1));
                assert(seq![s[0]] + (r[0] + w + join(r.skip(1), w)) =~= (seq![s[0]] + r[0]) + w
                    + join(r.skip(1), w));
            }
        }
    }
}

/// Replacing each occurrence by itself changes nothing.
pub proof fn lemma_replace_all_by_itself(s: Seq<char>, pat: Seq<char>)
    ensures
        replace_all(s, pat, pat) == s,
    decreases s.len(),
{
    if pat.len() > 0 && s.len() >= pat.len() {
        if s.take(pat.len() as int) == pat {
            lemma_replace_all_by_itself(s.skip(pat.len() as int), pat);
            assert(pat + s.skip(pat.len() as int) =~= s);
        } else {
            lemma_replace_all_by_itself(s.skip(1), pat);
            assert(seq![s[0]] + s.skip(1) =~= s);
        }
    }
}

/// Each replaced occurrence changes the length by `|w| - |pat|`.
pub proof fn lemma_replace_all_len(s: Seq<char>, pat: Seq<char>, w: Seq<char>)
    requires
        pat.len() > 0,
    ensures
        replace_all(s, pat, w).len() == s.len() + (split_on(s, pat).len() - 1) * (w.len()
            - pat.len()),
    decreases s.len(),
{
    if s.len() >= pat.len() {
        if s.take(pat.len() as int) == pat {
            let rest = s.skip(pat.len() as int);
            lemma_replace_all_len(rest, pat, w);
            let k = split_on(rest, pat).len() - 1;
            let d = w.len() - pat.len();
            assert(split_on(s, pat).len() == k + 2);
            assert(replace_all(s, pat, w).len() == w.len() + replace_all(rest, pat, w).len());
            assert(replace_all(rest, pat, w).len() == rest.len() + k * d);
            assert((k + 1) * d == k * d + d) by (nonlinear_arith);
        } else {
            lemma_replace_all_len(s.skip(1), pat, w);
            lemma_split_on_nonempty(s.skip(1), pat);
            assert(split_on(s, pat).len() == split_on(s.skip(1), pat).len());
            assert(replace_all(s, pat, w).len() == 1 + replace_all(s.skip(1), pat, w).len());
        }
    } else {
        assert(split_on(s, pat).len() == 1);
    }
}

/// An occurrence anywhere means at least one is replaced.
pub proof fn lemma_occurrence_is_cut(s: Seq<char>, pat: Seq<char>, i: int)
    requires
        pat.len() > 0,
        occurs_at(s, pat, i),
    ensures
        split_on(s, pat).len() >= 2,
    decreases s.len(),
{
    if s.take(pat.len() as int) == pat {
        lemma_split_on_nonempty(s.skip(pat.len() as int), pat);
    } else {
        assert(i != 0) by {
            if i == 0 {
                assert(s.subrange(0, pat.len() as int) =~= s.take(pat.len() as int));
            }
        }
        assert(s.skip(1).subrange(i - 1, i - 1 + pat.len()) =~= s.subrange(i, i + pat.len()));
        lemma_occurrence_is_cut(s.skip(1), pat, i - 1);
    }
}

} // verus!
