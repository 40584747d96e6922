//! Character-level helpers shared by the configuration parser and the
//! commit message formatter: whitespace classification, trimming, line
//! splitting, single-pair replacement, and conversions between `&str`
//! and `Vec<char>`.

use vstd::prelude::*;
use vstd::string::*;

verus! {

/// The Unicode `White_Space` code points, the set `char::is_whitespace`
/// recognizes.
pub open spec fn is_white(c: char) -> bool {
    c == '\u{0009}' || c == '\u{000A}' || c == '\u{000B}' || c == '\u{000C}'
        || c == '\u{000D}' || c == '\u{0020}' || c == '\u{0085}' || c == '\u{00A0}'
        || c == '\u{1680}' || c == '\u{2000}' || c == '\u{2001}' || c == '\u{2002}'
        || c == '\u{2003}' || c == '\u{2004}' || c == '\u{2005}' || c == '\u{2006}'
        || c == '\u{2007}' || c == '\u{2008}' || c == '\u{2009}' || c == '\u{200A}'
        || c == '\u{2028}' || c == '\u{2029}' || c == '\u{202F}' || c == '\u{205F}'
        || c == '\u{3000}'
}

/// Executable whitespace test, equal to `is_white`.
pub fn white(c: char) -> (r: bool)
    ensures
        r == is_white(c),
{
    c == '\u{0009}' || c == '\u{000A}' || c == '\u{000B}' || c == '\u{000C}'
        || c == '\u{000D}' || c == '\u{0020}' || c == '\u{0085}' || c == '\u{00A0}'
        || c == '\u{1680}' || c == '\u{2000}' || c == '\u{2001}' || c == '\u{2002}'
        || c == '\u{2003}' || c == '\u{2004}' || c == '\u{2005}' || c == '\u{2006}'
        || c == '\u{2007}' || c == '\u{2008}' || c == '\u{2009}' || c == '\u{200A}'
        || c == '\u{2028}' || c == '\u{2029}' || c == '\u{202F}' || c == '\u{205F}'
        || c == '\u{3000}'
}

/// The characters of a string slice as a vector.
pub fn str_to_chars(s: &str) -> (v: Vec<char>)
    ensures
        v@ == s@,
{
    let n = s.unicode_len();
    let mut v: Vec<char> = Vec::new();
    let mut i: usize = 0;
    while i < n
        invariant
            n == s@.len(),
            i <= n,
            v@ == s@.subrange(0, i as int),
        decreases n - i,
    {
        v.push(s.get_char(i));
        i = i + 1;
        proof {
            assert(v@ =~= s@.subrange(0, i as int));
        }
    }
    proof {
        assert(v@ =~= s@);
    }
    v
}

/// Relies on `Iterator::collect` for `String`: collecting chars yields the
/// string with exactly those chars.
#[verifier::external_body]
pub fn chars_to_string(v: &Vec<char>) -> (r: String)
    ensures
        r@ == v@,
{
    v.iter().collect()
}

/// Character-by-character string equality.
pub fn str_eq(a: &str, b: &str) -> (r: bool)
    ensures
        r == (a@ == b@),
{
    let na = a.unicode_len();
    let nb = b.unicode_len();
    if na != nb {
        proof {
            assert(a@.len() != b@.len());
        }
        return false;
    }
    let mut i: usize = 0;
    while i < na
        invariant
            na == a@.len(),
            na == b@.len(),
            i <= na,
            forall|j: int| 0 <= j < i ==> a@[j] == b@[j],
        decreases na - i,
    {
        if a.get_char(i) != b.get_char(i) {
            return false;
        }
        i = i + 1;
    }
    proof {
        assert(a@ =~= b@);
    }
    true
}

/// Index of the first occurrence of `c` in `s` at or after `from`, or
/// `s.len()` if there is none.
pub open spec fn find_from(s: Seq<char>, c: char, from: int) -> int
    decreases s.len() - from,
{
    if from < 0 || from >= s.len() {
        s.len() as int
    } else if s[from] == c {
        from
    } else {
        find_from(s, c, from + 1)
    }
}

pub proof fn lemma_find_from(s: Seq<char>, c: char, from: int)
    requires
        0 <= from <= s.len(),
    ensures
        from <= find_from(s, c, from) <= s.len(),
        forall|j: int| from <= j < find_from(s, c, from) ==> s[j] != c,
        find_from(s, c, from) < s.len() ==> s[find_from(s, c, from)] == c,
    decreases s.len() - from,
{
    if from < s.len() && s[from] != c {
        lemma_find_from(s, c, from + 1);
    }
}

/// Index of the first occurrence of `c` in `v`, or `v.len()` if none.
pub fn find_char(v: &Vec<char>, c: char) -> (r: usize)
    ensures
        r as int == find_from(v@, c, 0),
{
    let n = v.len();
    let mut i: usize = 0;
    while i < n
        invariant
            n == v@.len(),
            i <= n,
            find_from(v@, c, 0) == find_from(v@, c, i as int),
        decreases n - i,
    {
        if v[i] == c {
            return i;
        }
        i = i + 1;
    }
    i
}

/// `s` with leading whitespace removed.
pub open spec fn spec_trim_start(s: Seq<char>) -> Seq<char>
    decreases s.len(),
{
    if s.len() > 0 && is_white(s[0]) {
        spec_trim_start(s.skip(1))
    } else {
        s
    }
}

/// `s` with trailing whitespace removed.
pub open spec fn spec_trim_end(s: Seq<char>) -> Seq<char>
    decreases s.len(),
{
    if s.len() > 0 && is_white(s.last()) {
        spec_trim_end(s.drop_last())
    } else {
        s
    }
}

/// `s` with leading and trailing whitespace removed, as `str::trim`
/// produces it.
pub open spec fn spec_trim(s: Seq<char>) -> Seq<char> {
    spec_trim_end(spec_trim_start(s))
}

/// The trimmed copy of `v`.
pub fn trimmed(v: &Vec<char>) -> (r: Vec<char>)
    ensures
        r@ == spec_trim(v@),
{
    let n = v.len();
    let mut a: usize = 0;
    proof {
        assert(v@.skip(0) =~= v@);
    }
    while a < n && white(v[a])
        invariant
            n == v@.len(),
            a <= n,
            spec_trim_start(v@) == spec_trim_start(v@.skip(a as int)),
        decreases n - a,
    {
        proof {
            assert(v@.skip(a as int).skip(1) =~= v@.skip(a as int + 1));
        }
        a = a + 1;
    }
    proof {
        assert(spec_trim_start(v@) =~= v@.skip(a as int));
    }
    let mut b: usize = n;
    while b > a && white(v[b - 1])
        invariant
            n == v@.len(),
            a <= b <= n,
            spec_trim_start(v@) == v@.skip(a as int),
            spec_trim_end(v@.skip(a as int)) == spec_trim_end(v@.subrange(a as int, b as int)),
        decreases b,
    {
        proof {
            assert(v@.subrange(a as int, b as int).drop_last() =~= v@.subrange(
                a as int,
                b as int - 1,
            ));
        }
        b = b - 1;
    }
    proof {
        assert(spec_trim(v@) =~= v@.subrange(a as int, b as int));
    }
    let mut r: Vec<char> = Vec::new();
    let mut i: usize = a;
    while i < b
        invariant
            a <= i <= b <= n,
            n == v@.len(),
            r@ == v@.subrange(a as int, i as int),
        decreases b - i,
    {
        r.push(v[i]);
        i = i + 1;
        proof {
            assert(r@ =~= v@.subrange(a as int, i as int));
        }
    }
    proof {
        assert(r@ == spec_trim(v@));
    }
    r
}


/// Trimming keeps a string that starts with a non-whitespace character
/// non-empty.
pub proof fn lemma_trim_end_keeps_head(s: Seq<char>)
    requires
        s.len() > 0,
        !is_white(s[0]),
    ensures
        spec_trim_end(s).len() > 0,
        spec_trim_end(s)[0] == s[0],
    decreases s.len(),
{
    if is_white(s.last()) {
        assert(s.drop_last()[0] == s[0]);
        lemma_trim_end_keeps_head(s.drop_last());
    }
}

/// A string that starts with a non-whitespace character trims to a
/// non-empty string.
pub proof fn lemma_trim_nonwhite_head(s: Seq<char>)
    requires
        s.len() > 0,
        !is_white(s[0]),
    ensures
        spec_trim(s).len() > 0,
        spec_trim(s)[0] == s[0],
{
    assert(spec_trim_start(s) == s);
    lemma_trim_end_keeps_head(s);
}

/// A line with a single trailing carriage return removed, as `str::lines`
/// strips it before a line feed.
pub open spec fn chop_cr(s: Seq<char>) -> Seq<char> {
    if s.len() > 0 && s.last() == '\r' {
        s.drop_last()
    } else {
        s
    }
}

/// The lines of `s`, split at line feeds, each with a carriage return
/// before the line feed removed, without a trailing empty line: the
/// splitting `str::lines` performs.
pub open spec fn spec_lines(s: Seq<char>) -> Seq<Seq<char>>
    decreases s.len(),
    via spec_lines_decreases
{
    if s.len() == 0 {
        Seq::empty()
    } else {
        let i = find_from(s, '\n', 0);
        if i == s.len() {
            seq![s]
        } else {
            seq![chop_cr(s.take(i))] + spec_lines(s.skip(i + 1))
        }
    }
}

#[via_fn]
proof fn spec_lines_decreases(s: Seq<char>) {
    if s.len() > 0 {
        lemma_find_from(s, '\n', 0);
    }
}

/// The views of a sequence of character vectors.
pub open spec fn line_views(ls: Seq<Vec<char>>) -> Seq<Seq<char>> {
    ls.map_values(|l: Vec<char>| l@)
}

pub proof fn lemma_lines_head(l: Seq<char>, rest: Seq<char>)
    requires
        !l.contains('\n'),
    ensures
        spec_lines(l + seq!['\n'] + rest) == seq![chop_cr(l)] + spec_lines(rest),
{
    let s = l + seq!['\n'] + rest;
    lemma_find_from(s, '\n', 0);
    let f = find_from(s, '\n', 0);
    assert(s[l.len() as int] == '\n');
    assert(forall|j: int| 0 <= j < l.len() ==> s[j] == l[j] && l.contains(l[j]));
    assert(f == l.len());
    assert(s.take(f) =~= l);
    assert(s.skip(f + 1) =~= rest);
}

pub proof fn lemma_lines_single(l: Seq<char>)
    requires
        !l.contains('\n'),
        l.len() > 0,
    ensures
        spec_lines(l) == seq![l],
{
    lemma_find_from(l, '\n', 0);
    assert(forall|j: int| 0 <= j < l.len() ==> l.contains(l[j]));
    assert(find_from(l, '\n', 0) == l.len());
}

/// Splits `v` into its lines, as `str::lines` does.
pub fn split_lines(v: &Vec<char>) -> (r: Vec<Vec<char>>)
    ensures
        line_views(r@) == spec_lines(v@),
{
    let n = v.len();
    let mut done: Vec<Vec<char>> = Vec::new();
    let mut cur: Vec<char> = Vec::new();
    let mut i: usize = 0;
    proof {
        assert(cur@ + v@.skip(0) =~= v@);
        assert(line_views(done@) =~= Seq::<Seq<char>>::empty());
        assert(line_views(done@) + spec_lines(cur@ + v@.skip(0)) =~= spec_lines(v@));
    }
    while i < n
        invariant
            n == v@.len(),
            i <= n,
            !cur@.contains('\n'),
            spec_lines(v@) == line_views(done@) + spec_lines(cur@ + v@.skip(i as int)),
        decreases n - i,
    {
        let c = v[i];
        if c == '\n' {
            let ghost prev_cur = cur@;
            let ghost prev_done = done@;
            proof {
                assert(prev_cur + v@.skip(i as int) =~= prev_cur + seq!['\n'] + v@.skip(
                    i as int + 1,
                ));
                lemma_lines_head(prev_cur, v@.skip(i as int + 1));
            }
            let mut line = cur;
            if line.len() > 0 && line[line.len() - 1] == '\r' {
                line.pop();
            }
            proof {
                assert(line@ == chop_cr(prev_cur));
            }
            done.push(line);
            cur = Vec::new();
            proof {
                assert(line_views(done@) =~= line_views(prev_done) + seq![chop_cr(prev_cur)]);
                assert(cur@ + v@.skip(i as int + 1) =~= v@.skip(i as int + 1));
            }
        } else {
            let ghost prev_cur = cur@;
            cur.push(c);
            proof {
                assert(cur@ + v@.skip(i as int + 1) =~= prev_cur + v@.skip(i as int));
            }
        }
        i = i + 1;
    }
    proof {
        assert(cur@ + v@.skip(n as int) =~= cur@);
    }
    if cur.len() > 0 {
        proof {
            lemma_lines_single(cur@);
        }
        done.push(cur);
        proof {
            assert(line_views(done@) =~= line_views(done@.drop_last()) + seq![cur@]);
            assert(line_views(done@) =~= spec_lines(v@));
        }
    } else {
        proof {
            assert(spec_lines(cur@) =~= Seq::<Seq<char>>::empty());
            assert(line_views(done@) =~= spec_lines(v@));
        }
    }
    done
}

/// The characters of `v` from `a` (inclusive) to `b` (exclusive).
pub fn sub_chars(v: &Vec<char>, a: usize, b: usize) -> (r: Vec<char>)
    requires
        a <= b <= v@.len(),
    ensures
        r@ == v@.subrange(a as int, b as int),
{
    let mut r: Vec<char> = Vec::new();
    let mut i: usize = a;
    while i < b
        invariant
            a <= i <= b <= v@.len(),
            r@ == v@.subrange(a as int, i as int),
        decreases b - i,
    {
        r.push(v[i]);
        i = i + 1;
        proof {
            assert(r@ =~= v@.subrange(a as int, i as int));
        }
    }
    r
}

/// Appends the characters of `src` to `dst`.
pub fn append_chars(dst: &mut Vec<char>, src: &Vec<char>)
    ensures
        final(dst)@ == old(dst)@ + src@,
{
    let n = src.len();
    let mut i: usize = 0;
    while i < n
        invariant
            n == src@.len(),
            i <= n,
            dst@ == old(dst)@ + src@.subrange(0, i as int),
        decreases n - i,
    {
        dst.push(src[i]);
        i = i + 1;
        proof {
            assert(old(dst)@ + src@.subrange(0, i as int) =~= (old(dst)@ + src@.subrange(
                0,
                i as int - 1,
            )).push(src@[i as int - 1]));
        }
    }
    proof {
        assert(src@.subrange(0, n as int) =~= src@);
    }
}

/// Strict lexicographic order on character sequences by code point, the
/// order in which `str` comparison sorts strings.
pub open spec fn lex_lt(a: Seq<char>, b: Seq<char>) -> bool
    decreases a.len(),
{
    if b.len() == 0 {
        false
    } else if a.len() == 0 {
        true
    } else if a[0] != b[0] {
        (a[0] as u32) < (b[0] as u32)
    } else {
        lex_lt(a.skip(1), b.skip(1))
    }
}

/// The order is total: two sequences are ordered one way, the other, or
/// equal.
pub proof fn lemma_lex_total(a: Seq<char>, b: Seq<char>)
    ensures
        lex_lt(a, b) || lex_lt(b, a) || a == b,
    decreases a.len(),
{
    if b.len() == 0 {
        if a.len() == 0 {
            assert(a =~= b);
        }
    } else if a.len() == 0 {
    } else if a[0] != b[0] {
        assert((a[0] as u32) != (b[0] as u32)) by {
            vstd::utf8::char_u32_cast(a[0], a[0] as u32);
            vstd::utf8::char_u32_cast(b[0], b[0] as u32);
        }
    } else {
        lemma_lex_total(a.skip(1), b.skip(1));
        if a.skip(1) == b.skip(1) {
            assert(a.skip(1).len() == a.len() - 1);
            assert(b.skip(1).len() == b.len() - 1);
            assert(a.len() == b.len());
            assert forall|i: int| 0 <= i < a.len() implies a[i] == b[i] by {
                if i >= 1 {
                    assert(a[i] == a.skip(1)[i - 1]);
                    assert(b[i] == b.skip(1)[i - 1]);
                }
            }
            assert(a =~= b);
        }
    }
}

/// Compares two character vectors lexicographically.
pub fn lex_lt_exec(a: &Vec<char>, b: &Vec<char>) -> (r: bool)
    ensures
        r == lex_lt(a@, b@),
{
    let na = a.len();
    let nb = b.len();
    let mut i: usize = 0;
    proof {
        assert(a@.skip(0) =~= a@);
        assert(b@.skip(0) =~= b@);
    }
    while i < na && i < nb
        invariant
            na == a@.len(),
            nb == b@.len(),
            i <= na,
            i <= nb,
            lex_lt(a@, b@) == lex_lt(a@.skip(i as int), b@.skip(i as int)),
        decreases na - i,
    {
        if a[i] != b[i] {
            return (a[i] as u32) < (b[i] as u32);
        }
        proof {
            assert(a@.skip(i as int).skip(1) =~= a@.skip(i as int + 1));
            assert(b@.skip(i as int).skip(1) =~= b@.skip(i as int + 1));
        }
        i = i + 1;
    }
    na < nb
}

/// Whether `v` holds the character `c`.
pub fn has_char(v: &Vec<char>, c: char) -> (r: bool)
    ensures
        r == v@.contains(c),
{
    let n = v.len();
    let mut i: usize = 0;
    while i < n
        invariant
            n == v@.len(),
            i <= n,
            forall|j: int| 0 <= j < i ==> v@[j] != c,
        decreases n - i,
    {
        if v[i] == c {
            return true;
        }
        i = i + 1;
    }
    proof {
        assert(forall|j: int| 0 <= j < v@.len() ==> v@[j] != c);
    }
    false
}

/// `s` with every non-overlapping occurrence of the two-character pattern
/// `p0 p1` replaced by the single character `r`, scanning left to right:
/// what `str::replace` does for a two-character pattern and a
/// one-character replacement.
pub open spec fn replace_pair(s: Seq<char>, p0: char, p1: char, r: char) -> Seq<char>
    decreases s.len(),
{
    if s.len() < 2 {
        s
    } else if s[0] == p0 && s[1] == p1 {
        seq![r] + replace_pair(s.skip(2), p0, p1, r)
    } else {
        seq![s[0]] + replace_pair(s.skip(1), p0, p1, r)
    }
}

/// Replaces each occurrence of the pair `p0 p1` in `v` by `r`.
pub fn replace_pair_exec(v: &Vec<char>, p0: char, p1: char, r: char) -> (out: Vec<char>)
    ensures
        out@ == replace_pair(v@, p0, p1, r),
{
    let n = v.len();
    let mut out: Vec<char> = Vec::new();
    let mut i: usize = 0;
    proof {
        assert(v@.skip(0) =~= v@);
        assert(Seq::<char>::empty() + replace_pair(v@, p0, p1, r) =~= replace_pair(v@, p0, p1, r));
    }
    while i < n
        invariant
            n == v@.len(),
            i <= n,
            replace_pair(v@, p0, p1, r) == out@ + replace_pair(v@.skip(i as int), p0, p1, r),
        decreases n - i,
    {
        if i + 1 < n && v[i] == p0 && v[i + 1] == p1 {
            out.push(r);
            proof {
                assert(v@.skip(i as int).skip(2) =~= v@.skip(i as int + 2));
                assert(out@ =~= out@.drop_last() + seq![r]);
            }
            i = i + 2;
        } else {
            out.push(v[i]);
            proof {
                assert(v@.skip(i as int).skip(1) =~= v@.skip(i as int + 1));
                assert(out@ =~= out@.drop_last() + seq![v@[i as int]]);
                if i + 1 == n {
                    assert(v@.skip(i as int).len() == 1);
                }
            }
            i = i + 1;
        }
    }
    proof {
        assert(v@.skip(n as int) =~= Seq::<char>::empty());
        assert(out@ =~= replace_pair(v@, p0, p1, r));
    }
    out
}

} // verus!
