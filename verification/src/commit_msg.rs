//! The commit message formatter.
//!
//! A ticket identifier is one uppercase letter, one or more uppercase
//! letters or digits, a hyphen, and one or more digits (`JIRA-123`).
//! Formatting extracts the first such token from a branch name, strips a
//! known prefix and the token itself to find a description, turns
//! hyphens and underscores into spaces, title-cases the words, and
//! yields `TICKET: Description`. The only operations taken on trust are
//! the Unicode case mappings of the standard library.

use vstd::prelude::*;
use vstd::string::*;

use crate::text::{
    append_chars, chars_to_string, find_from, is_white, spec_lines, spec_trim, split_lines,
    str_to_chars, sub_chars, trimmed, white,
};

verus! {

/// What `char::to_uppercase` yields for a character.
pub uninterp spec fn upper_of(c: char) -> Seq<char>;

/// What `str::to_lowercase` yields for a string.
pub uninterp spec fn lower_of(s: Seq<char>) -> Seq<char>;

/// Relies on `char::to_uppercase`: its result depends on the character
/// alone.
#[verifier::external_body]
fn upper_char(c: char) -> (r: String)
    ensures
        r@ == upper_of(c),
{
    c.to_uppercase().collect()
}

/// Relies on `str::to_lowercase`: its result depends on the characters
/// alone.
#[verifier::external_body]
fn lower_str(s: &str) -> (r: String)
    ensures
        r@ == lower_of(s@),
{
    s.to_lowercase()
}

/// An ASCII uppercase letter.
pub open spec fn is_upper(c: char) -> bool {
    'A' as u32 <= c as u32 && c as u32 <= 'Z' as u32
}

/// An ASCII digit.
pub open spec fn is_digit(c: char) -> bool {
    '0' as u32 <= c as u32 && c as u32 <= '9' as u32
}

/// A character the ticket body may hold: an uppercase letter or digit.
pub open spec fn is_tickchar(c: char) -> bool {
    is_upper(c) || is_digit(c)
}

fn upper_exec(c: char) -> (r: bool)
    ensures
        r == is_upper(c),
{
    let u = c as u32;
    ('A' as u32) <= u && u <= ('Z' as u32)
}

fn digit_exec(c: char) -> (r: bool)
    ensures
        r == is_digit(c),
{
    let u = c as u32;
    ('0' as u32) <= u && u <= ('9' as u32)
}

/// The first index at or after `i` whose character is not an uppercase
/// letter or digit, or the length.
pub open spec fn tick_run_end(s: Seq<char>, i: int) -> int
    decreases s.len() - i,
{
    if i < 0 || i >= s.len() {
        s.len() as int
    } else if !is_tickchar(s[i]) {
        i
    } else {
        tick_run_end(s, i + 1)
    }
}

/// The first index at or after `i` whose character is not a digit, or
/// the length.
pub open spec fn digit_run_end(s: Seq<char>, i: int) -> int
    decreases s.len() - i,
{
    if i < 0 || i >= s.len() {
        s.len() as int
    } else if !is_digit(s[i]) {
        i
    } else {
        digit_run_end(s, i + 1)
    }
}

pub proof fn lemma_tick_run_end(s: Seq<char>, i: int)
    requires
        0 <= i <= s.len(),
    ensures
        i <= tick_run_end(s, i) <= s.len(),
    decreases s.len() - i,
{
    if i < s.len() && is_tickchar(s[i]) {
        lemma_tick_run_end(s, i + 1);
    }
}

pub proof fn lemma_digit_run_end(s: Seq<char>, i: int)
    requires
        0 <= i <= s.len(),
    ensures
        i <= digit_run_end(s, i) <= s.len(),
    decreases s.len() - i,
{
    if i < s.len() && is_digit(s[i]) {
        lemma_digit_run_end(s, i + 1);
    }
}

fn tick_run_end_exec(v: &Vec<char>, from: usize) -> (r: usize)
    requires
        from <= v@.len(),
    ensures
        r as int == tick_run_end(v@, from as int),
        from <= r <= v@.len(),
{
    let n = v.len();
    let mut j: usize = from;
    while j < n
        invariant
            n == v@.len(),
            from <= j <= n,
            tick_run_end(v@, from as int) == tick_run_end(v@, j as int),
        decreases n - j,
    {
        let c = v[j];
        if !(upper_exec(c) || digit_exec(c)) {
            return j;
        }
        j = j + 1;
    }
    j
}

fn digit_run_end_exec(v: &Vec<char>, from: usize) -> (r: usize)
    requires
        from <= v@.len(),
    ensures
        r as int == digit_run_end(v@, from as int),
        from <= r <= v@.len(),
{
    let n = v.len();
    let mut j: usize = from;
    while j < n
        invariant
            n == v@.len(),
            from <= j <= n,
            digit_run_end(v@, from as int) == digit_run_end(v@, j as int),
        decreases n - j,
    {
        if !digit_exec(v[j]) {
            return j;
        }
        j = j + 1;
    }
    j
}

/// Where the ticket starting at `i` ends, if one starts there: an
/// uppercase letter, the maximal run of at least one further uppercase
/// letter or digit, a hyphen, then the maximal run of at least one
/// digit.
pub open spec fn ticket_end_at(s: Seq<char>, i: int) -> Option<int>
    recommends
        0 <= i < s.len(),
{
    if !is_upper(s[i]) {
        Option::None
    } else {
        let r = tick_run_end(s, i + 1);
        if r > i + 1 && r < s.len() && s[r] == '-' && r + 1 < s.len() && is_digit(s[r + 1]) {
            Option::Some(digit_run_end(s, r + 1))
        } else {
            Option::None
        }
    }
}

pub proof fn lemma_ticket_end_at(s: Seq<char>, i: int)
    requires
        0 <= i < s.len(),
        ticket_end_at(s, i).is_some(),
    ensures
        i + 3 < ticket_end_at(s, i).unwrap() <= s.len(),
        is_upper(s[i]),
{
    let r = tick_run_end(s, i + 1);
    lemma_tick_run_end(s, i + 1);
    lemma_digit_run_end(s, r + 1);
    lemma_digit_run_end(s, r + 2);
    assert(digit_run_end(s, r + 1) == digit_run_end(s, r + 2));
}

fn ticket_end_exec(v: &Vec<char>, i: usize) -> (r: Option<usize>)
    requires
        i < v@.len(),
    ensures
        match r {
            Some(q) => ticket_end_at(v@, i as int) == Option::Some(q as int) && i < q <= v@.len(),
            None => ticket_end_at(v@, i as int) == Option::<int>::None,
        },
{
    if !upper_exec(v[i]) {
        return None;
    }
    let n = v.len();
    let run = tick_run_end_exec(v, i + 1);
    if run > i + 1 && run < n && v[run] == '-' && run + 1 < n && digit_exec(v[run + 1]) {
        let q = digit_run_end_exec(v, run + 1);
        proof {
            lemma_ticket_end_at(v@, i as int);
        }
        Some(q)
    } else {
        None
    }
}

/// The span of the first ticket in `s` at or after `i`.
pub open spec fn find_ticket_from(s: Seq<char>, i: int) -> Option<(int, int)>
    decreases s.len() - i,
{
    if i < 0 || i >= s.len() {
        Option::None
    } else {
        match ticket_end_at(s, i) {
            Option::Some(e) => Option::Some((i, e)),
            Option::None => find_ticket_from(s, i + 1),
        }
    }
}

pub proof fn lemma_find_ticket_from(s: Seq<char>, i: int)
    requires
        0 <= i <= s.len(),
        find_ticket_from(s, i).is_some(),
    ensures
        ({
            let (a, b) = find_ticket_from(s, i).unwrap();
            i <= a && a + 3 < b <= s.len() && is_upper(s[a])
        }),
    decreases s.len() - i,
{
    if i < s.len() {
        match ticket_end_at(s, i) {
            Option::Some(e) => {
                lemma_ticket_end_at(s, i);
            },
            Option::None => {
                lemma_find_ticket_from(s, i + 1);
            },
        }
    }
}

/// The first ticket token in `s`, if any.
pub open spec fn spec_extract_ticket(s: Seq<char>) -> Option<Seq<char>> {
    match find_ticket_from(s, 0) {
        Option::Some((a, b)) => Option::Some(s.subrange(a, b)),
        Option::None => Option::None,
    }
}

/// Extracts the first ticket token of `v`.
fn extract_ticket_chars(v: &Vec<char>) -> (r: Option<Vec<char>>)
    ensures
        match r {
            Some(t) => spec_extract_ticket(v@) == Option::Some(t@),
            None => spec_extract_ticket(v@) == Option::<Seq<char>>::None,
        },
{
    let n = v.len();
    let mut i: usize = 0;
    while i < n
        invariant
            n == v@.len(),
            i <= n,
            find_ticket_from(v@, 0) == find_ticket_from(v@, i as int),
        decreases n - i,
    {
        match ticket_end_exec(v, i) {
            Some(q) => {
                proof {
                    assert(find_ticket_from(v@, i as int) == Option::Some((i as int, q as int)));
                }
                return Some(sub_chars(v, i, q));
            },
            None => {},
        }
        i = i + 1;
    }
    None
}

/// Whether `s` starts with `p`.
pub open spec fn spec_starts_with(s: Seq<char>, p: Seq<char>) -> bool {
    p.len() <= s.len() && s.take(p.len() as int) == p
}

fn begins_with(v: &Vec<char>, p: &str) -> (r: bool)
    ensures
        r == spec_starts_with(v@, p@),
{
    let pc = str_to_chars(p);
    let m = pc.len();
    if v.len() < m {
        return false;
    }
    let mut j: usize = 0;
    while j < m
        invariant
            m == p@.len(),
            m <= v@.len(),
            pc@ == p@,
            j <= m,
            forall|x: int| 0 <= x < j ==> v@[x] == p@[x],
        decreases m - j,
    {
        if v[j] != pc[j] {
            proof {
                assert(v@.take(m as int)[j as int] != p@[j as int]);
            }
            return false;
        }
        j = j + 1;
    }
    proof {
        assert(v@.take(m as int) =~= p@);
    }
    true
}

/// The branch name with one known prefix (`feature/`, `bugfix/`,
/// `hotfix/`, `fix/`) removed, when it carries one.
pub open spec fn strip_branch_prefix(s: Seq<char>) -> Seq<char> {
    if spec_starts_with(s, "feature/"@) {
        s.skip("feature/"@.len() as int)
    } else if spec_starts_with(s, "bugfix/"@) {
        s.skip("bugfix/"@.len() as int)
    } else if spec_starts_with(s, "hotfix/"@) {
        s.skip("hotfix/"@.len() as int)
    } else if spec_starts_with(s, "fix/"@) {
        s.skip("fix/"@.len() as int)
    } else {
        s
    }
}

fn strip_prefix_exec(v: &Vec<char>) -> (r: Vec<char>)
    ensures
        r@ == strip_branch_prefix(v@),
{
    proof {
        reveal_strlit("feature/");
        reveal_strlit("bugfix/");
        reveal_strlit("hotfix/");
        reveal_strlit("fix/");
    }
    if begins_with(v, "feature/") {
        let r = sub_chars(v, 8, v.len());
        proof {
            assert(r@ =~= v@.skip("feature/"@.len() as int));
        }
        r
    } else if begins_with(v, "bugfix/") {
        let r = sub_chars(v, 7, v.len());
        proof {
            assert(r@ =~= v@.skip("bugfix/"@.len() as int));
        }
        r
    } else if begins_with(v, "hotfix/") {
        let r = sub_chars(v, 7, v.len());
        proof {
            assert(r@ =~= v@.skip("hotfix/"@.len() as int));
        }
        r
    } else if begins_with(v, "fix/") {
        let r = sub_chars(v, 4, v.len());
        proof {
            assert(r@ =~= v@.skip("fix/"@.len() as int));
        }
        r
    } else {
        sub_chars(v, 0, v.len())
    }
}

/// The description a branch name carries after its prefix and ticket:
/// what follows a hyphen right after an anchored ticket, or nothing.
pub open spec fn spec_description(branch: Seq<char>) -> Seq<char> {
    let t = strip_branch_prefix(branch);
    if t.len() > 0 && ticket_end_at(t, 0).is_some() {
        let q = ticket_end_at(t, 0).unwrap();
        if q < t.len() && t[q] == '-' && q + 1 < t.len() {
            t.skip(q + 1)
        } else {
            Seq::empty()
        }
    } else {
        Seq::empty()
    }
}

fn description_chars(v: &Vec<char>) -> (d: Vec<char>)
    ensures
        d@ == spec_description(v@),
{
    let t = strip_prefix_exec(v);
    if t.len() == 0 {
        return Vec::new();
    }
    match ticket_end_exec(&t, 0) {
        Some(q) => {
            if q < t.len() && t[q] == '-' && q + 1 < t.len() {
                let r = sub_chars(&t, q + 1, t.len());
                proof {
                    assert(r@ =~= t@.skip(q as int + 1));
                }
                r
            } else {
                Vec::new()
            }
        },
        None => Vec::new(),
    }
}

/// Hyphens and underscores replaced by spaces.
pub open spec fn dash_to_space(s: Seq<char>) -> Seq<char> {
    s.map_values(
        |c: char|
            if c == '-' || c == '_' {
                ' '
            } else {
                c
            },
    )
}

fn dash_to_space_exec(v: &Vec<char>) -> (r: Vec<char>)
    ensures
        r@ == dash_to_space(v@),
{
    let n = v.len();
    let mut r: Vec<char> = Vec::new();
    let mut i: usize = 0;
    while i < n
        invariant
            n == v@.len(),
            i <= n,
            r@ == dash_to_space(v@.subrange(0, i as int)),
        decreases n - i,
    {
        let c = v[i];
        if c == '-' || c == '_' {
            r.push(' ');
        } else {
            r.push(c);
        }
        i = i + 1;
        proof {
            assert(r@ =~= dash_to_space(v@.subrange(0, i as int)));
        }
    }
    proof {
        assert(v@.subrange(0, n as int) =~= v@);
    }
    r
}

/// The first index at or after `i` whose character is whitespace, or
/// the length.
pub open spec fn nonwhite_end(s: Seq<char>, i: int) -> int
    decreases s.len() - i,
{
    if i < 0 || i >= s.len() {
        s.len() as int
    } else if is_white(s[i]) {
        i
    } else {
        nonwhite_end(s, i + 1)
    }
}

pub proof fn lemma_nonwhite_end(s: Seq<char>, i: int)
    requires
        0 <= i <= s.len(),
    ensures
        i <= nonwhite_end(s, i) <= s.len(),
    decreases s.len() - i,
{
    if i < s.len() && !is_white(s[i]) {
        lemma_nonwhite_end(s, i + 1);
    }
}

/// The whitespace-separated words of `s` from position `i` on.
pub open spec fn words_from(s: Seq<char>, i: int) -> Seq<Seq<char>>
    decreases s.len() - i,
    via words_from_decreases
{
    if i < 0 || i >= s.len() {
        Seq::empty()
    } else if is_white(s[i]) {
        words_from(s, i + 1)
    } else {
        seq![s.subrange(i, nonwhite_end(s, i))] + words_from(s, nonwhite_end(s, i))
    }
}

#[via_fn]
proof fn words_from_decreases(s: Seq<char>, i: int) {
    if 0 <= i < s.len() && !is_white(s[i]) {
        lemma_nonwhite_end(s, i + 1);
        assert(nonwhite_end(s, i) == nonwhite_end(s, i + 1));
    }
}

/// The words of `s`, as `str::split_whitespace` yields them.
pub open spec fn words_of(s: Seq<char>) -> Seq<Seq<char>> {
    words_from(s, 0)
}

/// A word with its first character uppercased and the rest lowercased.
pub open spec fn title_word(w: Seq<char>) -> Seq<char>
    recommends
        w.len() > 0,
{
    upper_of(w[0]) + lower_of(w.skip(1))
}

/// Words joined with single spaces.
pub open spec fn join_spaces(ws: Seq<Seq<char>>) -> Seq<char>
    decreases ws.len(),
{
    if ws.len() == 0 {
        Seq::empty()
    } else if ws.len() == 1 {
        ws[0]
    } else {
        ws[0] + seq![' '] + join_spaces(ws.skip(1))
    }
}

pub proof fn lemma_join_push(ws: Seq<Seq<char>>, w: Seq<char>)
    ensures
        join_spaces(ws.push(w)) == (if ws.len() == 0 {
            w
        } else {
            join_spaces(ws) + seq![' '] + w
        }),
    decreases ws.len(),
{
    if ws.len() == 0 {
        assert(ws.push(w)[0] == w);
    } else {
        lemma_join_push(ws.skip(1), w);
        assert(ws.push(w).skip(1) =~= ws.skip(1).push(w));
        assert(ws.push(w)[0] == ws[0]);
        if ws.len() == 1 {
            assert(ws.skip(1).len() == 0);
            assert(join_spaces(ws.push(w)) == ws[0] + seq![' '] + w);
            assert(join_spaces(ws) == ws[0]);
        } else {
            assert(join_spaces(ws.push(w)) == ws[0] + seq![' '] + (join_spaces(ws.skip(1))
                + seq![' '] + w));
            assert(join_spaces(ws) == ws[0] + seq![' '] + join_spaces(ws.skip(1)));
            assert(ws[0] + seq![' '] + (join_spaces(ws.skip(1)) + seq![' '] + w) =~= (ws[0]
                + seq![' '] + join_spaces(ws.skip(1))) + seq![' '] + w);
        }
    }
}

/// The title-cased form of `s`: each whitespace-separated word with its
/// first character uppercased and the rest lowercased, joined by single
/// spaces.
pub open spec fn title_case_spec(s: Seq<char>) -> Seq<char> {
    join_spaces(words_of(s).map_values(|w: Seq<char>| title_word(w)))
}

/// Title-cases the characters of `v`.
fn title_chars(v: &Vec<char>) -> (r: Vec<char>)
    ensures
        r@ == title_case_spec(v@),
{
    let n = v.len();
    let mut out: Vec<char> = Vec::new();
    let ghost mut tws: Seq<Seq<char>> = Seq::empty();
    let mut pos: usize = 0;
    let mut first = true;
    while pos < n
        invariant
            n == v@.len(),
            pos <= n,
            words_of(v@).map_values(|w: Seq<char>| title_word(w)) == tws + words_from(
                v@,
                pos as int,
            ).map_values(|w: Seq<char>| title_word(w)),
            out@ == join_spaces(tws),
            first == (tws.len() == 0),
        decreases n - pos,
    {
        let c = v[pos];
        if white(c) {
            proof {
                assert(words_from(v@, pos as int) == words_from(v@, pos as int + 1));
            }
            pos = pos + 1;
        } else {
            let e = nonwhite_end_exec(v, pos);
            proof {
                lemma_nonwhite_end(v@, pos as int);
            }
            let word = sub_chars(v, pos, e);
            let ghost w = v@.subrange(pos as int, e as int);
            let titled = title_word_exec(&word);
            if first {
                append_chars(&mut out, &titled);
                first = false;
            } else {
                out.push(' ');
                append_chars(&mut out, &titled);
            }
            proof {
                lemma_join_push(tws, titled@);
                if tws.len() == 0 {
                    assert(out@ =~= titled@);
                } else {
                    assert(out@ =~= join_spaces(tws) + seq![' '] + titled@);
                }
                let f = |x: Seq<char>| title_word(x);
                assert(words_from(v@, pos as int) == seq![w] + words_from(v@, e as int));
                assert((seq![w] + words_from(v@, e as int)).map_values(f) =~= seq![title_word(w)]
                    + words_from(v@, e as int).map_values(f));
                assert(tws + (seq![title_word(w)] + words_from(v@, e as int).map_values(f))
                    =~= tws.push(title_word(w)) + words_from(v@, e as int).map_values(f));
                tws = tws.push(title_word(w));
                assert(out@ == join_spaces(tws));
            }
            pos = e;
        }
    }
    proof {
        assert(words_from(v@, n as int) =~= Seq::<Seq<char>>::empty());
        assert(words_from(v@, n as int).map_values(|w: Seq<char>| title_word(w)) =~= Seq::<
            Seq<char>,
        >::empty());
        assert(tws + Seq::<Seq<char>>::empty() =~= tws);
    }
    out
}

fn nonwhite_end_exec(v: &Vec<char>, from: usize) -> (r: usize)
    requires
        from <= v@.len(),
    ensures
        r as int == nonwhite_end(v@, from as int),
        from <= r <= v@.len(),
{
    let n = v.len();
    let mut j: usize = from;
    while j < n
        invariant
            n == v@.len(),
            from <= j <= n,
            nonwhite_end(v@, from as int) == nonwhite_end(v@, j as int),
        decreases n - j,
    {
        if white(v[j]) {
            return j;
        }
        j = j + 1;
    }
    j
}

fn title_word_exec(w: &Vec<char>) -> (r: Vec<char>)
    requires
        w@.len() > 0,
    ensures
        r@ == title_word(w@),
{
    let up = upper_char(w[0]);
    let rest = sub_chars(w, 1, w.len());
    proof {
        assert(rest@ =~= w@.skip(1));
    }
    let rest_str = chars_to_string(&rest);
    let low = lower_str(rest_str.as_str());
    let mut r = str_to_chars(up.as_str());
    let low_chars = str_to_chars(low.as_str());
    append_chars(&mut r, &low_chars);
    r
}

/// What formatting a branch name yields: nothing without a ticket;
/// otherwise the ticket, a colon and space, and the title-cased
/// description when there is one.
pub open spec fn spec_format(branch: Seq<char>) -> Option<Seq<char>> {
    match spec_extract_ticket(branch) {
        Option::None => Option::None,
        Option::Some(t) => {
            let d = spec_description(branch);
            if d.len() == 0 {
                Option::Some(t + seq![':', ' '])
            } else {
                Option::Some(t + seq![':', ' '] + title_case_spec(dash_to_space(d)))
            }
        },
    }
}

/// Whether a commit message already holds a line that is neither blank
/// nor a comment.
pub open spec fn real_line(l: Seq<char>) -> bool {
    spec_trim(l).len() > 0 && l[0] != '#'
}

/// Whether a commit message text holds any real content.
pub open spec fn has_real_content(s: Seq<char>) -> bool {
    exists|i: int| 0 <= i < spec_lines(s).len() && real_line(#[trigger] spec_lines(s)[i])
}

/// What the prepare-commit-msg handler writes: nothing when the file
/// already holds real content or the branch yields no formatted
/// message; otherwise the formatted message, a blank line, and the old
/// content.
pub open spec fn spec_updated(current: Seq<char>, branch: Seq<char>) -> Option<Seq<char>> {
    if has_real_content(current) {
        Option::None
    } else {
        match spec_format(branch) {
            Option::None => Option::None,
            Option::Some(f) => Option::Some(f + seq!['\n', '\n'] + current),
        }
    }
}

/// Formats commit messages from branch names.
pub struct CommitMessageProcessor {}

impl CommitMessageProcessor {
    /// A new processor.
    pub fn new() -> (r: Self) {
        CommitMessageProcessor {  }
    }

    /// Formats a commit message prefix from a branch name, when the
    /// branch carries a ticket.
    pub fn format_commit_message_from_branch(&self, branch_name: &str) -> (r: Option<String>)
        ensures
            match r {
                Some(m) => spec_format(branch_name@) == Option::Some(m@),
                None => spec_format(branch_name@) == Option::<Seq<char>>::None,
            },
    {
        let v = str_to_chars(branch_name);
        match extract_ticket_chars(&v) {
            None => None,
            Some(t) => {
                let d = description_chars(&v);
                let mut out = t;
                out.push(':');
                out.push(' ');
                if d.len() == 0 {
                    proof {
                        assert(out@ =~= spec_extract_ticket(v@).unwrap() + seq![':', ' ']);
                    }
                    Some(chars_to_string(&out))
                } else {
                    let spaced = dash_to_space_exec(&d);
                    let titled = title_chars(&spaced);
                    append_chars(&mut out, &titled);
                    proof {
                        assert(out@ =~= spec_extract_ticket(v@).unwrap() + seq![':', ' ']
                            + title_case_spec(dash_to_space(spec_description(v@))));
                    }
                    Some(chars_to_string(&out))
                }
            },
        }
    }

    /// Title-cases a string: each whitespace-separated word gets an
    /// uppercase first character and a lowercase remainder, joined by
    /// single spaces.
    pub fn to_title_case(&self, s: &str) -> (r: String)
        ensures
            r@ == title_case_spec(s@),
    {
        let v = str_to_chars(s);
        let t = title_chars(&v);
        chars_to_string(&t)
    }

    /// Whether a commit message file still needs formatting: true when
    /// no line holds real content.
    pub fn needs_formatting(&self, current_msg: &str) -> (r: bool)
        ensures
            r == !has_real_content(current_msg@),
    {
        let cs = str_to_chars(current_msg);
        let lines = split_lines(&cs);
        let n = lines.len();
        let mut i: usize = 0;
        while i < n
            invariant
                n == lines@.len(),
                crate::text::line_views(lines@) == spec_lines(current_msg@),
                i <= n,
                forall|j: int| 0 <= j < i ==> !real_line(#[trigger] spec_lines(current_msg@)[j]),
            decreases n - i,
        {
            let l = &lines[i];
            let t = trimmed(l);
            if t.len() > 0 && l[0] != '#' {
                proof {
                    assert(real_line(spec_lines(current_msg@)[i as int]));
                }
                return false;
            }
            proof {
                if l@.len() > 0 {
                    assert(!real_line(spec_lines(current_msg@)[i as int]));
                } else {
                    assert(spec_trim(l@).len() == 0);
                }
            }
            i = i + 1;
        }
        true
    }

    /// The new content for a commit message file, when one is owed: the
    /// formatted branch message, a blank line, and the old content.
    pub fn updated_message(&self, current_msg: &str, branch_name: &str) -> (r: Option<String>)
        ensures
            match r {
                Some(m) => spec_updated(current_msg@, branch_name@) == Option::Some(m@),
                None => spec_updated(current_msg@, branch_name@) == Option::<Seq<char>>::None,
            },
    {
        if !self.needs_formatting(current_msg) {
            return None;
        }
        match self.format_commit_message_from_branch(branch_name) {
            None => None,
            Some(f) => {
                let mut out = str_to_chars(f.as_str());
                out.push('\n');
                out.push('\n');
                let cur = str_to_chars(current_msg);
                append_chars(&mut out, &cur);
                proof {
                    assert(out@ =~= f@ + seq!['\n', '\n'] + current_msg@);
                }
                Some(chars_to_string(&out))
            },
        }
    }
}

impl Default for CommitMessageProcessor {
    /// A new processor.
    fn default() -> (r: Self) {
        CommitMessageProcessor {  }
    }
}


/// A formatted message exists exactly when the branch carries a ticket,
/// and then begins with that exact ticket token followed by a colon and
/// a space.
pub proof fn lemma_format_ticket_prefix(branch: Seq<char>)
    ensures
        spec_format(branch).is_some() <==> spec_extract_ticket(branch).is_some(),
        spec_extract_ticket(branch).is_some() ==> ({
            let t = spec_extract_ticket(branch).unwrap();
            let m = spec_format(branch).unwrap();
            m.len() >= t.len() + 2 && m.subrange(0, t.len() as int + 2) == t + seq![':', ' ']
        }),
{
    if spec_extract_ticket(branch).is_some() {
        let t = spec_extract_ticket(branch).unwrap();
        let m = spec_format(branch).unwrap();
        let d = spec_description(branch);
        if d.len() == 0 {
            assert(m =~= t + seq![':', ' ']);
            assert(m.subrange(0, t.len() as int + 2) =~= t + seq![':', ' ']);
        } else {
            assert(m == t + seq![':', ' '] + title_case_spec(dash_to_space(d)));
            assert(m.subrange(0, t.len() as int + 2) =~= t + seq![':', ' ']);
        }
    }
}

/// Writing a formatted message into an empty commit message leaves a
/// file with real content, so a second pass writes nothing: the update
/// is idempotent.
pub proof fn lemma_update_idempotent(current: Seq<char>, branch: Seq<char>, branch2: Seq<char>)
    ensures
        spec_updated(current, branch).is_some() ==> spec_updated(
            spec_updated(current, branch).unwrap(),
            branch2,
        ).is_none(),
{
    if spec_updated(current, branch).is_some() {
        let f = spec_format(branch).unwrap();
        let n = spec_updated(current, branch).unwrap();
        assert(n == f + seq!['\n', '\n'] + current);
        let t = spec_extract_ticket(branch).unwrap();
        lemma_find_ticket_from(branch, 0);
        let (a, b) = find_ticket_from(branch, 0).unwrap();
        assert(t == branch.subrange(a, b));
        assert(t[0] == branch[a]);
        assert(is_upper(t[0]));
        lemma_format_ticket_prefix(branch);
        assert(f.subrange(0, t.len() as int + 2)[0] == f[0]);
        assert(f[0] == t[0]);
        assert(n[0] == f[0]);
        let c = n[0];
        assert(65 <= c as u32 <= 90);
        assert(!is_white(c)) by {
            if is_white(c) {
                assert(c as u32 != 65 || c != '\u{0041}');
            }
        }
        assert(c != '\n' && c != '#' && c != '\r');
        assert(n.len() > 0);
        crate::text::lemma_find_from(n, '\n', 0);
        let i0 = find_from(n, '\n', 0);
        assert(i0 >= 1);
        if i0 == n.len() {
            assert(spec_lines(n) == seq![n]);
            crate::text::lemma_trim_nonwhite_head(n);
            assert(real_line(spec_lines(n)[0]));
            assert(has_real_content(n));
        } else {
            let l0 = n.take(i0);
            assert(l0.len() == i0 >= 1);
            assert(l0[0] == c);
            let l0c = crate::text::chop_cr(l0);
            assert(spec_lines(n) == seq![l0c] + spec_lines(n.skip(i0 + 1)));
            if l0.last() == '\r' {
                assert(l0.len() >= 2) by {
                    assert(l0[0] != '\r');
                }
                assert(l0c == l0.drop_last());
                assert(l0c[0] == c);
            } else {
                assert(l0c == l0);
            }
            assert(l0c.len() >= 1 && l0c[0] == c);
            crate::text::lemma_trim_nonwhite_head(l0c);
            assert(real_line(spec_lines(n)[0]));
            assert(has_real_content(n));
        }
    }
}

} // verus!
