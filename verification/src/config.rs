//! The flat key/value configuration for git hooks: a line-oriented text
//! format of `key = "command"` pairs, with a verified parser and
//! serializer.
//!
//! Each non-blank, non-comment line must hold a top-level `=`; the key
//! (trimmed, non-empty, without space characters) maps to the decoded
//! value. A double-quoted value unescapes `\"` and `\\`; a single-quoted
//! value is taken literally; anything else is kept verbatim.

use vstd::prelude::*;
use vstd::seq_lib::*;
use vstd::string::*;

use crate::text::{
    append_chars, chars_to_string, chop_cr, find_char, find_from, has_char, is_white,
    lemma_find_from, lemma_lex_total, lemma_lines_head, lex_lt, lex_lt_exec, line_views,
    replace_pair, replace_pair_exec, spec_lines, spec_trim, spec_trim_end, spec_trim_start,
    split_lines, str_eq, str_to_chars, sub_chars, trimmed,
};

verus! {

/// A configured key with its decoded command, at the specification level.
pub type SpecEntry = (Seq<char>, Seq<char>);

/// What the parser does with one line.
pub enum LineOutcome {
    /// Blank line or comment.
    Skipped,
    /// A valid `key = value` pair.
    Pair(Seq<char>, Seq<char>),
    /// A key that is empty or contains a space.
    BadKey(Seq<char>),
    /// A line without `=`.
    BadLine(Seq<char>),
}

/// What the parser does with a whole text.
pub enum ParseOutcome {
    /// The entries of all valid lines in order.
    Parsed(Seq<SpecEntry>),
    /// An invalid key, with its 1-based line number.
    KeyError { line: int, key: Seq<char> },
    /// A line without `=`, with its 1-based line number.
    LineError { line: int, content: Seq<char> },
}

/// Undoes the value escaping: first each `\"` becomes `"`, then each
/// `\\` becomes `\`, both scanning left to right.
pub open spec fn unescape(s: Seq<char>) -> Seq<char> {
    replace_pair(replace_pair(s, '\\', '"', '"'), '\\', '\\', '\\')
}

/// Escapes a value for serialization: `\` becomes `\\` and `"` becomes
/// `\"`.
pub open spec fn escape(s: Seq<char>) -> Seq<char>
    decreases s.len(),
{
    if s.len() == 0 {
        s
    } else {
        (if s[0] == '\\' {
            seq!['\\', '\\']
        } else if s[0] == '"' {
            seq!['\\', '"']
        } else {
            seq![s[0]]
        }) + escape(s.skip(1))
    }
}

/// Decodes a raw (already trimmed) value: quoted forms lose their
/// quotes, double-quoted ones are unescaped, anything else is verbatim.
pub open spec fn decode_value(v: Seq<char>) -> Seq<char> {
    if v.len() >= 2 && v[0] == '"' && v.last() == '"' {
        unescape(v.subrange(1, v.len() - 1))
    } else if v.len() >= 2 && v[0] == '\'' && v.last() == '\'' {
        v.subrange(1, v.len() - 1)
    } else {
        v
    }
}

/// A key is valid when it is non-empty and contains no space character.
pub open spec fn valid_key(k: Seq<char>) -> bool {
    k.len() > 0 && !k.contains(' ')
}

/// How the parser reads a single raw line.
pub open spec fn line_outcome(l: Seq<char>) -> LineOutcome {
    let t = spec_trim(l);
    if t.len() == 0 || t[0] == '#' {
        LineOutcome::Skipped
    } else {
        let e = find_from(t, '=', 0);
        if e == t.len() {
            LineOutcome::BadLine(t)
        } else {
            let k = spec_trim(t.take(e));
            if !valid_key(k) {
                LineOutcome::BadKey(k)
            } else {
                LineOutcome::Pair(k, decode_value(spec_trim(t.skip(e + 1))))
            }
        }
    }
}

/// Folds `line_outcome` over a list of lines, numbering them from
/// `lineno`, stopping at the first invalid line.
pub open spec fn parse_lines(ls: Seq<Seq<char>>, lineno: int) -> ParseOutcome
    decreases ls.len(),
{
    if ls.len() == 0 {
        ParseOutcome::Parsed(Seq::empty())
    } else {
        match line_outcome(ls[0]) {
            LineOutcome::Skipped => parse_lines(ls.skip(1), lineno + 1),
            LineOutcome::Pair(k, v) => match parse_lines(ls.skip(1), lineno + 1) {
                ParseOutcome::Parsed(es) => ParseOutcome::Parsed(seq![(k, v)] + es),
                other => other,
            },
            LineOutcome::BadKey(k) => ParseOutcome::KeyError { line: lineno, key: k },
            LineOutcome::BadLine(c) => ParseOutcome::LineError { line: lineno, content: c },
        }
    }
}

/// What parsing a whole configuration text yields.
pub open spec fn parse_spec(s: Seq<char>) -> ParseOutcome {
    parse_lines(spec_lines(s), 1)
}

/// The mapping described by a list of entries; a later entry overrides
/// an earlier one with the same key.
pub open spec fn entries_map(es: Seq<SpecEntry>) -> Map<Seq<char>, Seq<char>>
    decreases es.len(),
{
    if es.len() == 0 {
        Map::empty()
    } else {
        entries_map(es.drop_last()).insert(es.last().0, es.last().1)
    }
}

/// Some entry carries key `k`.
pub open spec fn has_key(es: Seq<SpecEntry>, k: Seq<char>) -> bool {
    exists|i: int| 0 <= i < es.len() && es[i].0 == k
}

/// No two entries share a key.
pub open spec fn distinct_keys(es: Seq<SpecEntry>) -> bool {
    forall|i: int, j: int| 0 <= i < j < es.len() ==> (#[trigger] es[i]).0 != (#[trigger] es[j]).0
}


/// The entry views of a vector of `String` pairs.
pub open spec fn pair_views(hs: Seq<(String, String)>) -> Seq<SpecEntry> {
    hs.map_values(|p: (String, String)| (p.0@, p.1@))
}

/// Every entry's key is valid.
pub open spec fn valid_keys(es: Seq<SpecEntry>) -> bool {
    forall|i: int| 0 <= i < es.len() ==> valid_key((#[trigger] es[i]).0)
}

pub proof fn lemma_entries_map_dom(es: Seq<SpecEntry>)
    ensures
        forall|k: Seq<char>| #[trigger] entries_map(es).contains_key(k) <==> has_key(es, k),
    decreases es.len(),
{
    broadcast use vstd::map::group_map_axioms;

    if es.len() == 0 {
        assert(entries_map(es) == Map::<Seq<char>, Seq<char>>::empty());
        assert(forall|k: Seq<char>| !(#[trigger] entries_map(es).contains_key(k)));
    } else {
        lemma_entries_map_dom(es.drop_last());
        assert forall|k: Seq<char>| #[trigger] entries_map(es).contains_key(k) <==> has_key(
            es,
            k,
        ) by {
            assert(entries_map(es) == entries_map(es.drop_last()).insert(
                es.last().0,
                es.last().1,
            ));
            assert(entries_map(es).contains_key(k) <==> (k == es.last().0 || entries_map(
                es.drop_last(),
            ).contains_key(k)));
            if has_key(es, k) {
                let i = choose|i: int| 0 <= i < es.len() && es[i].0 == k;
                if i < es.len() - 1 {
                    assert(es.drop_last()[i].0 == k);
                    assert(has_key(es.drop_last(), k));
                } else {
                    assert(k == es.last().0);
                }
            }
            if entries_map(es).contains_key(k) {
                if k == es.last().0 {
                    assert(es[es.len() - 1].0 == k);
                    assert(has_key(es, k));
                } else {
                    let i = choose|i: int|
                        0 <= i < es.drop_last().len() && es.drop_last()[i].0 == k;
                    assert(es[i].0 == k);
                    assert(has_key(es, k));
                }
            }
        }
    }
}

pub proof fn lemma_entries_map_val(es: Seq<SpecEntry>)
    requires
        distinct_keys(es),
    ensures
        forall|i: int|
            0 <= i < es.len() ==> entries_map(es).contains_key(#[trigger] es[i].0)
                && entries_map(es)[es[i].0] == es[i].1,
    decreases es.len(),
{
    if es.len() > 0 {
        assert(forall|i: int, j: int|
            0 <= i < j < es.drop_last().len() ==> es.drop_last()[i].0 != es.drop_last()[j].0);
        lemma_entries_map_val(es.drop_last());
        assert forall|i: int|
            0 <= i < es.len() implies entries_map(es).contains_key(#[trigger] es[i].0)
            && entries_map(es)[es[i].0] == es[i].1 by {
            if i < es.len() - 1 {
                assert(es.drop_last()[i] == es[i]);
                assert(es[i].0 != es.last().0);
            }
        }
    }
}

/// Two entry lists with the same entries (as a multiset) and distinct
/// keys describe the same mapping.
pub proof fn lemma_entries_map_perm(es1: Seq<SpecEntry>, es2: Seq<SpecEntry>)
    requires
        es1.to_multiset() == es2.to_multiset(),
        distinct_keys(es1),
    ensures
        distinct_keys(es2),
        entries_map(es1) == entries_map(es2),
        valid_keys(es1) ==> valid_keys(es2),
{
    broadcast use vstd::seq_lib::group_to_multiset_ensures;
    broadcast use vstd::multiset::group_multiset_axioms;

    if valid_keys(es1) {
        assert forall|x: int| 0 <= x < es2.len() implies valid_key((#[trigger] es2[x]).0) by {
            assert(es2.contains(es2[x]));
            assert(es2.to_multiset().count(es2[x]) > 0);
            assert(es1.to_multiset().count(es2[x]) > 0);
            assert(es1.contains(es2[x]));
            let y = choose|y: int| 0 <= y < es1.len() && es1[y] == es2[x];
            assert(valid_key(es1[y].0));
        }
    }

    assert forall|i: int, j: int| 0 <= i < j < es2.len() implies es2[i].0 != es2[j].0 by {
        if es2[i].0 == es2[j].0 {
            if es2[i] == es2[j] {
                let x = es2[i];
                es2.remove_ensures(i);
                assert(es2.remove(i).to_multiset() =~= es2.to_multiset().remove(x));
                assert(es2.remove(i)[j - 1] == x);
                assert(es2.remove(i).contains(x));
                assert(es2.remove(i).to_multiset().count(x) > 0);
                assert(es2.to_multiset().count(x) >= 2);
                assert(es1.to_multiset().count(x) >= 2);
                assert(es1.contains(x));
                let a = choose|a: int| 0 <= a < es1.len() && es1[a] == x;
                es1.remove_ensures(a);
                assert(es1.remove(a).to_multiset() =~= es1.to_multiset().remove(x));
                assert(es1.remove(a).to_multiset().count(x) > 0);
                assert(es1.remove(a).contains(x));
                let b = choose|b: int| 0 <= b < es1.remove(a).len() && es1.remove(a)[b] == x;
                if b < a {
                    assert(es1[b] == x);
                } else {
                    assert(es1[b + 1] == x);
                }
            } else {
                assert(es2.contains(es2[i]));
                assert(es2.contains(es2[j]));
                assert(es2.to_multiset().count(es2[i]) > 0);
                assert(es2.to_multiset().count(es2[j]) > 0);
                assert(es1.to_multiset().count(es2[i]) > 0);
                assert(es1.to_multiset().count(es2[j]) > 0);
                assert(es1.contains(es2[i]));
                assert(es1.contains(es2[j]));
                let a = choose|a: int| 0 <= a < es1.len() && es1[a] == es2[i];
                let b = choose|b: int| 0 <= b < es1.len() && es1[b] == es2[j];
                assert(a != b);
            }
        }
    }
    lemma_entries_map_dom(es1);
    lemma_entries_map_dom(es2);
    lemma_entries_map_val(es1);
    lemma_entries_map_val(es2);
    assert forall|k: Seq<char>| #[trigger] entries_map(es1).contains_key(k) implies entries_map(
        es2,
    ).contains_key(k) && entries_map(es2)[k] == entries_map(es1)[k] by {
        let i = choose|i: int| 0 <= i < es1.len() && es1[i].0 == k;
        assert(es1.contains(es1[i]));
        assert(es1.to_multiset().count(es1[i]) > 0);
        assert(es2.to_multiset().count(es1[i]) > 0);
        assert(es2.contains(es1[i]));
        let j = choose|j: int| 0 <= j < es2.len() && es2[j] == es1[i];
        assert(es2[j].0 == k);
    }
    assert forall|k: Seq<char>| #[trigger] entries_map(es2).contains_key(k) implies entries_map(
        es1,
    ).contains_key(k) by {
        let j = choose|j: int| 0 <= j < es2.len() && es2[j].0 == k;
        assert(es2.contains(es2[j]));
        assert(es2.to_multiset().count(es2[j]) > 0);
        assert(es1.to_multiset().count(es2[j]) > 0);
        assert(es1.contains(es2[j]));
        let i = choose|i: int| 0 <= i < es1.len() && es1[i] == es2[j];
        assert(es1[i].0 == k);
    }
    assert(entries_map(es1) =~= entries_map(es2));
}

/// A malformed configuration text, with the 1-based number of the
/// offending line.
#[derive(Debug)]
pub enum ConfigError {
    /// A key that is empty or contains a space.
    InvalidKey { line: usize, key: String },
    /// A line without `=`.
    InvalidLine { line: usize, content: String },
}

/// Configuration for git hooks: the decoded mapping of hook names to
/// commands, keyed uniquely.
#[derive(Debug)]
pub struct GitHooksConfig {
    /// The hook entries, with pairwise distinct valid keys.
    pub hooks: Vec<(String, String)>,
}

impl GitHooksConfig {
    /// The entries as sequences of characters.
    pub open spec fn entries(self) -> Seq<SpecEntry> {
        pair_views(self.hooks@)
    }

    /// Keys are valid and pairwise distinct.
    pub open spec fn wf(self) -> bool {
        distinct_keys(self.entries()) && valid_keys(self.entries())
    }

    /// The mapping from hook names to commands that this configuration
    /// holds.
    pub open spec fn as_map(self) -> Map<Seq<char>, Seq<char>> {
        entries_map(self.entries())
    }
}

/// How a parse result must relate to the text it was parsed from.
pub open spec fn parse_result_matches(s: Seq<char>, r: Result<GitHooksConfig, ConfigError>) -> bool {
    match parse_spec(s) {
        ParseOutcome::Parsed(es) => match r {
            Ok(cfg) => cfg.wf() && cfg.as_map() == entries_map(es),
            Err(_) => false,
        },
        ParseOutcome::KeyError { line, key } => match r {
            Err(ConfigError::InvalidKey { line: l, key: k }) => l as int == line && k@ == key,
            _ => false,
        },
        ParseOutcome::LineError { line, content } => match r {
            Err(ConfigError::InvalidLine { line: l, content: c }) => l as int == line && c@
                == content,
            _ => false,
        },
    }
}


/// The decimal digit character for `d`.
pub open spec fn digit_char(d: int) -> char {
    if d == 0 {
        '0'
    } else if d == 1 {
        '1'
    } else if d == 2 {
        '2'
    } else if d == 3 {
        '3'
    } else if d == 4 {
        '4'
    } else if d == 5 {
        '5'
    } else if d == 6 {
        '6'
    } else if d == 7 {
        '7'
    } else if d == 8 {
        '8'
    } else {
        '9'
    }
}

/// The decimal representation of `n`, most significant digit first.
pub open spec fn spec_dec(n: int) -> Seq<char>
    decreases n,
{
    if n < 10 {
        seq![digit_char(n)]
    } else {
        spec_dec(n / 10) + seq![digit_char(n % 10)]
    }
}

/// Appends the decimal representation of `n` to `out`.
fn push_dec(n: usize, out: &mut Vec<char>)
    ensures
        final(out)@ == old(out)@ + spec_dec(n as int),
    decreases n,
{
    if n < 10 {
        let d = n;
        let c = if d == 0 {
            '0'
        } else if d == 1 {
            '1'
        } else if d == 2 {
            '2'
        } else if d == 3 {
            '3'
        } else if d == 4 {
            '4'
        } else if d == 5 {
            '5'
        } else if d == 6 {
            '6'
        } else if d == 7 {
            '7'
        } else if d == 8 {
            '8'
        } else {
            '9'
        };
        out.push(c);
        proof {
            assert(final(out)@ =~= old(out)@ + spec_dec(n as int));
        }
    } else {
        push_dec(n / 10, out);
        let d = n % 10;
        let c = if d == 0 {
            '0'
        } else if d == 1 {
            '1'
        } else if d == 2 {
            '2'
        } else if d == 3 {
            '3'
        } else if d == 4 {
            '4'
        } else if d == 5 {
            '5'
        } else if d == 6 {
            '6'
        } else if d == 7 {
            '7'
        } else if d == 8 {
            '8'
        } else {
            '9'
        };
        out.push(c);
        proof {
            assert(final(out)@ =~= old(out)@ + spec_dec(n as int));
        }
    }
}

impl ConfigError {
    /// The diagnostic text for this error.
    pub open spec fn spec_message(self) -> Seq<char> {
        match self {
            ConfigError::InvalidKey { line, key } => "Invalid key '"@ + key@ + "' on line "@
                + spec_dec(line as int) + ". Keys cannot be empty or contain spaces."@,
            ConfigError::InvalidLine { line, content } => "Invalid TOML syntax on line "@
                + spec_dec(line as int) + ": '"@ + content@ + "'. Expected 'key = value' format."@,
        }
    }

    /// Renders the diagnostic text, naming the offending line.
    pub fn message(&self) -> (r: String)
        ensures
            r@ == self.spec_message(),
    {
        let mut out: Vec<char> = Vec::new();
        match self {
            ConfigError::InvalidKey { line, key } => {
                append_chars(&mut out, &str_to_chars("Invalid key '"));
                append_chars(&mut out, &str_to_chars(key.as_str()));
                append_chars(&mut out, &str_to_chars("' on line "));
                push_dec(*line, &mut out);
                append_chars(&mut out, &str_to_chars(". Keys cannot be empty or contain spaces."));
            },
            ConfigError::InvalidLine { line, content } => {
                append_chars(&mut out, &str_to_chars("Invalid TOML syntax on line "));
                push_dec(*line, &mut out);
                append_chars(&mut out, &str_to_chars(": '"));
                append_chars(&mut out, &str_to_chars(content.as_str()));
                append_chars(&mut out, &str_to_chars("'. Expected 'key = value' format."));
            },
        }
        chars_to_string(&out)
    }
}

/// How the executable parser classifies one line.
enum LineParsed {
    Skip,
    Pair(Vec<char>, Vec<char>),
    BadKey(Vec<char>),
    BadLine(Vec<char>),
}

/// Decodes a raw trimmed value.
fn decode_value_exec(v: &Vec<char>) -> (r: Vec<char>)
    ensures
        r@ == decode_value(v@),
{
    let n = v.len();
    if n >= 2 && v[0] == '"' && v[n - 1] == '"' {
        let inner = sub_chars(v, 1, n - 1);
        let pass1 = replace_pair_exec(&inner, '\\', '"', '"');
        replace_pair_exec(&pass1, '\\', '\\', '\\')
    } else if n >= 2 && v[0] == '\'' && v[n - 1] == '\'' {
        sub_chars(v, 1, n - 1)
    } else {
        sub_chars(v, 0, n)
    }
}

/// Classifies one raw line as the specification's `line_outcome` does.
fn parse_line_exec(l: &Vec<char>) -> (r: LineParsed)
    ensures
        match r {
            LineParsed::Skip => line_outcome(l@) == LineOutcome::Skipped,
            LineParsed::Pair(k, v) => line_outcome(l@) == LineOutcome::Pair(k@, v@) && valid_key(
                k@,
            ),
            LineParsed::BadKey(k) => line_outcome(l@) == LineOutcome::BadKey(k@),
            LineParsed::BadLine(c) => line_outcome(l@) == LineOutcome::BadLine(c@),
        },
{
    let t = trimmed(l);
    if t.len() == 0 || t[0] == '#' {
        return LineParsed::Skip;
    }
    let e = find_char(&t, '=');
    proof {
        lemma_find_from(t@, '=', 0);
    }
    if e == t.len() {
        return LineParsed::BadLine(t);
    }
    let key_raw = sub_chars(&t, 0, e);
    proof {
        assert(key_raw@ =~= t@.take(e as int));
    }
    let key = trimmed(&key_raw);
    let value_raw = sub_chars(&t, e + 1, t.len());
    proof {
        assert(value_raw@ =~= t@.skip(e as int + 1));
    }
    let value = trimmed(&value_raw);
    if key.len() == 0 || has_char(&key, ' ') {
        return LineParsed::BadKey(key);
    }
    let decoded = decode_value_exec(&value);
    LineParsed::Pair(key, decoded)
}

/// Joins the entries handed so far with the outcome of the remaining
/// lines.
pub open spec fn after_entries(pre: Seq<SpecEntry>, o: ParseOutcome) -> ParseOutcome {
    match o {
        ParseOutcome::Parsed(es) => ParseOutcome::Parsed(pre + es),
        other => other,
    }
}

impl GitHooksConfig {
    /// Parses a configuration text.
    ///
    /// Every non-blank, non-comment line must be a `key = value` pair;
    /// the first malformed line is reported with its 1-based number.
    pub fn parse_toml(content: &str) -> (r: Result<GitHooksConfig, ConfigError>)
        ensures
            parse_result_matches(content@, r),
    {
        let cs = str_to_chars(content);
        let lines = split_lines(&cs);
        let ghost lv = spec_lines(content@);
        let n = lines.len();
        let mut hooks: Vec<(String, String)> = Vec::new();
        let ghost mut pre: Seq<SpecEntry> = Seq::empty();
        let mut i: usize = 0;
        proof {
            assert(lv.skip(0) =~= lv);
            match parse_spec(content@) {
                ParseOutcome::Parsed(es) => {
                    assert(Seq::<SpecEntry>::empty() + es =~= es);
                },
                _ => {},
            }
            assert(after_entries(pre, parse_lines(lv.skip(0), 1)) == parse_spec(content@));
        }
        while i < n
            invariant
                n == lines@.len(),
                i <= n,
                line_views(lines@) == lv,
                lv == spec_lines(content@),
                after_entries(pre, parse_lines(lv.skip(i as int), i + 1 as int)) == parse_spec(
                    content@,
                ),
                distinct_keys(pair_views(hooks@)),
                valid_keys(pair_views(hooks@)),
                entries_map(pair_views(hooks@)) == entries_map(pre),
            decreases n - i,
        {
            proof {
                assert(lv.skip(i as int).len() > 0);
                assert(lv.skip(i as int)[0] == lv[i as int]);
                assert(lv.skip(i as int).skip(1) =~= lv.skip(i as int + 1));
                assert(lines@[i as int]@ == lv[i as int]);
            }
            match parse_line_exec(&lines[i]) {
                LineParsed::Skip => {
                    proof {
                        assert(parse_lines(lv.skip(i as int), i + 1 as int) == parse_lines(
                            lv.skip(i as int + 1),
                            i + 2 as int,
                        ));
                    }
                },
                LineParsed::Pair(k, v) => {
                    let ghost entry = (k@, v@);
                    let ghost rest = parse_lines(lv.skip(i as int + 1), i + 2 as int);
                    proof {
                        assert(parse_lines(lv.skip(i as int), i + 1 as int) == (match rest {
                            ParseOutcome::Parsed(es) => ParseOutcome::Parsed(seq![entry] + es),
                            other => other,
                        }));
                        match rest {
                            ParseOutcome::Parsed(es) => {
                                assert(pre + (seq![entry] + es) =~= pre.push(entry) + es);
                            },
                            _ => {},
                        }
                        assert(after_entries(pre.push(entry), rest) == parse_spec(content@));
                    }
                    let ks = chars_to_string(&k);
                    let vs = chars_to_string(&v);
                    upsert(&mut hooks, ks, vs);
                    proof {
                        assert(pre.push(entry).drop_last() =~= pre);
                        assert(entries_map(pre.push(entry)) == entries_map(pre).insert(
                            entry.0,
                            entry.1,
                        ));
                        pre = pre.push(entry);
                    }
                },
                LineParsed::BadKey(k) => {
                    proof {
                        assert(parse_lines(lv.skip(i as int), i + 1 as int)
                            == ParseOutcome::KeyError { line: i + 1 as int, key: k@ });
                    }
                    return Err(ConfigError::InvalidKey { line: i + 1, key: chars_to_string(&k) });
                },
                LineParsed::BadLine(c) => {
                    proof {
                        assert(parse_lines(lv.skip(i as int), i + 1 as int)
                            == ParseOutcome::LineError { line: i + 1 as int, content: c@ });
                    }
                    return Err(
                        ConfigError::InvalidLine { line: i + 1, content: chars_to_string(&c) },
                    );
                },
            }
            i = i + 1;
        }
        proof {
            assert(lv.skip(n as int) =~= Seq::<Seq<char>>::empty());
            assert(parse_lines(lv.skip(n as int), n + 1 as int) == ParseOutcome::Parsed(
                Seq::empty(),
            ));
            assert(pre + Seq::<SpecEntry>::empty() =~= pre);
            assert(parse_spec(content@) == ParseOutcome::Parsed(pre));
        }
        Ok(GitHooksConfig { hooks })
    }
}


/// Non-strict lexicographic order.
pub open spec fn lex_le(a: Seq<char>, b: Seq<char>) -> bool {
    lex_lt(a, b) || a == b
}

/// Entries are in non-decreasing key order.
pub open spec fn sorted_by_key(es: Seq<SpecEntry>) -> bool {
    forall|i: int, j: int|
        0 <= i < j < es.len() ==> lex_le((#[trigger] es[i]).0, (#[trigger] es[j]).0)
}

/// One serialized line: `key = "escaped value"` and a line feed.
pub open spec fn render_line(e: SpecEntry) -> Seq<char> {
    e.0 + seq![' ', '=', ' ', '"'] + escape(e.1) + seq!['"', '\n']
}

/// The serialized text for a list of entries.
pub open spec fn render_entries(es: Seq<SpecEntry>) -> Seq<char>
    decreases es.len(),
{
    if es.len() == 0 {
        Seq::empty()
    } else {
        render_line(es[0]) + render_entries(es.skip(1))
    }
}

/// The whole serialized text: the rendered entries, or a single line
/// feed when there are none.
pub open spec fn render_text(es: Seq<SpecEntry>) -> Seq<char> {
    if es.len() == 0 {
        seq!['\n']
    } else {
        render_entries(es)
    }
}

/// Escapes a value for a double-quoted serialized form.
fn escape_exec(v: &Vec<char>) -> (out: Vec<char>)
    ensures
        out@ == escape(v@),
{
    let n = v.len();
    let mut out: Vec<char> = Vec::new();
    let mut i: usize = 0;
    proof {
        assert(v@.skip(0) =~= v@);
        assert(Seq::<char>::empty() + escape(v@) =~= escape(v@));
    }
    while i < n
        invariant
            n == v@.len(),
            i <= n,
            escape(v@) == out@ + escape(v@.skip(i as int)),
        decreases n - i,
    {
        let ghost prev = out@;
        let c = v[i];
        if c == '\\' {
            out.push('\\');
            out.push('\\');
            proof {
                assert(out@ =~= prev + seq!['\\', '\\']);
            }
        } else if c == '"' {
            out.push('\\');
            out.push('"');
            proof {
                assert(out@ =~= prev + seq!['\\', '"']);
            }
        } else {
            out.push(c);
            proof {
                assert(out@ =~= prev + seq![c]);
            }
        }
        proof {
            assert(v@.skip(i as int).skip(1) =~= v@.skip(i as int + 1));
            assert(v@.skip(i as int)[0] == c);
            assert(escape(v@) == out@ + escape(v@.skip(i as int + 1)));
        }
        i = i + 1;
    }
    proof {
        assert(v@.skip(n as int) =~= Seq::<char>::empty());
        assert(out@ =~= escape(v@));
    }
    out
}

/// Lexicographic order is transitive.
pub proof fn lemma_lex_trans(a: Seq<char>, b: Seq<char>, c: Seq<char>)
    requires
        lex_lt(a, b),
        lex_lt(b, c),
    ensures
        lex_lt(a, c),
    decreases a.len(),
{
    if c.len() == 0 || b.len() == 0 {
    } else if a.len() == 0 {
    } else {
        vstd::utf8::char_u32_cast(a[0], a[0] as u32);
        vstd::utf8::char_u32_cast(b[0], b[0] as u32);
        vstd::utf8::char_u32_cast(c[0], c[0] as u32);
        if a[0] == b[0] && b[0] == c[0] {
            lemma_lex_trans(a.skip(1), b.skip(1), c.skip(1));
        } else {
            assert((a[0] as u32) <= (b[0] as u32));
            assert((b[0] as u32) <= (c[0] as u32));
            assert((a[0] as u32) < (c[0] as u32));
            assert(a[0] != c[0]);
        }
    }
}


/// Moving one element from the pending list to the front list keeps the
/// combined entries the same, as a multiset.
pub proof fn lemma_extract_step(front: Seq<SpecEntry>, pending: Seq<SpecEntry>, m: int)
    requires
        0 <= m < pending.len(),
    ensures
        (front.push(pending[m]) + pending.remove(m)).to_multiset() == (front
            + pending).to_multiset(),
{
    broadcast use vstd::seq_lib::group_to_multiset_ensures;
    broadcast use vstd::multiset::group_multiset_axioms;

    let x = pending[m];
    lemma_multiset_commutative(front.push(x), pending.remove(m));
    lemma_multiset_commutative(front, pending);
    assert(front.push(x).to_multiset() =~= front.to_multiset().insert(x));
    assert(pending.remove(m).to_multiset() == pending.to_multiset().remove(x));
    assert(pending.contains(x));
    assert(pending.to_multiset().count(x) > 0);
    assert((front.push(x) + pending.remove(m)).to_multiset() =~= (front + pending).to_multiset());
}

/// The entry views of a vector of character-vector pairs.
pub open spec fn chars_pair_views(hs: Seq<(Vec<char>, Vec<char>)>) -> Seq<SpecEntry> {
    hs.map_values(|p: (Vec<char>, Vec<char>)| (p.0@, p.1@))
}

impl GitHooksConfig {
    /// Serializes the configuration: one `key = "value"` line per entry,
    /// keys sorted, values escaped, with a trailing line feed.
    pub fn to_toml_string(&self) -> (r: String)
        requires
            self.wf(),
        ensures
            exists|es: Seq<SpecEntry>|
                sorted_by_key(es) && distinct_keys(es) && valid_keys(es) && entries_map(es)
                    == self.as_map() && #[trigger] render_text(es) == r@,
    {
        broadcast use vstd::seq_lib::group_to_multiset_ensures;

        let n = self.hooks.len();
        let mut src: Vec<(Vec<char>, Vec<char>)> = Vec::new();
        let mut i: usize = 0;
        while i < n
            invariant
                n == self.hooks@.len(),
                i <= n,
                chars_pair_views(src@) == self.entries().take(i as int),
            decreases n - i,
        {
            let k = str_to_chars(self.hooks[i].0.as_str());
            let v = str_to_chars(self.hooks[i].1.as_str());
            let ghost kk = k@;
            let ghost vv = v@;
            let ghost prev = src@;
            src.push((k, v));
            i = i + 1;
            proof {
                assert(chars_pair_views(prev).len() == prev.len());
                assert(prev.len() == i - 1);
                assert(src@.len() == i as int);
                assert forall|x: int|
                    0 <= x < i implies #[trigger] chars_pair_views(src@)[x]
                    == self.entries()[x] by {
                    if x < i - 1 {
                        assert(src@[x] == prev[x]);
                        assert(chars_pair_views(prev)[x] == self.entries().take(i as int - 1)[x]);
                    } else {
                        assert(src@[x].0@ == kk);
                        assert(src@[x].1@ == vv);
                        assert(kk == self.hooks@[x].0@);
                        assert(vv == self.hooks@[x].1@);
                    }
                }
                assert(chars_pair_views(src@) =~= self.entries().take(i as int));
            }
        }
        proof {
            assert(self.entries().take(n as int) =~= self.entries());
        }
        let mut out: Vec<(Vec<char>, Vec<char>)> = Vec::new();
        proof {
            assert(chars_pair_views(out@) + chars_pair_views(src@) =~= self.entries());
        }
        while src.len() > 0
            invariant
                distinct_keys(chars_pair_views(out@) + chars_pair_views(src@)),
                valid_keys(chars_pair_views(out@) + chars_pair_views(src@)),
                entries_map(chars_pair_views(out@) + chars_pair_views(src@)) == self.as_map(),
                sorted_by_key(chars_pair_views(out@)),
                forall|a: int, b: int|
                    0 <= a < out@.len() && 0 <= b < src@.len() ==> lex_le(
                        (#[trigger] chars_pair_views(out@)[a]).0,
                        (#[trigger] chars_pair_views(src@)[b]).0,
                    ),
            decreases src@.len(),
        {
            let m = find_min_key(&src);
            let ghost old_out = chars_pair_views(out@);
            let ghost old_src = chars_pair_views(src@);
            let ghost old_src_raw = src@;
            let e = src.remove(m);
            out.push(e);
            proof {
                old_src_raw.remove_ensures(m as int);
                old_src.remove_ensures(m as int);
                assert forall|x: int| 0 <= x < src@.len() implies chars_pair_views(src@)[x]
                    == old_src.remove(m as int)[x] by {
                    if x < m {
                        assert(src@[x] == old_src_raw[x]);
                        assert(old_src.remove(m as int)[x] == old_src[x]);
                    } else {
                        assert(src@[x] == old_src_raw[x + 1]);
                        assert(old_src.remove(m as int)[x] == old_src[x + 1]);
                    }
                }
                assert(chars_pair_views(src@) =~= old_src.remove(m as int));
                assert(chars_pair_views(out@) =~= old_out.push(old_src[m as int]));
                let cat_old = old_out + old_src;
                let cat_new = chars_pair_views(out@) + chars_pair_views(src@);
                lemma_extract_step(old_out, old_src, m as int);
                assert(cat_new.to_multiset() == cat_old.to_multiset());
                lemma_entries_map_perm(cat_old, cat_new);
                assert forall|a: int, b: int|
                    0 <= a < out@.len() && 0 <= b < src@.len() implies lex_le(
                    (#[trigger] chars_pair_views(out@)[a]).0,
                    (#[trigger] chars_pair_views(src@)[b]).0,
                ) by {
                    let sb = chars_pair_views(src@)[b];
                    if b < m {
                        assert(sb == old_src[b]);
                    } else {
                        assert(sb == old_src[b + 1]);
                    }
                    assert(old_src.contains(sb));
                    if a < old_out.len() {
                        assert(chars_pair_views(out@)[a] == old_out[a]);
                    } else {
                        assert(chars_pair_views(out@)[a] == old_src[m as int]);
                        let bo = if b < m {
                            b
                        } else {
                            b + 1
                        };
                        assert(!lex_lt(old_src[bo].0, old_src[m as int].0));
                        lemma_lex_total(old_src[bo].0, old_src[m as int].0);
                    }
                }
                assert forall|a: int, b: int|
                    0 <= a < b < out@.len() implies lex_le(
                    (#[trigger] chars_pair_views(out@)[a]).0,
                    (#[trigger] chars_pair_views(out@)[b]).0,
                ) by {
                    if b < out@.len() - 1 {
                        assert(chars_pair_views(out@)[a] == old_out[a]);
                        assert(chars_pair_views(out@)[b] == old_out[b]);
                    } else {
                        assert(chars_pair_views(out@)[a] == old_out[a]);
                        assert(chars_pair_views(out@)[b] == old_src[m as int]);
                    }
                }
            }
        }
        proof {
            assert(chars_pair_views(src@) =~= Seq::<SpecEntry>::empty());
            assert(chars_pair_views(out@) + chars_pair_views(src@) =~= chars_pair_views(out@));
        }
        let mut text: Vec<char> = Vec::new();
        let k = out.len();
        let mut i: usize = 0;
        let ghost es = chars_pair_views(out@);
        proof {
            assert(es.skip(0) =~= es);
            assert(Seq::<char>::empty() + render_entries(es) =~= render_entries(es));
        }
        while i < k
            invariant
                k == out@.len(),
                i <= k,
                es == chars_pair_views(out@),
                render_entries(es) == text@ + render_entries(es.skip(i as int)),
            decreases k - i,
        {
            let ghost prev = text@;
            append_chars(&mut text, &out[i].0);
            text.push(' ');
            text.push('=');
            text.push(' ');
            text.push('"');
            let esc = escape_exec(&out[i].1);
            append_chars(&mut text, &esc);
            text.push('"');
            text.push('\n');
            proof {
                assert(text@ =~= prev + render_line(es[i as int]));
                assert(es.skip(i as int)[0] == es[i as int]);
                assert(es.skip(i as int).skip(1) =~= es.skip(i as int + 1));
                assert(render_entries(es.skip(i as int)) == render_line(es[i as int])
                    + render_entries(es.skip(i as int + 1)));
                assert(prev + (render_line(es[i as int]) + render_entries(es.skip(i as int + 1)))
                    =~= (prev + render_line(es[i as int])) + render_entries(es.skip(i as int + 1)));
            }
            i = i + 1;
        }
        proof {
            assert(es.skip(k as int) =~= Seq::<SpecEntry>::empty());
            assert(text@ =~= render_entries(es));
        }
        if text.len() == 0 {
            text.push('\n');
            proof {
                assert(es.len() == 0) by {
                    if es.len() > 0 {
                        assert(render_entries(es) == render_line(es[0]) + render_entries(
                            es.skip(1),
                        ));
                        assert(render_entries(es).len() >= render_line(es[0]).len());
                    }
                }
                assert(render_text(es) == text@);
            }
        } else {
            proof {
                assert(es.len() > 0) by {
                    if es.len() == 0 {
                        assert(render_entries(es) == Seq::<char>::empty());
                    }
                }
                assert(render_text(es) == text@);
            }
        }
        chars_to_string(&text)
    }
}

/// The index of an entry with a lexicographically minimal key.
fn find_min_key(src: &Vec<(Vec<char>, Vec<char>)>) -> (m: usize)
    requires
        src@.len() > 0,
    ensures
        m < src@.len(),
        forall|j: int|
            0 <= j < src@.len() ==> !lex_lt((#[trigger] src@[j]).0@, src@[m as int].0@),
{
    let n = src.len();
    let mut m: usize = 0;
    let mut j: usize = 1;
    proof {
        lemma_lex_irrefl(src@[0].0@);
    }
    while j < n
        invariant
            n == src@.len(),
            m < j <= n,
            forall|x: int| 0 <= x < j ==> !lex_lt((#[trigger] src@[x]).0@, src@[m as int].0@),
        decreases n - j,
    {
        if lex_lt_exec(&src[j].0, &src[m].0) {
            proof {
                assert forall|x: int| 0 <= x < j + 1 implies !lex_lt(
                    (#[trigger] src@[x]).0@,
                    src@[j as int].0@,
                ) by {
                    if x < j {
                        if lex_lt(src@[x].0@, src@[j as int].0@) {
                            lemma_lex_trans(src@[x].0@, src@[j as int].0@, src@[m as int].0@);
                        }
                    } else {
                        lemma_lex_irrefl(src@[j as int].0@);
                    }
                }
            }
            m = j;
        }
        j = j + 1;
    }
    m
}

/// Nothing is lexicographically below itself.
pub proof fn lemma_lex_irrefl(a: Seq<char>)
    ensures
        !lex_lt(a, a),
    decreases a.len(),
{
    if a.len() > 0 {
        lemma_lex_irrefl(a.skip(1));
    }
}


impl GitHooksConfig {
    /// The command configured for `hook_name`, if any.
    pub fn get_hook_command(&self, hook_name: &str) -> (r: Option<&str>)
        requires
            self.wf(),
        ensures
            match r {
                Some(c) => self.as_map().contains_key(hook_name@) && c@ == self.as_map().index(
                    hook_name@,
                ),
                None => !self.as_map().contains_key(hook_name@),
            },
    {
        proof {
            lemma_entries_map_dom(self.entries());
            lemma_entries_map_val(self.entries());
        }
        let n = self.hooks.len();
        let mut i: usize = 0;
        while i < n
            invariant
                n == self.hooks@.len(),
                i <= n,
                self.wf(),
                forall|j: int| 0 <= j < i ==> (#[trigger] self.entries()[j]).0 != hook_name@,
                forall|k: Seq<char>|
                    #[trigger] entries_map(self.entries()).contains_key(k) <==> has_key(
                        self.entries(),
                        k,
                    ),
                forall|j: int|
                    0 <= j < self.entries().len() ==> entries_map(self.entries()).contains_key(
                        (#[trigger] self.entries()[j]).0,
                    ) && entries_map(self.entries())[self.entries()[j].0]
                        == self.entries()[j].1,
            decreases n - i,
        {
            if str_eq(self.hooks[i].0.as_str(), hook_name) {
                proof {
                    assert(self.entries()[i as int].0 == hook_name@);
                    assert(entries_map(self.entries()).contains_key(self.entries()[i as int].0));
                    assert(self.as_map()[hook_name@] == self.entries()[i as int].1);
                }
                return Some(self.hooks[i].1.as_str());
            }
            i = i + 1;
        }
        proof {
            if has_key(self.entries(), hook_name@) {
                let j = choose|j: int|
                    0 <= j < self.entries().len() && self.entries()[j].0 == hook_name@;
                assert((self.entries()[j]).0 == hook_name@);
                assert(false);
            }
        }
        None
    }

    /// Whether `hook_name` is configured with a command that is not
    /// blank.
    pub fn has_active_hook(&self, hook_name: &str) -> (r: bool)
        requires
            self.wf(),
        ensures
            r == (self.as_map().contains_key(hook_name@) && spec_trim(
                self.as_map()[hook_name@],
            ).len() > 0),
    {
        match self.get_hook_command(hook_name) {
            Some(c) => {
                let cs = str_to_chars(c);
                let t = trimmed(&cs);
                t.len() > 0
            },
            None => false,
        }
    }

    /// Parses a configuration, or yields the empty configuration when no
    /// file content is at hand.
    pub fn load(file: Option<&str>) -> (r: Result<GitHooksConfig, ConfigError>)
        ensures
            match file {
                Some(text) => parse_result_matches(text@, r),
                None => match r {
                    Ok(cfg) => cfg.wf() && cfg.as_map() == Map::<Seq<char>, Seq<char>>::empty()
                        && cfg.hooks@.len() == 0,
                    Err(_) => false,
                },
            },
    {
        match file {
            Some(text) => Self::parse_toml(text),
            None => Ok(GitHooksConfig { hooks: Vec::new() }),
        }
    }

    /// A sample configuration: formatting and linting before a commit, a
    /// test run before a push, and a `commit-msg` entry left inactive.
    pub fn create_sample() -> (r: GitHooksConfig)
        ensures
            r.wf(),
            r.as_map() == Map::<Seq<char>, Seq<char>>::empty().insert(
                "pre-commit"@,
                "cargo fmt --check && cargo clippy -- -D warnings"@,
            ).insert("pre-push"@, "cargo test"@).insert("commit-msg"@, ""@),
    {
        let mut hooks: Vec<(String, String)> = Vec::new();
        hooks.push(
            (
                String::from_str("pre-commit"),
                String::from_str("cargo fmt --check && cargo clippy -- -D warnings"),
            ),
        );
        hooks.push((String::from_str("pre-push"), String::from_str("cargo test")));
        hooks.push((String::from_str("commit-msg"), String::from_str("")));
        let r = GitHooksConfig { hooks };
        proof {
            reveal_strlit("pre-commit");
            reveal_strlit("pre-push");
            reveal_strlit("commit-msg");
            reveal_strlit("");
            let es = r.entries();
            assert(es.len() == 3);
            assert(es[0].0 == "pre-commit"@ && es[0].1
                == "cargo fmt --check && cargo clippy -- -D warnings"@);
            assert(es[1].0 == "pre-push"@ && es[1].1 == "cargo test"@);
            assert(es[2].0 == "commit-msg"@ && es[2].1 == ""@);
            assert("pre-commit"@[0] == 'p' && "commit-msg"@[0] == 'c');
            assert(es[0].0 != es[1].0);
            assert(es[0].0 != es[2].0);
            assert(es[1].0 != es[2].0);
            assert(valid_key(es[0].0)) by {
                assert(forall|j: int| 0 <= j < es[0].0.len() ==> es[0].0[j] != ' ');
            }
            assert(valid_key(es[1].0)) by {
                assert(forall|j: int| 0 <= j < es[1].0.len() ==> es[1].0[j] != ' ');
            }
            assert(valid_key(es[2].0)) by {
                assert(forall|j: int| 0 <= j < es[2].0.len() ==> es[2].0[j] != ' ');
            }
            assert(es.drop_last().drop_last().drop_last() =~= Seq::<SpecEntry>::empty());
            assert(es.drop_last().drop_last() =~= seq![es[0]]);
            assert(es.drop_last() =~= seq![es[0], es[1]]);
            assert(seq![es[0]].drop_last() =~= Seq::<SpecEntry>::empty());
            assert(seq![es[0], es[1]].drop_last() =~= seq![es[0]]);
            assert(entries_map(Seq::<SpecEntry>::empty()) == Map::<Seq<char>, Seq<char>>::empty());
            assert(entries_map(seq![es[0]]) == Map::<Seq<char>, Seq<char>>::empty().insert(
                es[0].0,
                es[0].1,
            ));
            assert(entries_map(seq![es[0], es[1]]) == entries_map(seq![es[0]]).insert(
                es[1].0,
                es[1].1,
            ));
            assert(entries_map(es) == entries_map(seq![es[0], es[1]]).insert(es[2].0, es[2].1));
            assert(entries_map(es) == Map::<Seq<char>, Seq<char>>::empty().insert(
                "pre-commit"@,
                "cargo fmt --check && cargo clippy -- -D warnings"@,
            ).insert("pre-push"@, "cargo test"@).insert("commit-msg"@, ""@));
        }
        r
    }
}

impl Default for GitHooksConfig {
    /// The empty configuration.
    fn default() -> (r: Self)
        ensures
            r.wf(),
            r.as_map() == Map::<Seq<char>, Seq<char>>::empty(),
            r.hooks@.len() == 0,
    {
        GitHooksConfig { hooks: Vec::new() }
    }
}


/// The escaping with only backslashes doubled: what the first unescape
/// pass leaves of an escaped value.
pub open spec fn half_escape(s: Seq<char>) -> Seq<char>
    decreases s.len(),
{
    if s.len() == 0 {
        s
    } else {
        (if s[0] == '\\' {
            seq!['\\', '\\']
        } else {
            seq![s[0]]
        }) + half_escape(s.skip(1))
    }
}

/// An escaped value never starts with a bare quote.
proof fn lemma_escape_head(u: Seq<char>)
    ensures
        escape(u).len() == 0 <==> u.len() == 0,
        u.len() > 0 ==> escape(u)[0] != '"',
{
    if u.len() > 0 {
        if u[0] == '\\' {
            assert(escape(u)[0] == '\\');
        } else if u[0] == '"' {
            assert(escape(u)[0] == '\\');
        } else {
            assert(escape(u)[0] == u[0]);
        }
    }
}

/// The first unescape pass walks over a backslash that no quote
/// follows.
proof fn lemma_pass1_after_bs(w: Seq<char>)
    requires
        w.len() == 0 || w[0] != '"',
    ensures
        replace_pair(seq!['\\'] + w, '\\', '"', '"') == seq!['\\'] + replace_pair(w, '\\', '"', '"'),
{
    let s = seq!['\\'] + w;
    if w.len() == 0 {
        assert(s.len() == 1);
        assert(s =~= seq!['\\'] + w);
        assert(replace_pair(w, '\\', '"', '"') == w);
    } else {
        assert(s.len() >= 2);
        assert(s[0] == '\\' && s[1] == w[0]);
        assert(s[1] != '"');
        assert(s.skip(1) =~= w);
        assert(replace_pair(s, '\\', '"', '"') == seq![s[0]] + replace_pair(s.skip(1), '\\', '"', '"'));
    }
}

/// The first unescape pass turns an escaped value into its half-escaped
/// form: each `\"` becomes `"` and each `\\` survives.
proof fn lemma_pass1(v: Seq<char>)
    ensures
        replace_pair(escape(v), '\\', '"', '"') == half_escape(v),
    decreases v.len(),
{
    if v.len() == 0 {
    } else {
        let w = escape(v.skip(1));
        lemma_escape_head(v.skip(1));
        lemma_pass1(v.skip(1));
        let s = escape(v);
        if v[0] == '\\' {
            assert(s =~= seq!['\\', '\\'] + w);
            assert(s.len() >= 2 && s[0] == '\\' && s[1] == '\\');
            assert(replace_pair(s, '\\', '"', '"') == seq!['\\'] + replace_pair(
                s.skip(1),
                '\\',
                '"',
                '"',
            ));
            assert(s.skip(1) =~= seq!['\\'] + w);
            lemma_pass1_after_bs(w);
            assert(replace_pair(s, '\\', '"', '"') =~= seq!['\\', '\\'] + half_escape(v.skip(1)));
            assert(half_escape(v) == seq!['\\', '\\'] + half_escape(v.skip(1)));
        } else if v[0] == '"' {
            assert(s =~= seq!['\\', '"'] + w);
            assert(s.len() >= 2 && s[0] == '\\' && s[1] == '"');
            assert(replace_pair(s, '\\', '"', '"') == seq!['"'] + replace_pair(
                s.skip(2),
                '\\',
                '"',
                '"',
            ));
            assert(s.skip(2) =~= w);
            assert(replace_pair(s, '\\', '"', '"') =~= seq!['"'] + half_escape(v.skip(1)));
            assert(half_escape(v) == seq!['"'] + half_escape(v.skip(1)));
        } else {
            assert(s =~= seq![v[0]] + w);
            assert(s[0] == v[0] && v[0] != '\\');
            if s.len() >= 2 {
                assert(replace_pair(s, '\\', '"', '"') == seq![s[0]] + replace_pair(
                    s.skip(1),
                    '\\',
                    '"',
                    '"',
                ));
            } else {
                assert(w.len() == 0);
                assert(replace_pair(s, '\\', '"', '"') == s);
                assert(s.skip(1) =~= w);
                assert(replace_pair(s, '\\', '"', '"') =~= seq![s[0]] + replace_pair(
                    s.skip(1),
                    '\\',
                    '"',
                    '"',
                ));
            }
            assert(s.skip(1) =~= w);
            assert(replace_pair(s, '\\', '"', '"') =~= seq![v[0]] + half_escape(v.skip(1)));
            assert(half_escape(v) == seq![v[0]] + half_escape(v.skip(1)));
        }
    }
}

/// The second unescape pass halves the doubled backslashes and restores
/// the original value.
proof fn lemma_pass2(v: Seq<char>)
    ensures
        replace_pair(half_escape(v), '\\', '\\', '\\') == v,
    decreases v.len(),
{
    if v.len() == 0 {
    } else {
        lemma_pass2(v.skip(1));
        let h = half_escape(v);
        let rest = half_escape(v.skip(1));
        if v[0] == '\\' {
            assert(h =~= seq!['\\', '\\'] + rest);
            assert(h.len() >= 2 && h[0] == '\\' && h[1] == '\\');
            assert(replace_pair(h, '\\', '\\', '\\') == seq!['\\'] + replace_pair(
                h.skip(2),
                '\\',
                '\\',
                '\\',
            ));
            assert(h.skip(2) =~= rest);
            assert(replace_pair(h, '\\', '\\', '\\') =~= seq![v[0]] + v.skip(1));
            assert(seq![v[0]] + v.skip(1) =~= v);
        } else {
            assert(h =~= seq![v[0]] + rest);
            assert(h[0] == v[0] && v[0] != '\\');
            if h.len() >= 2 {
                assert(replace_pair(h, '\\', '\\', '\\') == seq![h[0]] + replace_pair(
                    h.skip(1),
                    '\\',
                    '\\',
                    '\\',
                ));
            } else {
                assert(rest.len() == 0);
                assert(replace_pair(h, '\\', '\\', '\\') == h);
                assert(h.skip(1) =~= rest);
                assert(replace_pair(h, '\\', '\\', '\\') =~= seq![h[0]] + replace_pair(
                    h.skip(1),
                    '\\',
                    '\\',
                    '\\',
                ));
            }
            assert(h.skip(1) =~= rest);
            assert(replace_pair(h, '\\', '\\', '\\') =~= seq![v[0]] + v.skip(1));
            assert(seq![v[0]] + v.skip(1) =~= v);
        }
    }
}

/// Unescaping inverts escaping on every value.
pub proof fn lemma_unescape_escape(v: Seq<char>)
    ensures
        unescape(escape(v)) == v,
{
    lemma_pass1(v);
    lemma_pass2(v);
}

/// Escaping introduces only backslashes and quotes beside the value's
/// own characters.
proof fn lemma_escape_no_newline(v: Seq<char>)
    requires
        !v.contains('\n'),
    ensures
        !escape(v).contains('\n'),
    decreases v.len(),
{
    if v.len() > 0 {
        assert(!v.skip(1).contains('\n')) by {
            if v.skip(1).contains('\n') {
                let i = choose|i: int| 0 <= i < v.skip(1).len() && v.skip(1)[i] == '\n';
                assert(v[i + 1] == '\n');
            }
        }
        lemma_escape_no_newline(v.skip(1));
        assert(v[0] != '\n');
        if escape(v).contains('\n') {
            let i = choose|i: int| 0 <= i < escape(v).len() && escape(v)[i] == '\n';
            let head: Seq<char> = if v[0] == '\\' {
                seq!['\\', '\\']
            } else if v[0] == '"' {
                seq!['\\', '"']
            } else {
                seq![v[0]]
            };
            assert(escape(v) == head + escape(v.skip(1)));
            if i < head.len() {
                assert(head[i] != '\n');
            } else {
                assert(escape(v.skip(1))[i - head.len()] == '\n');
                assert(escape(v.skip(1)).contains('\n'));
            }
        }
    }
}

/// A key that the serialized text reproduces exactly: non-empty,
/// without spaces, `=`, or line feeds, not starting with `#`, and with
/// non-whitespace edges.
pub open spec fn round_trip_key(k: Seq<char>) -> bool {
    k.len() > 0 && !k.contains(' ') && !k.contains('=') && !k.contains('\n') && k[0] != '#'
        && !is_white(k[0]) && !is_white(k.last())
}

/// One serialized line without its trailing line feed.
pub open spec fn body_of(e: SpecEntry) -> Seq<char> {
    e.0 + seq![' ', '=', ' ', '"'] + escape(e.1) + seq!['"']
}

/// Parsing one serialized line recovers its entry.
proof fn lemma_line_outcome_of_rendered(k: Seq<char>, v: Seq<char>)
    requires
        round_trip_key(k),
    ensures
        line_outcome(body_of((k, v))) == LineOutcome::Pair(k, v),
{
    let l = body_of((k, v));
    let kn = k.len() as int;
    let en = escape(v).len() as int;
    assert(l.len() == kn + 5 + en);
    assert(forall|j: int| 0 <= j < kn ==> l[j] == k[j]);
    assert(l[kn] == ' ' && l[kn + 1] == '=' && l[kn + 2] == ' ' && l[kn + 3] == '"');
    assert(forall|j: int| 0 <= j < en ==> l[kn + 4 + j] == escape(v)[j]);
    assert(l[l.len() - 1] == '"');
    assert(!is_white(l[0])) by {
        assert(l[0] == k[0]);
    }
    assert(!is_white('"'));
    assert(spec_trim_start(l) == l);
    assert(l.last() == '"');
    assert(spec_trim_end(l) == l);
    assert(spec_trim(l) == l);
    assert(l[0] == k[0] && k[0] != '#');
    lemma_find_from(l, '=', 0);
    let f = find_from(l, '=', 0);
    assert forall|j: int| 0 <= j < kn + 1 implies l[j] != '=' by {
        if j < kn {
            assert(l[j] == k[j]);
            assert(k.contains(k[j]));
        }
    }
    assert(f == kn + 1);
    let key_raw = l.take(f);
    assert(key_raw =~= k + seq![' ']);
    assert(is_white(' '));
    assert(spec_trim_start(k + seq![' ']) == k + seq![' ']) by {
        assert((k + seq![' '])[0] == k[0]);
    }
    assert((k + seq![' ']).last() == ' ');
    assert((k + seq![' ']).drop_last() =~= k);
    assert(spec_trim_end(k + seq![' ']) == spec_trim_end(k));
    assert(spec_trim_end(k) == k);
    assert(spec_trim(key_raw) == k);
    let value_raw = l.skip(f + 1);
    assert(value_raw =~= seq![' ', '"'] + escape(v) + seq!['"']);
    let unsp = seq!['"'] + escape(v) + seq!['"'];
    assert(value_raw.skip(1) =~= unsp);
    assert(spec_trim_start(value_raw) == spec_trim_start(value_raw.skip(1)));
    assert(unsp[0] == '"');
    assert(spec_trim_start(unsp) == unsp);
    assert(unsp.last() == '"');
    assert(spec_trim_end(unsp) == unsp);
    assert(spec_trim(value_raw) == unsp);
    assert(unsp.len() >= 2);
    assert(unsp.subrange(1, unsp.len() - 1) =~= escape(v));
    lemma_unescape_escape(v);
    assert(decode_value(unsp) == v);
    assert(valid_key(k)) by {
        assert(!k.contains(' '));
    }
}

/// A rendered line body holds no line feed when its key and value hold
/// none.
proof fn lemma_body_no_newline(e: SpecEntry)
    requires
        !e.0.contains('\n'),
        !e.1.contains('\n'),
    ensures
        !body_of(e).contains('\n'),
{
    let body = body_of(e);
    lemma_escape_no_newline(e.1);
    if body.contains('\n') {
        let i = choose|i: int| 0 <= i < body.len() && body[i] == '\n';
        let kn = e.0.len() as int;
        let en = escape(e.1).len() as int;
        if i < kn {
            assert(e.0[i] == '\n');
            assert(e.0.contains('\n'));
        } else if i < kn + 4 {
            assert(body[i] == seq![' ', '=', ' ', '"'][i - kn]);
        } else if i < kn + 4 + en {
            assert(body[i] == escape(e.1)[i - kn - 4]);
            assert(escape(e.1).contains('\n'));
        } else {
            assert(body[i] == '"');
        }
    }
}

/// The serialized text splits back into exactly one line per entry.
proof fn lemma_rendered_lines(es: Seq<SpecEntry>)
    requires
        forall|i: int|
            0 <= i < es.len() ==> round_trip_key((#[trigger] es[i]).0) && !es[i].1.contains('\n'),
    ensures
        spec_lines(render_entries(es)) == es.map_values(|e: SpecEntry| body_of(e)),
    decreases es.len(),
{
    if es.len() == 0 {
        assert(spec_lines(render_entries(es)) =~= Seq::<Seq<char>>::empty());
        assert(es.map_values(|e: SpecEntry| body_of(e)) =~= Seq::<Seq<char>>::empty());
    } else {
        let e0 = es[0];
        let body = body_of(e0);
        assert(forall|i: int|
            0 <= i < es.skip(1).len() ==> es.skip(1)[i] == es[i + 1] && round_trip_key(
                (#[trigger] es.skip(1)[i]).0,
            ) && !es.skip(1)[i].1.contains('\n'));
        lemma_rendered_lines(es.skip(1));
        assert(body == body_of((e0.0, e0.1))) by {
            assert(e0 == (e0.0, e0.1));
        }
        lemma_body_no_newline(e0);
        assert(!body.contains('\n'));
        assert(render_entries(es) == render_line(e0) + render_entries(es.skip(1)));
        assert(render_entries(es) =~= body + seq!['\n'] + render_entries(es.skip(1)));
        lemma_lines_head(body, render_entries(es.skip(1)));
        assert(body.len() > 0 && body.last() == '"');
        assert(chop_cr(body) == body);
        assert(spec_lines(render_entries(es)) == seq![body] + spec_lines(
            render_entries(es.skip(1)),
        ));
        assert(es.map_values(|e: SpecEntry| body_of(e)) =~= seq![body] + es.skip(1).map_values(
            |e: SpecEntry| body_of(e),
        ));
    }
}

/// Parsing the rendered lines yields the entries, in order.
proof fn lemma_parse_rendered_lines(es: Seq<SpecEntry>, lineno: int)
    requires
        forall|i: int| 0 <= i < es.len() ==> round_trip_key((#[trigger] es[i]).0),
    ensures
        parse_lines(es.map_values(|e: SpecEntry| body_of(e)), lineno) == ParseOutcome::Parsed(es),
    decreases es.len(),
{
    let ls = es.map_values(|e: SpecEntry| body_of(e));
    if es.len() == 0 {
        assert(ls.len() == 0);
        assert(parse_lines(ls, lineno) == ParseOutcome::Parsed(Seq::<SpecEntry>::empty()));
        assert(Seq::<SpecEntry>::empty() =~= es);
    } else {
        assert(forall|i: int|
            0 <= i < es.skip(1).len() ==> es.skip(1)[i] == es[i + 1] && round_trip_key(
                (#[trigger] es.skip(1)[i]).0,
            ));
        lemma_parse_rendered_lines(es.skip(1), lineno + 1);
        lemma_line_outcome_of_rendered(es[0].0, es[0].1);
        assert(ls[0] == body_of(es[0]));
        assert(body_of(es[0]) == body_of((es[0].0, es[0].1))) by {
            assert(es[0] == (es[0].0, es[0].1));
        }
        assert(line_outcome(ls[0]) == LineOutcome::Pair(es[0].0, es[0].1));
        assert(ls.skip(1) =~= es.skip(1).map_values(|e: SpecEntry| body_of(e)));
        assert(parse_lines(ls.skip(1), lineno + 1) == ParseOutcome::Parsed(es.skip(1)));
        assert(seq![(es[0].0, es[0].1)] + es.skip(1) =~= es);
    }
}

/// Serializing and parsing are inverse: for every entry list whose keys
/// round-trip and whose values hold no line feed, parsing the rendered
/// text yields exactly those entries, and so the same mapping.
pub proof fn lemma_serialize_parse_inverse(es: Seq<SpecEntry>)
    requires
        forall|i: int|
            0 <= i < es.len() ==> round_trip_key((#[trigger] es[i]).0) && !es[i].1.contains('\n'),
    ensures
        parse_spec(render_text(es)) == ParseOutcome::Parsed(es),
{
    if es.len() == 0 {
        let t = seq!['\n'];
        lemma_find_from(t, '\n', 0);
        assert(find_from(t, '\n', 0) == 0);
        assert(t.take(0) =~= Seq::<char>::empty());
        assert(t.skip(1) =~= Seq::<char>::empty());
        assert(chop_cr(t.take(0)) =~= Seq::<char>::empty());
        assert(spec_lines(Seq::<char>::empty()) =~= Seq::<Seq<char>>::empty());
        assert(spec_lines(t) =~= seq![Seq::<char>::empty()]);
        assert(spec_trim(Seq::<char>::empty()).len() == 0);
        assert(line_outcome(Seq::<char>::empty()) == LineOutcome::Skipped);
        assert(seq![Seq::<char>::empty()].skip(1) =~= Seq::<Seq<char>>::empty());
        assert(parse_lines(Seq::<Seq<char>>::empty(), 2) == ParseOutcome::Parsed(
            Seq::<SpecEntry>::empty(),
        ));
        assert(parse_lines(seq![Seq::<char>::empty()], 1) == ParseOutcome::Parsed(
            Seq::<SpecEntry>::empty(),
        ));
        assert(parse_spec(t) == ParseOutcome::Parsed(Seq::<SpecEntry>::empty()));
        assert(Seq::<SpecEntry>::empty() =~= es);
    } else {
        lemma_rendered_lines(es);
        lemma_parse_rendered_lines(es, 1);
    }
}


/// Round trip at the configuration level: any entry list that the
/// serializer may emit for a well-formed configuration — sorted, with
/// distinct keys, describing the configuration's mapping — parses back
/// to that same mapping, provided the configuration's keys round-trip
/// and its values hold no line feed.
pub proof fn lemma_round_trip_mapping(cfg: GitHooksConfig, es: Seq<SpecEntry>)
    requires
        cfg.wf(),
        forall|i: int|
            0 <= i < cfg.entries().len() ==> round_trip_key((#[trigger] cfg.entries()[i]).0)
                && !cfg.entries()[i].1.contains('\n'),
        distinct_keys(es),
        entries_map(es) == cfg.as_map(),
    ensures
        parse_spec(render_text(es)) == ParseOutcome::Parsed(es),
        ({
            match parse_spec(render_text(es)) {
                ParseOutcome::Parsed(ps) => entries_map(ps) == cfg.as_map(),
                _ => false,
            }
        }),
{
    lemma_entries_map_dom(es);
    lemma_entries_map_val(es);
    lemma_entries_map_dom(cfg.entries());
    lemma_entries_map_val(cfg.entries());
    assert forall|i: int|
        0 <= i < es.len() implies round_trip_key((#[trigger] es[i]).0) && !es[i].1.contains(
        '\n',
    ) by {
        let k = es[i].0;
        assert(entries_map(es).contains_key(k));
        assert(cfg.as_map().contains_key(k));
        let j = choose|j: int| 0 <= j < cfg.entries().len() && cfg.entries()[j].0 == k;
        assert(cfg.as_map()[k] == cfg.entries()[j].1);
        assert(entries_map(es)[k] == es[i].1);
        assert(es[i].1 == cfg.entries()[j].1);
        assert(round_trip_key(cfg.entries()[j].0));
    }
    lemma_serialize_parse_inverse(es);
}

/// Inserts or replaces the entry for `key`, keeping keys distinct.
fn upsert(hooks: &mut Vec<(String, String)>, key: String, value: String)
    requires
        distinct_keys(pair_views(old(hooks)@)),
        valid_keys(pair_views(old(hooks)@)),
        valid_key(key@),
    ensures
        distinct_keys(pair_views(final(hooks)@)),
        valid_keys(pair_views(final(hooks)@)),
        entries_map(pair_views(final(hooks)@)) == entries_map(pair_views(old(hooks)@)).insert(
            key@,
            value@,
        ),
{
    let ghost old_es = pair_views(hooks@);
    proof {
        assert(old_es == pair_views(old(hooks)@));
        assert(distinct_keys(old_es));
        assert(valid_keys(old_es));
    }
    let n = hooks.len();
    let mut i: usize = 0;
    while i < n
        invariant
            n == hooks@.len(),
            i <= n,
            pair_views(hooks@) == old_es,
            distinct_keys(old_es),
            valid_keys(old_es),
            valid_key(key@),
            entries_map(pair_views(old(hooks)@)) == entries_map(old_es),
            forall|j: int| 0 <= j < i ==> (#[trigger] old_es[j]).0 != key@,
        decreases n - i,
    {
        if str_eq(hooks[i].0.as_str(), key.as_str()) {
            proof {
                assert(old_es[i as int].0 == key@);
            }
            let ghost removed = old_es.remove(i as int);
            let ghost pre = hooks@;
            hooks.remove(i);
            proof {
                pre.remove_ensures(i as int);
                old_es.remove_ensures(i as int);
                assert forall|a: int| 0 <= a < removed.len() implies pair_views(hooks@)[a]
                    == removed[a] by {
                    if a < i {
                        assert(hooks@[a] == pre[a]);
                        assert(removed[a] == old_es[a]);
                    } else {
                        assert(hooks@[a] == pre[a + 1]);
                        assert(removed[a] == old_es[a + 1]);
                    }
                }
                assert(pair_views(hooks@) =~= removed);
            }
            hooks.push((key, value));
            proof {
                let es = pair_views(hooks@);
                assert(es =~= removed.push((key@, value@)));
                assert(es.drop_last() =~= removed);
                assert forall|a: int, b: int| 0 <= a < b < removed.len() implies removed[a].0
                    != removed[b].0 by {
                    if b < i {
                        assert(removed[a] == old_es[a] && removed[b] == old_es[b]);
                    } else if a < i {
                        assert(removed[a] == old_es[a] && removed[b] == old_es[b + 1]);
                    } else {
                        assert(removed[a] == old_es[a + 1] && removed[b] == old_es[b + 1]);
                    }
                }
                assert forall|a: int| 0 <= a < removed.len() implies removed[a].0 != key@ by {
                    if a < i {
                        assert(removed[a] == old_es[a]);
                    } else {
                        assert(removed[a] == old_es[a + 1]);
                        assert(old_es[a + 1].0 != old_es[i as int].0);
                    }
                }
                assert(entries_map(es) == entries_map(removed).insert(key@, value@));
                lemma_entries_map_dom(old_es);
                lemma_entries_map_dom(removed);
                lemma_entries_map_val(old_es);
                lemma_entries_map_val(removed);
                assert forall|q: Seq<char>|
                    #[trigger] entries_map(es).contains_key(q) implies entries_map(
                    old_es,
                ).insert(key@, value@).contains_key(q) && entries_map(es)[q] == entries_map(
                    old_es,
                ).insert(key@, value@)[q] by {
                    if q != key@ {
                        let a = choose|a: int| 0 <= a < removed.len() && removed[a].0 == q;
                        if a < i {
                            assert(old_es[a] == removed[a]);
                            assert(has_key(old_es, q));
                            assert(old_es[a].0 == q && forall|z: int|
                                0 <= z < old_es.len() && old_es[z].0 == q ==> old_es[z]
                                    == old_es[a]);
                            assert(entries_map(old_es)[q] == old_es[a].1);
                        } else {
                            assert(old_es[a + 1] == removed[a]);
                            assert(has_key(old_es, q));
                            assert(entries_map(old_es)[q] == old_es[a + 1].1);
                        }
                        assert(entries_map(removed)[q] == removed[a].1);
                    }
                }
                assert forall|q: Seq<char>|
                    #[trigger] entries_map(old_es).insert(key@, value@).contains_key(
                        q,
                    ) implies entries_map(es).contains_key(q) by {
                    if q != key@ {
                        let a = choose|a: int| 0 <= a < old_es.len() && old_es[a].0 == q;
                        assert(a != i);
                        if a < i {
                            assert(removed[a].0 == q);
                        } else {
                            assert(removed[a - 1].0 == q);
                        }
                        assert(has_key(removed, q));
                        lemma_entries_map_dom(es);
                        assert(es.drop_last() == removed);
                        assert(has_key(es, q)) by {
                            let b = choose|b: int| 0 <= b < removed.len() && removed[b].0 == q;
                            assert(es[b].0 == q);
                        }
                    }
                }
                assert(entries_map(es) =~= entries_map(old_es).insert(key@, value@));
            }
            return ;
        }
        i = i + 1;
    }
    hooks.push((key, value));
    proof {
        let es = pair_views(hooks@);
        assert(es =~= old_es.push((key@, value@)));
        assert(es.drop_last() =~= old_es);
        assert(entries_map(es) == entries_map(old_es).insert(key@, value@));
        assert forall|a: int, b: int| 0 <= a < b < es.len() implies es[a].0 != es[b].0 by {
            if b < es.len() - 1 {
                assert(es[a] == old_es[a] && es[b] == old_es[b]);
            } else {
                assert(es[a] == old_es[a]);
            }
        }
    }
}

} // verus!
