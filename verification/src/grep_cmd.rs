//! The summary of a text search: matches grouped by file, each matched line
//! trimmed and cut to a given length around the match.

use crate::group::{
    group_views, grouped, item_count, items_of, items_with, lemma_grouped, put, sorted, Group,
};
use crate::text::{
    append_chars, append_decimal, append_decimal_width4, append_range, chars_of, copy_range,
    decimal, find, find_chars, is_whitespace, lemma_find_from_least, lemma_join_len,
    lemma_split_join, lemma_total_len_add, lemma_trim_edges, lines, lowercase, number_or_zero,
    pad_left, parse_number, push_line, rows, split, split_at, split_lines, string_of, texts,
    to_lowercase, total_len, trim, trim_bounds,
};
use regex::Regex;
use vstd::prelude::*;
use vstd::string::*;

verus! {

/// The short form of a path, for display: the path itself where it has at
/// most 50 characters or at most three segments between slashes, else its
/// first segment, `...`, and its last two segments.
pub open spec fn compacted(path: Seq<char>) -> Seq<char> {
    let parts = split(path, '/');
    if path.len() <= 50 || parts.len() <= 3 {
        path
    } else {
        parts[0] + "/.../"@ + parts[parts.len() - 2] + "/"@ + parts.last()
    }
}

/// Shortens a long path for display.
pub fn compact_path(path: &str) -> (r: String)
    ensures
        r@ == compacted(path@),
{
    let chars = chars_of(path);
    compact(&chars)
}

fn compact(chars: &Vec<char>) -> (r: String)
    ensures
        r@ == compacted(chars@),
{
    if chars.len() <= 50 {
        return string_of(chars);
    }
    let parts = split_at(chars, '/');
    let n = parts.len();
    if n <= 3 {
        return string_of(chars);
    }
    let mut r = String::new();
    append_chars(&mut r, &parts[0]);
    r.append("/.../");
    append_chars(&mut r, &parts[n - 2]);
    r.append("/");
    append_chars(&mut r, &parts[n - 1]);
    r
}

/// Whether `c` has a meaning of its own in a regular expression.
pub open spec fn is_meta_character(c: char) -> bool {
    c == '\\' || c == '.' || c == '+' || c == '*' || c == '?' || c == '(' || c == ')' || c == '|'
        || c == '[' || c == ']' || c == '{' || c == '}' || c == '^' || c == '$' || c == '#' || c
        == '&' || c == '-' || c == '~'
}

/// `s` with a backslash before each character that has a meaning of its own
/// in a regular expression.
pub open spec fn escaped(s: Seq<char>) -> Seq<char>
    decreases s.len(),
{
    if s.len() == 0 {
        seq![]
    } else if is_meta_character(s.last()) {
        escaped(s.drop_last()).push('\\').push(s.last())
    } else {
        escaped(s.drop_last()).push(s.last())
    }
}

/// Makes `pattern` a regular expression that matches it literally, by
/// `regex::escape`.
///
/// Trusted: the result is `pattern` with a backslash put before each of the
/// characters `\ . + * ? ( ) | [ ] { } ^ $ # & - ~`, and nothing else changed.
#[verifier::external_body]
pub(crate) fn escape(pattern: &str) -> (r: String)
    ensures
        r@ == escaped(pattern@),
{
    regex::escape(pattern)
}

/// Whether `Regex::new` compiles the regular expression `re`.
pub uninterp spec fn compiles(re: Seq<char>) -> bool;

/// The first match of the regular expression `re` in `text`, as
/// `Regex::find` gives it; `None` where nothing matches.
pub uninterp spec fn first_match(re: Seq<char>, text: Seq<char>) -> Option<Seq<char>>;

/// The outcome of a search with a regular expression.
pub(crate) enum Found {
    /// The expression could not be compiled.
    Unusable,
    /// The expression matches nowhere in the text.
    Nothing,
    /// The text of the first match.
    Match(String),
}

/// Compiles `re` with `Regex::new` and searches `text` for its first match
/// with `Regex::find`.
///
/// Trusted: whether the expression compiles depends on `re` alone, and
/// `compiles` is the name for it; where it compiles, the outcome of the
/// search depends on `re` and `text` alone, and `first_match` is the name for
/// it.
#[verifier::external_body]
pub(crate) fn search(re: &str, text: &str) -> (r: Found)
    ensures
        r is Unusable <==> !compiles(re@),
        r is Nothing ==> first_match(re@, text@).is_none(),
        r matches Found::Match(m) ==> first_match(re@, text@) == Some(m@),
{
    match Regex::new(re) {
        Ok(compiled) => match compiled.find(text) {
            Some(m) => Found::Match(m.as_str().to_string()),
            None => Found::Nothing,
        },
        Err(_) => Found::Unusable,
    }
}

/// The regular expression that finds the context of a match: up to 20
/// characters, then `pattern` itself in any case of letters, then the rest of
/// the line.
pub open spec fn context_regex(pattern: Seq<char>) -> Seq<char> {
    "(?i).{0,20}"@ + escaped(pattern) + ".*"@
}

/// A stretch of `max_len` characters of `trimmed` around position `pos`,
/// with `...` on each side where the line goes on. The stretch starts a third
/// of `max_len` before `pos`, or earlier where it would else run past the end
/// of the line.
pub open spec fn window(trimmed: Seq<char>, max_len: nat, pos: int) -> Seq<char> {
    let third = (max_len / 3) as int;
    let wanted = if pos >= third {
        pos - third
    } else {
        0
    };
    let end = if wanted + max_len <= trimmed.len() {
        wanted + max_len
    } else {
        trimmed.len() as int
    };
    let start = if end == trimmed.len() {
        end - max_len
    } else {
        wanted
    };
    let slice = trimmed.subrange(start, end);
    if start > 0 && end < trimmed.len() {
        "..."@ + slice + "..."@
    } else if start > 0 {
        "..."@ + slice
    } else {
        slice + "..."@
    }
}

/// A trimmed line cut to length. A line of at most `max_len` characters
/// stays. A longer one is cut around the first place where the pattern
/// stands in it, both taken in lowercase; where it stands nowhere, the first
/// `max_len - 3` characters and three dots are left.
pub open spec fn cut(
    trimmed: Seq<char>,
    max_len: nat,
    lower: Seq<char>,
    lower_pattern: Seq<char>,
) -> Seq<char> {
    if trimmed.len() <= max_len {
        trimmed
    } else {
        match find(lower, lower_pattern) {
            Some(pos) => window(trimmed, max_len, pos),
            None => trimmed.take(max_len - 3) + "..."@,
        }
    }
}

/// A trimmed line made ready for display: the context of the match where
/// there is one of at most `max_len` characters, else the line cut to length.
pub open spec fn cleaned(
    trimmed: Seq<char>,
    max_len: nat,
    context: Option<Seq<char>>,
    lower: Seq<char>,
    lower_pattern: Seq<char>,
) -> Seq<char> {
    match context {
        Some(m) => if m.len() <= max_len {
            m
        } else {
            cut(trimmed, max_len, lower, lower_pattern)
        },
        None => cut(trimmed, max_len, lower, lower_pattern),
    }
}

/// Makes a trimmed line ready for display. `context` is the context of the
/// match, if any was looked for and found; `lower` and `lower_pattern` are
/// the line and the pattern in lowercase.
pub fn clean_trimmed(
    trimmed: &str,
    max_len: usize,
    context: Option<&str>,
    lower: &str,
    lower_pattern: &str,
) -> (r: String)
    requires
        max_len >= 3 || trimmed@.len() <= max_len || find(lower@, lower_pattern@).is_some() || (
        context matches Some(m) && m@.len() <= max_len),
    ensures
        r@ == cleaned(
            trimmed@,
            max_len as nat,
            match context {
                Some(m) => Some(m@),
                None => None,
            },
            lower@,
            lower_pattern@,
        ),
{
    match context {
        Some(m) => {
            if m.unicode_len() <= max_len {
                return m.to_owned();
            }
        },
        None => {},
    }
    let line = chars_of(trimmed);
    let len = line.len();
    if len <= max_len {
        return trimmed.to_owned();
    }
    let hay = chars_of(lower);
    let needle = chars_of(lower_pattern);
    let mut r = String::new();
    match find_chars(&hay, &needle) {
        Some(pos) => {
            let third = max_len / 3;
            let wanted = if pos >= third {
                pos - third
            } else {
                0
            };
            let end = if wanted <= len - max_len {
                wanted + max_len
            } else {
                len
            };
            let start = if end == len {
                end - max_len
            } else {
                wanted
            };
            if start > 0 {
                r.append("...");
            }
            append_range(&mut r, &line, start, end);
            if end < len || start == 0 {
                r.append("...");
            }
        },
        None => {
            append_range(&mut r, &line, 0, max_len - 3);
            r.append("...");
            assert(r@ == trimmed@.take(max_len - 3) + "..."@);
        },
    }
    r
}

/// The context of the match in a trimmed line: what the regular expression
/// for it finds, where a context is asked for and that expression compiles.
pub open spec fn context_of(
    trimmed: Seq<char>,
    context_only: bool,
    pattern: Seq<char>,
) -> Option<Seq<char>> {
    if context_only && compiles(context_regex(pattern)) {
        first_match(context_regex(pattern), trimmed)
    } else {
        None
    }
}

/// A matched line made ready for display: trimmed, and then the context of
/// the match where there is one that is short enough, else the trimmed line
/// cut to length.
pub open spec fn clean(
    line: Seq<char>,
    max_len: nat,
    context_only: bool,
    pattern: Seq<char>,
) -> Seq<char> {
    let trimmed = trim(line);
    cleaned(
        trimmed,
        max_len,
        context_of(trimmed, context_only, pattern),
        lowercase(trimmed),
        lowercase(pattern),
    )
}

/// Whether a line can be made ready for display. It cannot where all of
/// this holds: fewer than three characters are allowed, the trimmed line has
/// more, no context is short enough, and the pattern stands nowhere in the
/// line; then there is no room for the three dots that mark the cut.
pub open spec fn can_clean(
    line: Seq<char>,
    max_len: nat,
    context_only: bool,
    pattern: Seq<char>,
) -> bool {
    let trimmed = trim(line);
    ||| max_len >= 3
    ||| trimmed.len() <= max_len
    ||| find(lowercase(trimmed), lowercase(pattern)).is_some()
    ||| (context_of(trimmed, context_only, pattern) matches Some(m) && m.len() <= max_len)
}

/// A line taken apart for cleaning.
struct Prepared {
    trimmed: String,
    context: Option<String>,
    lower: String,
    lower_pattern: String,
}

fn prepare(line: &str, context_only: bool, pattern: &str) -> (p: Prepared)
    ensures
        p.trimmed@ == trim(line@),
        match p.context {
            Some(m) => context_of(trim(line@), context_only, pattern@) == Some(m@),
            None => context_of(trim(line@), context_only, pattern@).is_none(),
        },
        p.lower@ == lowercase(trim(line@)),
        p.lower_pattern@ == lowercase(pattern@),
{
    let chars = chars_of(line);
    let (from, to) = trim_bounds(&chars);
    let mut trimmed = String::new();
    append_range(&mut trimmed, &chars, from, to);
    let context: Option<String> = if context_only {
        let mut re = String::new();
        re.append("(?i).{0,20}");
        let literal = escape(pattern);
        re.append(literal.as_str());
        re.append(".*");
        assert(re@ == context_regex(pattern@));
        match search(re.as_str(), trimmed.as_str()) {
            Found::Match(m) => Some(m),
            Found::Nothing => None,
            Found::Unusable => None,
        }
    } else {
        None
    };
    let lower = to_lowercase(trimmed.as_str());
    let lower_pattern = to_lowercase(pattern);
    Prepared { trimmed, context, lower, lower_pattern }
}

fn clean_prepared(p: &Prepared, max_len: usize) -> (r: String)
    requires
        max_len >= 3 || p.trimmed@.len() <= max_len || find(p.lower@, p.lower_pattern@).is_some()
            || (p.context matches Some(m) && m@.len() <= max_len),
    ensures
        r@ == cleaned(
            p.trimmed@,
            max_len as nat,
            match p.context {
                Some(m) => Some(m@),
                None => None,
            },
            p.lower@,
            p.lower_pattern@,
        ),
{
    match &p.context {
        Some(m) => clean_trimmed(
            p.trimmed.as_str(),
            max_len,
            Some(m.as_str()),
            p.lower.as_str(),
            p.lower_pattern.as_str(),
        ),
        None => clean_trimmed(
            p.trimmed.as_str(),
            max_len,
            None,
            p.lower.as_str(),
            p.lower_pattern.as_str(),
        ),
    }
}

/// Makes a matched line ready for display: trims it and cuts it to
/// `max_len` characters around the match. With `context_only`, the context of
/// the match is shown instead where it is found and short enough.
pub fn clean_line(line: &str, max_len: usize, context_only: bool, pattern: &str) -> (r: String)
    requires
        can_clean(line@, max_len as nat, context_only, pattern@),
    ensures
        r@ == clean(line@, max_len as nat, context_only, pattern@),
{
    let p = prepare(line, context_only, pattern);
    clean_prepared(&p, max_len)
}

/// Makes a matched line ready for display, as `clean_line` does, where that
/// can be done; `None` where it cannot.
pub fn try_clean_line(
    line: &str,
    max_len: usize,
    context_only: bool,
    pattern: &str,
) -> (r: Option<String>)
    ensures
        match r {
            Some(text) => can_clean(line@, max_len as nat, context_only, pattern@) && text@
                == clean(line@, max_len as nat, context_only, pattern@),
            None => !can_clean(line@, max_len as nat, context_only, pattern@),
        },
{
    if max_len >= 3 {
        return Some(clean_line(line, max_len, context_only, pattern));
    }
    let p = prepare(line, context_only, pattern);
    let fits = p.trimmed.as_str().unicode_len() <= max_len;
    let context_fits = match &p.context {
        Some(m) => m.as_str().unicode_len() <= max_len,
        None => false,
    };
    let hay = chars_of(p.lower.as_str());
    let needle = chars_of(p.lower_pattern.as_str());
    if fits || context_fits || find_chars(&hay, &needle).is_some() {
        Some(clean_prepared(&p, max_len))
    } else {
        None
    }
}

/// A match as a mathematical value: the file, the line number, the text.
pub type Entry = (Seq<char>, (usize, Seq<char>));

/// The matches of one file as a mathematical value: the file, and the line
/// number and text of each match.
pub type FileGroup = (Seq<char>, Seq<(usize, Seq<char>)>);

/// One line that the search tool reported, made ready for display.
#[derive(Debug, PartialEq, Eq)]
pub struct Match {
    /// The file that holds the line.
    pub file: Vec<char>,
    /// The number of the line in its file; 0 where the tool gave none.
    pub line_number: usize,
    /// The text of the line, cleaned.
    pub text: String,
}

impl View for Match {
    type V = Entry;

    open spec fn view(&self) -> Entry {
        (self.file@, (self.line_number, self.text@))
    }
}

/// The views of a list of matches.
pub open spec fn match_views(found: Seq<Match>) -> Seq<Entry> {
    found.map_values(|m: Match| m@)
}

/// One line of the search tool's output, taken apart. A line with two
/// colons or more is `file:number:text`; a line with one colon is
/// `number:text`, of the file that was searched; a line without colon is
/// nothing. A number that cannot be read counts as 0.
pub open spec fn parsed(line: Seq<char>, path: Seq<char>) -> Option<(Seq<char>, nat, Seq<char>)> {
    match find(line, seq![':']) {
        None => None,
        Some(i) => {
            let rest = line.skip(i + 1);
            match find(rest, seq![':']) {
                Some(j) => Some((line.take(i), number_or_zero(rest.take(j)), rest.skip(j + 1))),
                None => Some((path, number_or_zero(line.take(i)), rest)),
            }
        },
    }
}

/// The matches that the first `n` lines of the output report, in order, each
/// text cleaned.
pub open spec fn matches_of(
    all: Seq<Seq<char>>,
    path: Seq<char>,
    n: int,
    max_len: nat,
    context_only: bool,
    pattern: Seq<char>,
) -> Seq<Entry>
    decreases n,
{
    if n <= 0 {
        seq![]
    } else {
        let before = matches_of(all, path, n - 1, max_len, context_only, pattern);
        match parsed(all[n - 1], path) {
            Some(m) => before.push(
                (m.0, (m.1 as usize, clean(m.2, max_len, context_only, pattern))),
            ),
            None => before,
        }
    }
}

/// Whether the text of every match that the first `n` lines of the output
/// report can be made ready for display.
pub open spec fn all_cleanable(
    all: Seq<Seq<char>>,
    path: Seq<char>,
    n: int,
    max_len: nat,
    context_only: bool,
    pattern: Seq<char>,
) -> bool
    decreases n,
{
    if n <= 0 {
        true
    } else {
        all_cleanable(all, path, n - 1, max_len, context_only, pattern) && match parsed(
            all[n - 1],
            path,
        ) {
            Some(m) => can_clean(m.2, max_len, context_only, pattern),
            None => true,
        }
    }
}

/// A text that cannot be made ready for display among the first lines is
/// still there among more lines.
pub proof fn lemma_uncleanable_stays(
    all: Seq<Seq<char>>,
    path: Seq<char>,
    i: int,
    n: int,
    max_len: nat,
    context_only: bool,
    pattern: Seq<char>,
)
    requires
        0 <= i <= n,
        !all_cleanable(all, path, i, max_len, context_only, pattern),
    ensures
        !all_cleanable(all, path, n, max_len, context_only, pattern),
    decreases n,
{
    if i < n {
        lemma_uncleanable_stays(all, path, i, n - 1, max_len, context_only, pattern);
    }
}

fn parse_line(line: &Vec<char>, path: &Vec<char>, colon: &Vec<char>) -> (r: Option<
    (Vec<char>, usize, Vec<char>),
>)
    requires
        colon@ == seq![':'],
    ensures
        match r {
            Some(m) => parsed(line@, path@) == Some((m.0@, m.1 as nat, m.2@)),
            None => parsed(line@, path@).is_none(),
        },
{
    assert(colon@.len() == 1);
    match find_chars(line, colon) {
        None => None,
        Some(i) => {
            let rest = copy_range(line, i + 1, line.len());
            assert(rest@ == line@.skip(i + 1));
            let first = copy_range(line, 0, i);
            match find_chars(&rest, colon) {
                Some(j) => {
                    let number = copy_range(&rest, 0, j);
                    let text = copy_range(&rest, j + 1, rest.len());
                    Some((first, parse_number(&number), text))
                },
                None => {
                    let file = copy_range(path, 0, path.len());
                    Some((file, parse_number(&first), rest))
                },
            }
        },
    }
}

/// Reads the search tool's output: each line that reports a match, with its
/// text cleaned. `path` is the file or directory that was searched. `None`
/// where the text of a match cannot be made ready for display.
pub fn collect(
    stdout: &str,
    path: &str,
    max_line_len: usize,
    context_only: bool,
    pattern: &str,
) -> (r: Option<Vec<Match>>)
    ensures
        ({
            let all = lines(stdout@);
            let n = all.len() as int;
            match r {
                Some(found) => all_cleanable(
                    all,
                    path@,
                    n,
                    max_line_len as nat,
                    context_only,
                    pattern@,
                ) && match_views(found@) == matches_of(
                    all,
                    path@,
                    n,
                    max_line_len as nat,
                    context_only,
                    pattern@,
                ),
                None => !all_cleanable(all, path@, n, max_line_len as nat, context_only, pattern@),
            }
        }),
{
    let chars = chars_of(stdout);
    let all = split_lines(&chars);
    let searched = chars_of(path);
    let mut colon: Vec<char> = Vec::new();
    colon.push(':');
    let mut found: Vec<Match> = Vec::new();
    let mut i: usize = 0;
    assert(match_views(found@) == Seq::<Entry>::empty());
    while i < all.len()
        invariant
            i <= all.len(),
            rows(all@) == lines(stdout@),
            searched@ == path@,
            colon@ == seq![':'],
            all_cleanable(
                lines(stdout@),
                path@,
                i as int,
                max_line_len as nat,
                context_only,
                pattern@,
            ),
            match_views(found@) == matches_of(
                lines(stdout@),
                path@,
                i as int,
                max_line_len as nat,
                context_only,
                pattern@,
            ),
        decreases all.len() - i,
    {
        assert(rows(all@)[i as int] == all@[i as int]@);
        let ghost before = match_views(found@);
        match parse_line(&all[i], &searched, &colon) {
            Some((file, line_number, content)) => {
                let content = string_of(&content);
                match try_clean_line(content.as_str(), max_line_len, context_only, pattern) {
                    Some(text) => {
                        let m = Match { file, line_number, text };
                        found.push(m);
                        assert(match_views(found@) == before.push(m@));
                    },
                    None => {
                        proof {
                            lemma_uncleanable_stays(
                                lines(stdout@),
                                path@,
                                i + 1,
                                all.len() as int,
                                max_line_len as nat,
                                context_only,
                                pattern@,
                            );
                        }
                        return None;
                    },
                }
            },
            None => {},
        }
        i += 1;
    }
    Some(found)
}

/// The matches by file: the files in lexicographic order, each with its
/// matches in the order in which they were reported.
pub open spec fn by_file(found: Seq<Entry>) -> Seq<FileGroup> {
    grouped(found, found.len() as int)
}

/// How many matches are listed for one file, where `before` were listed for
/// the files before it: up to 10, and no more than are left under the cap of
/// `max` for the whole summary.
pub open spec fn listed_in(count: nat, before: nat, max: nat) -> nat {
    if before >= max {
        0
    } else {
        let room = (max - before) as nat;
        let most = if count > 10 {
            10
        } else {
            count
        };
        if most > room {
            room
        } else {
            most
        }
    }
}

/// How many matches are listed for the first `k` files together.
pub open spec fn listed_upto(groups: Seq<FileGroup>, k: int, max: nat) -> nat
    decreases k,
{
    if k <= 0 {
        0
    } else {
        let before = listed_upto(groups, k - 1, max);
        before + listed_in(groups[k - 1].1.len(), before, max)
    }
}

/// The line for one match: the line number, right-aligned in four columns,
/// and the cleaned text.
pub open spec fn match_line(m: (usize, Seq<char>)) -> Seq<char> {
    "  "@ + pad_left(decimal(m.0 as nat), 4) + ": "@ + m.1
}

/// The header of a file's block: the path, shortened for display, and the
/// number of matches in the file.
pub open spec fn file_header(group: FileGroup) -> Seq<char> {
    "📄 "@ + compacted(group.0) + " ("@ + decimal(group.1.len()) + "):"@
}

/// The block of file `k`: its header, the matches listed for it, a line that
/// counts the matches beyond the first 10, and an empty line. Nothing once
/// the cap is reached.
pub open spec fn file_block(groups: Seq<FileGroup>, k: int, max: nat) -> Seq<Seq<char>> {
    let before = listed_upto(groups, k, max);
    let matches = groups[k].1;
    if before >= max {
        seq![]
    } else {
        seq![file_header(groups[k])] + Seq::new(
            listed_in(matches.len(), before, max),
            |i: int| match_line(matches[i]),
        ) + if matches.len() > 10 {
            seq!["  ... +"@ + decimal((matches.len() - 10) as nat) + " more in this file"@]
        } else {
            seq![]
        } + seq![Seq::empty()]
    }
}

/// The blocks of the first `n` files.
pub open spec fn file_blocks(groups: Seq<FileGroup>, n: int, max: nat) -> Seq<Seq<char>>
    decreases n,
{
    if n <= 0 {
        seq![]
    } else {
        file_blocks(groups, n - 1, max) + file_block(groups, n - 1, max)
    }
}

/// The summary of the matches: a header with the numbers of matches and of
/// files, an empty line, the blocks of the files, and a line that counts the
/// matches that were not listed, if any.
pub open spec fn report(found: Seq<Entry>, max: nat) -> Seq<Seq<char>> {
    let groups = by_file(found);
    let listed = listed_upto(groups, groups.len() as int, max);
    seq![
        "🔍 "@ + decimal(found.len()) + " matches in "@ + decimal(groups.len()) + " files:"@,
        Seq::empty(),
    ] + file_blocks(groups, groups.len() as int, max) + if found.len() > listed {
        seq![
            "... +"@ + decimal((found.len() - listed) as nat)
                + " more matches (use -m to show more)"@,
        ]
    } else {
        seq![]
    }
}

/// Once the cap is reached, further files add nothing.
pub proof fn lemma_capped(groups: Seq<FileGroup>, k: int, n: int, max: nat)
    requires
        0 <= k <= n,
        listed_upto(groups, k, max) >= max,
    ensures
        listed_upto(groups, n, max) == listed_upto(groups, k, max),
        file_blocks(groups, n, max) == file_blocks(groups, k, max),
    decreases n,
{
    if n > k {
        lemma_capped(groups, k, n - 1, max);
        assert(file_blocks(groups, n - 1, max) + Seq::<Seq<char>>::empty() == file_blocks(
            groups,
            n - 1,
            max,
        ));
    }
}

/// No more matches are listed than the cap allows, nor more than the files
/// hold.
pub proof fn lemma_listed_bound(groups: Seq<FileGroup>, k: int, max: nat)
    requires
        0 <= k <= groups.len(),
    ensures
        listed_upto(groups, k, max) <= max,
        listed_upto(groups, k, max) <= crate::group::item_count(groups.take(k)),
    decreases k,
{
    if k > 0 {
        lemma_listed_bound(groups, k - 1, max);
        assert(groups.take(k).drop_last() == groups.take(k - 1));
    }
}

/// Groups the matches by file.
pub fn group_by_file(found: Vec<Match>) -> (groups: Vec<Group<(usize, String)>>)
    ensures
        group_views(groups@) == by_file(match_views(found@)),
{
    let ghost entries = match_views(found@);
    let mut groups: Vec<Group<(usize, String)>> = Vec::new();
    for m in it: found.into_iter()
        invariant
            it.seq() == found@,
            entries == match_views(found@),
            group_views(groups@) == grouped(entries, it.index() as int),
    {
        assert(entries[it.index() as int] == m@);
        let Match { file, line_number, text } = m;
        put(&mut groups, file, (line_number, text));
    }
    groups
}

fn push_file_block(
    out: &mut Vec<String>,
    groups: &Vec<Group<(usize, String)>>,
    k: usize,
    shown: usize,
    max: usize,
) -> (listed: usize)
    requires
        k < groups.len(),
        shown == listed_upto(group_views(groups@), k as int, max as nat),
        shown < max,
    ensures
        texts(final(out)@) == texts(old(out)@) + file_block(
            group_views(groups@),
            k as int,
            max as nat,
        ),
        listed == listed_upto(group_views(groups@), k + 1, max as nat),
{
    let ghost views = group_views(groups@);
    let group = &groups[k];
    let ghost matches = views[k as int].1;
    let n = group.items.len();
    let mut head = String::new();
    head.append("📄 ");
    let short = compact(&group.key);
    head.append(short.as_str());
    head.append(" (");
    append_decimal(&mut head, n);
    head.append("):");
    push_line(out, head);
    let ghost top = texts(out@);
    let mut listed = shown;
    let mut i: usize = 0;
    while i < n && i < 10 && listed < max
        invariant
            i <= n,
            i <= 10,
            n == group.items.len(),
            matches == group@.1,
            listed == shown + i,
            listed <= max,
            shown < max,
            texts(out@) == top + Seq::new(i as nat, |j: int| match_line(matches[j])),
        decreases n - i,
    {
        let entry = &group.items[i];
        let mut line = String::new();
        line.append("  ");
        append_decimal_width4(&mut line, entry.0);
        line.append(": ");
        line.append(entry.1.as_str());
        push_line(out, line);
        i += 1;
        listed += 1;
    }
    if n > 10 {
        let mut more = String::new();
        more.append("  ... +");
        append_decimal(&mut more, n - 10);
        more.append(" more in this file");
        push_line(out, more);
    }
    push_line(out, String::new());
    listed
}

fn push_file_blocks(
    out: &mut Vec<String>,
    groups: &Vec<Group<(usize, String)>>,
    max: usize,
) -> (listed: usize)
    ensures
        texts(final(out)@) == texts(old(out)@) + file_blocks(
            group_views(groups@),
            groups.len() as int,
            max as nat,
        ),
        listed == listed_upto(group_views(groups@), groups.len() as int, max as nat),
{
    let ghost views = group_views(groups@);
    let ghost top = texts(out@);
    let n = groups.len();
    let mut shown: usize = 0;
    let mut k: usize = 0;
    while k < n
        invariant
            k <= n,
            n == groups.len(),
            views == group_views(groups@),
            top == texts(old(out)@),
            shown == listed_upto(views, k as int, max as nat),
            texts(out@) == top + file_blocks(views, k as int, max as nat),
        decreases n - k,
    {
        if shown >= max {
            proof {
                lemma_capped(views, k as int, n as int, max as nat);
            }
            return shown;
        }
        shown = push_file_block(out, groups, k, shown, max);
        k += 1;
    }
    shown
}

/// Renders the summary of the matches, one string for each line to print.
/// `max_results` caps the number of matches listed.
pub fn render(found: Vec<Match>, max_results: usize) -> (out: Vec<String>)
    ensures
        texts(out@) == report(match_views(found@), max_results as nat),
{
    let total = found.len();
    let ghost entries = match_views(found@);
    let groups = group_by_file(found);
    let mut out: Vec<String> = Vec::new();
    let mut head = String::new();
    head.append("🔍 ");
    append_decimal(&mut head, total);
    head.append(" matches in ");
    append_decimal(&mut head, groups.len());
    head.append(" files:");
    push_line(&mut out, head);
    push_line(&mut out, String::new());
    let listed = push_file_blocks(&mut out, &groups, max_results);
    proof {
        let views = group_views(groups@);
        lemma_listed_bound(views, views.len() as int, max_results as nat);
        crate::group::lemma_grouped(entries, entries.len() as int);
    }
    if total > listed {
        let mut more = String::new();
        more.append("... +");
        append_decimal(&mut more, total - listed);
        more.append(" more matches (use -m to show more)");
        push_line(&mut out, more);
    }
    out
}

/// Renders the summary of a text search. `stdout` is what the search tool
/// printed: one line for each match, as `file:number:text`, or as
/// `number:text` where the single file `path` was searched.
///
/// Output that is empty but for white space gives one line that says that
/// nothing matched. Any other output gives the summary of the matches that
/// its lines report, or `None` where the text of one of them cannot be made
/// ready for display.
pub fn run(
    pattern: &str,
    path: &str,
    stdout: &str,
    max_line_len: usize,
    max_results: usize,
    context_only: bool,
) -> (r: Option<Vec<String>>)
    ensures
        ({
            let all = lines(stdout@);
            let n = all.len() as int;
            let max_len = max_line_len as nat;
            if trim(stdout@).len() == 0 {
                r matches Some(out) && texts(out@) == seq!["No matches for '"@ + pattern@ + "'"@]
            } else if all_cleanable(all, path@, n, max_len, context_only, pattern@) {
                r matches Some(out) && texts(out@) == report(
                    matches_of(all, path@, n, max_len, context_only, pattern@),
                    max_results as nat,
                )
            } else {
                r.is_none()
            }
        }),
{
    let chars = chars_of(stdout);
    let (from, to) = trim_bounds(&chars);
    if from == to {
        let mut out: Vec<String> = Vec::new();
        let mut line = String::new();
        line.append("No matches for '");
        line.append(pattern);
        line.append("'");
        push_line(&mut out, line);
        return Some(out);
    }
    match collect(stdout, path, max_line_len, context_only, pattern) {
        Some(found) => Some(render(found, max_results)),
        None => None,
    }
}

/// A line that is cut around a match is longer than the cap: the stretch
/// has `max_len` characters, and three dots stand on one side of it or on
/// both.
pub proof fn lemma_window_length(trimmed: Seq<char>, max_len: nat, pos: int)
    requires
        trimmed.len() > max_len,
        0 <= pos,
    ensures
        window(trimmed, max_len, pos).len() == max_len + 3 || window(trimmed, max_len, pos).len()
            == max_len + 6,
{
    reveal_strlit("...");
}

/// A cleaned line has at most `max_len` characters, unless it was cut around
/// a match.
pub proof fn lemma_cleaned_length(
    trimmed: Seq<char>,
    max_len: nat,
    context: Option<Seq<char>>,
    lower: Seq<char>,
    lower_pattern: Seq<char>,
)
    requires
        max_len >= 3 || trimmed.len() <= max_len || (context matches Some(m) && m.len()
            <= max_len),
        (context matches Some(m) && m.len() <= max_len) || trimmed.len() <= max_len || find(
            lower,
            lower_pattern,
        ).is_none(),
    ensures
        cleaned(trimmed, max_len, context, lower, lower_pattern).len() <= max_len,
{
    reveal_strlit("...");
}

/// Whether a text neither starts nor ends with white space.
pub open spec fn clean_edges(r: Seq<char>) -> bool {
    r.len() > 0 ==> !is_whitespace(r.first()) && !is_whitespace(r.last())
}

/// The white space around a line never reaches the cleaned line: that is
/// either the context of the match, taken from the trimmed line, or a text
/// that neither starts nor ends with white space.
pub proof fn lemma_cleaned_edges(
    line: Seq<char>,
    max_len: nat,
    context: Option<Seq<char>>,
    lower: Seq<char>,
    lower_pattern: Seq<char>,
)
    requires
        max_len >= 3 || trim(line).len() <= max_len || find(lower, lower_pattern).is_some() || (
        context matches Some(m) && m.len() <= max_len),
    ensures
        ({
            let r = cleaned(trim(line), max_len, context, lower, lower_pattern);
            (context matches Some(m) && m.len() <= max_len && r == m) || clean_edges(r)
        }),
{
    reveal_strlit("...");
    lemma_trim_edges(line);
    lemma_find_from_least(lower, lower_pattern, 0);
    assert(!is_whitespace('.'));
}

/// Whether cleaning a line cuts it around the match: no context is short
/// enough, the trimmed line is longer than allowed, and the pattern stands
/// in it.
pub open spec fn cut_around_match(
    line: Seq<char>,
    max_len: nat,
    context_only: bool,
    pattern: Seq<char>,
) -> bool {
    let trimmed = trim(line);
    &&& !(context_of(trimmed, context_only, pattern) matches Some(m) && m.len() <= max_len)
    &&& trimmed.len() > max_len
    &&& find(lowercase(trimmed), lowercase(pattern)).is_some()
}

/// A line made ready for display has at most `max_len` characters, unless it
/// was cut around the match; then it has three or six more, for the dots on
/// one side or on both.
pub proof fn lemma_clean_length(
    line: Seq<char>,
    max_len: nat,
    context_only: bool,
    pattern: Seq<char>,
)
    requires
        can_clean(line, max_len, context_only, pattern),
    ensures
        ({
            let r = clean(line, max_len, context_only, pattern);
            if cut_around_match(line, max_len, context_only, pattern) {
                r.len() == max_len + 3 || r.len() == max_len + 6
            } else {
                r.len() <= max_len
            }
        }),
{
    reveal_strlit("...");
    lemma_find_from_least(lowercase(trim(line)), lowercase(pattern), 0);
}

/// The white space around a line has no effect on how it is made ready for
/// display.
pub proof fn lemma_clean_ignores_padding(
    line: Seq<char>,
    max_len: nat,
    context_only: bool,
    pattern: Seq<char>,
)
    ensures
        clean(line, max_len, context_only, pattern) == clean(
            trim(line),
            max_len,
            context_only,
            pattern,
        ),
        can_clean(line, max_len, context_only, pattern) == can_clean(
            trim(line),
            max_len,
            context_only,
            pattern,
        ),
{
    lemma_trim_edges(line);
}

/// A line made ready for display without its context neither starts nor
/// ends with white space. With the context it is either the context of the
/// match, a stretch of at most `max_len` characters that the regular
/// expression found in the trimmed line, or again a text that neither starts
/// nor ends with white space.
pub proof fn lemma_clean_edges(
    line: Seq<char>,
    max_len: nat,
    context_only: bool,
    pattern: Seq<char>,
)
    requires
        can_clean(line, max_len, context_only, pattern),
    ensures
        ({
            let r = clean(line, max_len, context_only, pattern);
            let context = context_of(trim(line), context_only, pattern);
            (context matches Some(m) && m.len() <= max_len && r == m) || clean_edges(r)
        }),
        !context_only ==> clean_edges(clean(line, max_len, context_only, pattern)),
{
    let trimmed = trim(line);
    lemma_cleaned_edges(
        line,
        max_len,
        context_of(trimmed, context_only, pattern),
        lowercase(trimmed),
        lowercase(pattern),
    );
}

/// A trimmed line of at most `max_len` characters stays as it is, where no
/// context is asked for.
pub proof fn lemma_clean_fitting(line: Seq<char>, max_len: nat, pattern: Seq<char>)
    requires
        trim(line).len() <= max_len,
    ensures
        can_clean(line, max_len, false, pattern),
        clean(line, max_len, false, pattern) == trim(line),
{
}

/// The matches by file: the files stand in strictly rising lexicographic
/// order, the blocks together hold every match once, and the matches of a
/// file are those that were reported for it, in their order. So the number
/// in a file's header is the number of matches collected for that file.
pub proof fn lemma_by_file(found: Seq<Entry>)
    ensures
        sorted(by_file(found)),
        item_count(by_file(found)) == found.len(),
        forall|file: Seq<char>| #[trigger]
            items_of(by_file(found), file) == items_with(found, file, found.len() as int),
{
    lemma_grouped(found, found.len() as int);
}

/// The short form of a path is never more than three characters longer
/// than the path: it leaves out at least one segment and the slash after it,
/// and puts `...` and a slash in their place.
pub proof fn lemma_compacted_length(path: Seq<char>)
    ensures
        compacted(path).len() <= path.len() + 3,
{
    let parts = split(path, '/');
    let n = parts.len() as int;
    if path.len() > 50 && n > 3 {
        reveal_strlit("/.../");
        reveal_strlit("/");
        lemma_split_join(path, '/');
        lemma_join_len(parts, '/');
        let first = parts.take(1);
        let middle = parts.subrange(1, n - 2);
        let last = parts.skip(n - 2);
        assert(parts == first + middle + last);
        lemma_total_len_add(first + middle, last);
        lemma_total_len_add(first, middle);
        assert(total_len(first) == parts[0].len()) by {
            reveal_with_fuel(total_len, 2);
        }
        assert(total_len(last) == parts[n - 2].len() + parts[n - 1].len()) by {
            reveal_with_fuel(total_len, 3);
        }
    }
}

} // verus!
