//! Line-by-line comparison of two texts, and the condensed form of a unified
//! diff.
//!
//! The comparison is positional: line `i` of one text is held against line `i`
//! of the other, and nothing is realigned after an insertion. A line inserted
//! near the top therefore shows up as a change on every line below it.

use crate::text::{
    append_chars, append_decimal, append_decimal_width4, append_range, chars_of, code_of, decimal,
    join, join_lines, lemma_code_of, lines, pad_left, push_line, rows, same_chars, split_lines,
    starts_with, str_texts, string_of, strip_prefixes, strip_repeated, texts,
};
use std::collections::HashSet;
use vstd::prelude::*;
use vstd::set_lib::*;
use vstd::string::*;

verus! {

broadcast use vstd::std_specs::hash::group_hash_axioms;

/// One entry of a comparison, as a mathematical value: the 1-based line
/// number and the text of the line or lines.
pub enum Change {
    Added(int, Seq<char>),
    Removed(int, Seq<char>),
    Modified(int, Seq<char>, Seq<char>),
}

/// One entry of a comparison.
#[derive(Debug, PartialEq, Eq)]
pub enum DiffChange {
    /// A line that only the second text has.
    Added(usize, String),
    /// A line that only the first text has.
    Removed(usize, String),
    /// A line that both have, in different but similar wording.
    Modified(usize, String, String),
}

impl View for DiffChange {
    type V = Change;

    open spec fn view(&self) -> Change {
        match self {
            DiffChange::Added(n, text) => Change::Added(*n as int, text@),
            DiffChange::Removed(n, text) => Change::Removed(*n as int, text@),
            DiffChange::Modified(n, old, new) => Change::Modified(*n as int, old@, new@),
        }
    }
}

/// How many entries of `changes` are additions.
pub open spec fn added_in(changes: Seq<Change>) -> nat
    decreases changes.len(),
{
    if changes.len() == 0 {
        0
    } else {
        added_in(changes.drop_last()) + if changes.last() is Added {
            1nat
        } else {
            0nat
        }
    }
}

/// How many entries of `changes` are removals.
pub open spec fn removed_in(changes: Seq<Change>) -> nat
    decreases changes.len(),
{
    if changes.len() == 0 {
        0
    } else {
        removed_in(changes.drop_last()) + if changes.last() is Removed {
            1nat
        } else {
            0nat
        }
    }
}

/// How many entries of `changes` are modifications.
pub open spec fn modified_in(changes: Seq<Change>) -> nat
    decreases changes.len(),
{
    if changes.len() == 0 {
        0
    } else {
        modified_in(changes.drop_last()) + if changes.last() is Modified {
            1nat
        } else {
            0nat
        }
    }
}

/// The outcome of a comparison: the entries in line order, and how many there
/// are of each kind.
#[derive(Debug, PartialEq, Eq)]
pub struct DiffResult {
    pub added: usize,
    pub removed: usize,
    pub modified: usize,
    pub changes: Vec<DiffChange>,
}

impl View for DiffResult {
    type V = Seq<Change>;

    open spec fn view(&self) -> Seq<Change> {
        self.changes@.map_values(|c: DiffChange| c@)
    }
}

impl DiffResult {
    /// The three counts are the numbers of entries of each kind.
    pub open spec fn wf(&self) -> bool {
        &&& self.added == added_in(self@)
        &&& self.removed == removed_in(self@)
        &&& self.modified == modified_in(self@)
    }
}

/// The counts of the three kinds add up to the number of entries.
pub proof fn lemma_counts_total(changes: Seq<Change>)
    ensures
        added_in(changes) + removed_in(changes) + modified_in(changes) == changes.len(),
    decreases changes.len(),
{
    if changes.len() > 0 {
        lemma_counts_total(changes.drop_last());
    }
}

/// What one more entry does to the counts.
pub proof fn lemma_counts_push(changes: Seq<Change>, c: Change)
    ensures
        added_in(changes.push(c)) == added_in(changes) + if c is Added {
            1nat
        } else {
            0nat
        },
        removed_in(changes.push(c)) == removed_in(changes) + if c is Removed {
            1nat
        } else {
            0nat
        },
        modified_in(changes.push(c)) == modified_in(changes) + if c is Modified {
            1nat
        } else {
            0nat
        },
{
    assert(changes.push(c).drop_last() == changes);
}

/// How two lines overlap in the characters they use: the number of distinct
/// characters that both hold, and the number that either holds. Their ratio
/// is the Jaccard similarity of the two character sets.
#[derive(Debug, Clone, Copy, PartialEq, Eq)]
pub struct Ratio {
    pub shared: usize,
    pub total: usize,
}

impl Ratio {
    /// Whether the ratio is above one half. Two lines without any character
    /// count as alike.
    pub open spec fn spec_above_half(self) -> bool {
        self.total == 0 || 2 * self.shared > self.total
    }

    /// Whether the ratio is above one half.
    #[verifier::when_used_as_spec(spec_above_half)]
    pub fn above_half(self) -> (r: bool)
        ensures
            r == self.spec_above_half(),
    {
        if self.total == 0 || self.shared >= self.total {
            true
        } else {
            self.shared > self.total - self.shared
        }
    }
}

/// The overlap of the character sets of `a` and `b`.
pub open spec fn overlap(a: Seq<char>, b: Seq<char>) -> Ratio {
    Ratio {
        shared: a.to_set().intersect(b.to_set()).len() as usize,
        total: a.to_set().union(b.to_set()).len() as usize,
    }
}

/// Whether a changed line counts as a modification of the old one, rather
/// than as a replacement: more than half of the characters that occur in
/// either line occur in both.
pub open spec fn similar(a: Seq<char>, b: Seq<char>) -> bool {
    overlap(a, b).spec_above_half()
}

fn code(c: char) -> (x: u32)
    ensures
        x == code_of(c),
{
    c as u32
}

/// There are no more than 0x110000 characters.
pub proof fn lemma_char_set_bound(s: Set<char>)
    requires
        s.finite(),
    ensures
        s.len() <= 0x110000,
{
    let f = |c: char| code_of(c) as int;
    let y = s.map(f);
    assert(vstd::relations::injective_on(f, s)) by {
        assert forall|c: char, d: char| #[trigger] f(c) == #[trigger] f(d) implies c == d by {
            lemma_code_of(c, d);
        }
    }
    lemma_map_size(s, y, f);
    lemma_int_range(0, 0x110000);
    assert(y.subset_of(set_int_range(0, 0x110000))) by {
        assert forall|x: int| y.contains(x) implies set_int_range(0, 0x110000).contains(x) by {
            let c = choose|c: char| s.contains(c) && x == f(c);
            lemma_code_of(c, c);
        }
    }
    lemma_len_subset(y, set_int_range(0, 0x110000));
}

/// The set of the characters of `v`, by code point, and its size.
fn char_set(v: &Vec<char>) -> (r: (HashSet<u32>, usize))
    ensures
        forall|c: char| v@.to_set().contains(c) <==> r.0@.contains(code_of(c)),
        r.1 == v@.to_set().len(),
{
    let mut codes: HashSet<u32> = HashSet::new();
    let mut n: usize = 0;
    let mut i: usize = 0;
    assert(v@.take(0).to_set() == Set::<char>::empty());
    while i < v.len()
        invariant
            i <= v.len(),
            n <= i,
            forall|c: char| v@.take(i as int).to_set().contains(c) <==> codes@.contains(code_of(c)),
            n == v@.take(i as int).to_set().len(),
            v@.take(i as int).to_set().finite(),
        decreases v.len() - i,
    {
        let c = v[i];
        let ghost seen = v@.take(i as int).to_set();
        proof {
            assert(v@.take(i + 1) == v@.take(i as int).push(c));
            v@.take(i as int).lemma_push_to_set_commute(c);
        }
        let fresh = codes.insert(code(c));
        if fresh {
            n += 1;
        }
        i += 1;
        assert forall|d: char| seen.insert(c).contains(d) <==> codes@.contains(code_of(d)) by {
            lemma_code_of(c, d);
        }
    }
    assert(v@.take(v@.len() as int) == v@);
    (codes, n)
}

/// The overlap of the character sets of two lines.
pub fn similarity(a: &str, b: &str) -> (r: Ratio)
    ensures
        r == overlap(a@, b@),
        r.shared <= r.total <= 0x110000,
{
    let a = chars_of(a);
    let b = chars_of(b);
    overlap_of(&a, &b)
}

/// The overlap of the character sets of two lines.
pub fn overlap_of(a: &Vec<char>, b: &Vec<char>) -> (r: Ratio)
    ensures
        r == overlap(a@, b@),
        r.shared <= r.total <= 0x110000,
{
    let (right, right_len) = char_set(b);
    let ghost right_set = b@.to_set();
    let mut left: HashSet<u32> = HashSet::new();
    let mut left_len: usize = 0;
    let mut shared: usize = 0;
    let mut i: usize = 0;
    assert(a@.take(0).to_set() == Set::<char>::empty());
    assert(Set::<char>::empty().intersect(right_set) == Set::<char>::empty());
    while i < a.len()
        invariant
            i <= a.len(),
            shared <= left_len <= i,
            right_set == b@.to_set(),
            forall|c: char| right_set.contains(c) <==> right@.contains(code_of(c)),
            forall|c: char| a@.take(i as int).to_set().contains(c) <==> left@.contains(code_of(c)),
            left_len == a@.take(i as int).to_set().len(),
            shared == a@.take(i as int).to_set().intersect(right_set).len(),
            a@.take(i as int).to_set().finite(),
        decreases a.len() - i,
    {
        let c = a[i];
        let ghost seen = a@.take(i as int).to_set();
        proof {
            assert(a@.take(i + 1) == a@.take(i as int).push(c));
            a@.take(i as int).lemma_push_to_set_commute(c);
            if right_set.contains(c) {
                assert(seen.insert(c).intersect(right_set) == seen.intersect(right_set).insert(c));
            } else {
                assert(seen.insert(c).intersect(right_set) == seen.intersect(right_set));
            }
        }
        let x = code(c);
        let fresh = left.insert(x);
        if fresh {
            left_len += 1;
            if right.contains(&x) {
                shared += 1;
            }
        }
        i += 1;
        assert forall|d: char| seen.insert(c).contains(d) <==> left@.contains(code_of(d)) by {
            lemma_code_of(c, d);
        }
    }
    proof {
        assert(a@.take(a@.len() as int) == a@);
        let left_set = a@.to_set();
        vstd::seq_lib::seq_to_set_is_finite(b@);
        lemma_set_intersect_union_lens(left_set, right_set);
        lemma_char_set_bound(left_set.union(right_set));
        lemma_len_intersect(right_set, left_set);
        assert(right_set.intersect(left_set) == left_set.intersect(right_set));
    }
    Ratio { shared, total: left_len - shared + right_len }
}

/// `s` cut to at most `max_len` characters: where it is longer, its first
/// `max_len - 3` characters and three dots.
pub open spec fn truncated(s: Seq<char>, max_len: nat) -> Seq<char> {
    if s.len() <= max_len {
        s
    } else {
        s.take(max_len - 3) + "..."@
    }
}

/// Appends `v`, cut to at most `max_len` characters, to `out`.
pub fn append_truncated(out: &mut String, v: &Vec<char>, max_len: usize)
    requires
        max_len >= 3 || v.len() <= max_len,
    ensures
        final(out)@ == old(out)@ + truncated(v@, max_len as nat),
{
    if v.len() <= max_len {
        append_chars(out, v);
    } else {
        append_range(out, v, 0, max_len - 3);
        out.append("...");
    }
}

/// Cuts `s` to at most `max_len` characters, the last three of them dots
/// where anything was cut.
pub fn truncate(s: &str, max_len: usize) -> (r: String)
    requires
        max_len >= 3 || s@.len() <= max_len,
    ensures
        r@ == truncated(s@, max_len as nat),
{
    let v = chars_of(s);
    let mut r = String::new();
    append_truncated(&mut r, &v, max_len);
    r
}

/// The entries that line `i` (counted from 0) gives rise to.
pub open spec fn line_changes(l1: Seq<Seq<char>>, l2: Seq<Seq<char>>, i: int) -> Seq<Change> {
    if i < l1.len() && i < l2.len() {
        if l1[i] == l2[i] {
            seq![]
        } else if similar(l1[i], l2[i]) {
            seq![Change::Modified(i + 1, l1[i], l2[i])]
        } else {
            seq![Change::Removed(i + 1, l1[i]), Change::Added(i + 1, l2[i])]
        }
    } else if i < l1.len() {
        seq![Change::Removed(i + 1, l1[i])]
    } else if i < l2.len() {
        seq![Change::Added(i + 1, l2[i])]
    } else {
        seq![]
    }
}

/// The entries that the first `n` lines give rise to.
pub open spec fn changes_upto(l1: Seq<Seq<char>>, l2: Seq<Seq<char>>, n: int) -> Seq<Change>
    decreases n,
{
    if n <= 0 {
        seq![]
    } else {
        changes_upto(l1, l2, n - 1) + line_changes(l1, l2, n - 1)
    }
}

/// The positional comparison of two lists of lines.
pub open spec fn diff(l1: Seq<Seq<char>>, l2: Seq<Seq<char>>) -> Seq<Change> {
    changes_upto(
        l1,
        l2,
        if l1.len() >= l2.len() {
            l1.len() as int
        } else {
            l2.len() as int
        },
    )
}

/// The views of a list of entries.
pub open spec fn views(changes: Seq<DiffChange>) -> Seq<Change> {
    changes.map_values(|c: DiffChange| c@)
}

fn record(changes: &mut Vec<DiffChange>, change: DiffChange)
    ensures
        views(final(changes)@) == views(old(changes)@).push(change@),
{
    changes.push(change);
}

/// Compares two lists of lines position by position.
///
/// Equal lines give nothing. Unequal lines give one `Modified` entry where
/// they are similar, else a `Removed` entry followed by an `Added` one. A
/// line that only one side has gives `Removed` or `Added`.
pub fn compute_diff(lines1: &[&str], lines2: &[&str]) -> (r: DiffResult)
    ensures
        r@ == diff(str_texts(lines1@), str_texts(lines2@)),
        r.wf(),
        r@.len() == r.added + r.removed + r.modified,
{
    let ghost l1 = str_texts(lines1@);
    let ghost l2 = str_texts(lines2@);
    let n1 = lines1.len();
    let n2 = lines2.len();
    let n = if n1 >= n2 {
        n1
    } else {
        n2
    };
    let mut changes: Vec<DiffChange> = Vec::new();
    let mut added: usize = 0;
    let mut removed: usize = 0;
    let mut modified: usize = 0;
    let mut i: usize = 0;
    while i < n
        invariant
            i <= n,
            n1 == lines1.len(),
            n2 == lines2.len(),
            n == if n1 >= n2 {
                n1
            } else {
                n2
            },
            l1 == str_texts(lines1@),
            l2 == str_texts(lines2@),
            views(changes@) == changes_upto(l1, l2, i as int),
            added == added_in(views(changes@)),
            removed == removed_in(views(changes@)),
            modified == modified_in(views(changes@)),
            added <= i,
            removed <= i,
            modified <= i,
        decreases n - i,
    {
        let ghost before = views(changes@);
        if i < n1 && i < n2 {
            let a = lines1[i];
            let b = lines2[i];
            let ca = chars_of(a);
            let cb = chars_of(b);
            if !same_chars(&ca, &cb) {
                if overlap_of(&ca, &cb).above_half() {
                    let change = DiffChange::Modified(i + 1, a.to_owned(), b.to_owned());
                    proof {
                        lemma_counts_push(before, change@);
                    }
                    record(&mut changes, change);
                    modified += 1;
                } else {
                    let first = DiffChange::Removed(i + 1, a.to_owned());
                    let second = DiffChange::Added(i + 1, b.to_owned());
                    proof {
                        lemma_counts_push(before, first@);
                        lemma_counts_push(before.push(first@), second@);
                    }
                    record(&mut changes, first);
                    record(&mut changes, second);
                    removed += 1;
                    added += 1;
                }
            }
        } else if i < n1 {
            let a = lines1[i];
            let change = DiffChange::Removed(i + 1, a.to_owned());
            proof {
                lemma_counts_push(before, change@);
            }
            record(&mut changes, change);
            removed += 1;
        } else {
            let b = lines2[i];
            let change = DiffChange::Added(i + 1, b.to_owned());
            proof {
                lemma_counts_push(before, change@);
            }
            record(&mut changes, change);
            added += 1;
        }
        i += 1;
    }
    proof {
        lemma_counts_total(views(changes@));
    }
    DiffResult { added, removed, modified, changes }
}

/// The line that shows one entry: a mark for its kind, the line number
/// right-aligned in four columns, and the text, cut to 80 characters, or to
/// 35 each for the old and the new wording of a modified line.
pub open spec fn change_line(c: Change) -> Seq<char> {
    match c {
        Change::Added(n, text) => "+"@ + pad_left(decimal(n as nat), 4) + " "@ + truncated(
            text,
            80,
        ),
        Change::Removed(n, text) => "-"@ + pad_left(decimal(n as nat), 4) + " "@ + truncated(
            text,
            80,
        ),
        Change::Modified(n, old, new) => "~"@ + pad_left(decimal(n as nat), 4) + " "@ + truncated(
            old,
            35,
        ) + " → "@ + truncated(new, 35),
    }
}

/// The lines that show the first `n` entries.
pub open spec fn change_lines(changes: Seq<Change>, n: int) -> Seq<Seq<char>> {
    Seq::new(n as nat, |i: int| change_line(changes[i]))
}

/// The summary of a comparison. Without changes it is one line that says so.
/// Otherwise: the two labels, the three counts, an empty line, the first 50
/// entries, and a line that counts the entries left out, if any.
pub open spec fn report(label1: Seq<char>, label2: Seq<char>, changes: Seq<Change>) -> Seq<
    Seq<char>,
> {
    if changes.len() == 0 {
        seq!["✅ Files are identical"@]
    } else {
        let shown = if changes.len() > 50 {
            50
        } else {
            changes.len() as int
        };
        seq![
            "📊 "@ + label1 + " → "@ + label2,
            "   +"@ + decimal(added_in(changes)) + " added, -"@ + decimal(removed_in(changes))
                + " removed, ~"@ + decimal(modified_in(changes)) + " modified"@,
            Seq::empty(),
        ] + change_lines(changes, shown) + if changes.len() > 50 {
            seq!["... +"@ + decimal((changes.len() - 50) as nat) + " more changes"@]
        } else {
            seq![]
        }
    }
}

fn render_change(change: &DiffChange) -> (line: String)
    ensures
        line@ == change_line(change@),
{
    let mut line = String::new();
    match change {
        DiffChange::Added(n, text) => {
            let v = chars_of(text.as_str());
            line.append("+");
            append_decimal_width4(&mut line, *n);
            line.append(" ");
            append_truncated(&mut line, &v, 80);
        },
        DiffChange::Removed(n, text) => {
            let v = chars_of(text.as_str());
            line.append("-");
            append_decimal_width4(&mut line, *n);
            line.append(" ");
            append_truncated(&mut line, &v, 80);
        },
        DiffChange::Modified(n, old, new) => {
            let v = chars_of(old.as_str());
            let w = chars_of(new.as_str());
            line.append("~");
            append_decimal_width4(&mut line, *n);
            line.append(" ");
            append_truncated(&mut line, &v, 35);
            line.append(" → ");
            append_truncated(&mut line, &w, 35);
        },
    }
    line
}

/// Renders the summary of a comparison, one string for each line to print.
pub fn render(label1: &str, label2: &str, result: &DiffResult) -> (out: Vec<String>)
    requires
        result.wf(),
    ensures
        texts(out@) == report(label1@, label2@, result@),
{
    let mut out: Vec<String> = Vec::new();
    let total = result.changes.len();
    if total == 0 {
        push_line(&mut out, "✅ Files are identical".to_owned());
        return out;
    }
    let mut head = String::new();
    head.append("📊 ");
    head.append(label1);
    head.append(" → ");
    head.append(label2);
    let mut counts = String::new();
    counts.append("   +");
    append_decimal(&mut counts, result.added);
    counts.append(" added, -");
    append_decimal(&mut counts, result.removed);
    counts.append(" removed, ~");
    append_decimal(&mut counts, result.modified);
    counts.append(" modified");
    push_line(&mut out, head);
    push_line(&mut out, counts);
    push_line(&mut out, String::new());
    let ghost top = texts(out@);
    let shown: usize = if total > 50 {
        50
    } else {
        total
    };
    let mut i: usize = 0;
    while i < shown
        invariant
            i <= shown <= total,
            total == result.changes.len(),
            texts(out@) == top + change_lines(result@, i as int),
        decreases shown - i,
    {
        let line = render_change(&result.changes[i]);
        push_line(&mut out, line);
        i += 1;
    }
    if total > 50 {
        let mut more = String::new();
        more.append("... +");
        append_decimal(&mut more, total - 50);
        more.append(" more changes");
        push_line(&mut out, more);
    }
    out
}

/// Compares two texts line by line and renders the summary. `label1` and
/// `label2` name the two texts in the first line of the summary.
pub fn run(label1: &str, label2: &str, content1: &str, content2: &str) -> (out: Vec<String>)
    ensures
        texts(out@) == report(label1@, label2@, diff(lines(content1@), lines(content2@))),
{
    let lines1 = owned_lines(content1);
    let lines2 = owned_lines(content2);
    let refs1 = borrowed(&lines1);
    let refs2 = borrowed(&lines2);
    let result = compute_diff(refs1.as_slice(), refs2.as_slice());
    render(label1, label2, &result)
}

/// The lines of `content`, each as a string of its own.
pub fn owned_lines(content: &str) -> (out: Vec<String>)
    ensures
        texts(out@) == lines(content@),
{
    let chars = chars_of(content);
    let split = split_lines(&chars);
    let mut out: Vec<String> = Vec::new();
    let mut i: usize = 0;
    while i < split.len()
        invariant
            i <= split.len(),
            texts(out@) == rows(split@).take(i as int),
        decreases split.len() - i,
    {
        let line = string_of(&split[i]);
        push_line(&mut out, line);
        i += 1;
    }
    out
}

fn borrowed<'a>(lines: &'a Vec<String>) -> (out: Vec<&'a str>)
    ensures
        str_texts(out@) == texts(lines@),
{
    let mut out: Vec<&'a str> = Vec::new();
    let mut i: usize = 0;
    while i < lines.len()
        invariant
            i <= lines.len(),
            str_texts(out@) == texts(lines@).take(i as int),
        decreases lines.len() - i,
    {
        let line: &'a str = lines[i].as_str();
        let ghost before = str_texts(out@);
        out.push(line);
        i += 1;
        assert(str_texts(out@) == before.push(line@));
    }
    out
}

/// What a line of a unified diff is.
pub enum LineKind {
    /// A `+++ ` header: it names the file that the following lines change.
    FileHeader,
    /// A `diff --git` or `--- ` header.
    OtherHeader,
    /// An added line: it starts with `+`, but not with `+++`.
    Added,
    /// A removed line: it starts with `-`, but not with `---`.
    Removed,
    /// Anything else.
    Context,
}

/// Tells what a line of a unified diff is.
pub open spec fn classify(line: Seq<char>) -> LineKind {
    if "+++ "@.is_prefix_of(line) {
        LineKind::FileHeader
    } else if "diff --git"@.is_prefix_of(line) || "--- "@.is_prefix_of(line) {
        LineKind::OtherHeader
    } else if line.len() > 0 && line[0] == '+' && !"+++"@.is_prefix_of(line) {
        LineKind::Added
    } else if line.len() > 0 && line[0] == '-' && !"---"@.is_prefix_of(line) {
        LineKind::Removed
    } else {
        LineKind::Context
    }
}

/// The file that a `+++ ` header names: the header without its mark and
/// without a leading `b/`.
pub open spec fn header_file(line: Seq<char>) -> Seq<char> {
    strip_repeated(strip_repeated(line, "+++ "@), "b/"@)
}

/// What has been gathered while reading a unified diff: the file that the
/// current lines belong to, how many lines were added to it and removed from
/// it, the first 15 of them as samples, and the output for the files before.
pub struct Gathered {
    pub file: Seq<char>,
    pub added: nat,
    pub removed: nat,
    pub samples: Seq<Seq<char>>,
    pub out: Seq<Seq<char>>,
}

/// The block that closes the current file: a header with the two counts, the
/// first 10 samples, and a line that counts the samples left out. Nothing
/// where no file was named or no line changed.
pub open spec fn file_block(g: Gathered) -> Seq<Seq<char>> {
    if g.file.len() > 0 && (g.added > 0 || g.removed > 0) {
        let shown = if g.samples.len() > 10 {
            10
        } else {
            g.samples.len() as int
        };
        seq!["📄 "@ + g.file + " (+"@ + decimal(g.added) + " -"@ + decimal(g.removed) + ")"@]
            + Seq::new(shown as nat, |i: int| "  "@ + g.samples[i]) + if g.samples.len() > 10 {
            seq!["  ... +"@ + decimal((g.samples.len() - 10) as nat) + " more"@]
        } else {
            seq![]
        }
    } else {
        seq![]
    }
}

/// One more sample, cut to 70 characters, unless there are 15 already.
pub open spec fn with_sample(samples: Seq<Seq<char>>, line: Seq<char>) -> Seq<Seq<char>> {
    if samples.len() < 15 {
        samples.push(truncated(line, 70))
    } else {
        samples
    }
}

/// What one line of the diff does to what was gathered.
pub open spec fn gather(g: Gathered, line: Seq<char>) -> Gathered {
    match classify(line) {
        LineKind::FileHeader => Gathered {
            file: header_file(line),
            added: 0,
            removed: 0,
            samples: seq![],
            out: g.out + file_block(g),
        },
        LineKind::Added => Gathered {
            added: g.added + 1,
            samples: with_sample(g.samples, line),
            ..g
        },
        LineKind::Removed => Gathered {
            removed: g.removed + 1,
            samples: with_sample(g.samples, line),
            ..g
        },
        _ => g,
    }
}

/// What the first `n` lines of a diff gather.
pub open spec fn gathered(all: Seq<Seq<char>>, n: int) -> Gathered
    decreases n,
{
    if n <= 0 {
        Gathered { file: seq![], added: 0, removed: 0, samples: seq![], out: seq![] }
    } else {
        gather(gathered(all, n - 1), all[n - 1])
    }
}

/// The condensed form of a unified diff: one block for each file with
/// changed lines, the blocks joined by line feeds.
pub open spec fn condensed(diff: Seq<char>) -> Seq<char> {
    let all = lines(diff);
    let g = gathered(all, all.len() as int);
    join(g.out + file_block(g), "\n"@)
}

fn push_file_block(
    out: &mut Vec<String>,
    file: &Vec<char>,
    added: usize,
    removed: usize,
    samples: &Vec<String>,
)
    ensures
        texts(final(out)@) == texts(old(out)@) + file_block(
            Gathered {
                file: file@,
                added: added as nat,
                removed: removed as nat,
                samples: texts(samples@),
                out: texts(old(out)@),
            },
        ),
{
    let ghost g = Gathered {
        file: file@,
        added: added as nat,
        removed: removed as nat,
        samples: texts(samples@),
        out: texts(old(out)@),
    };
    if file.len() == 0 || (added == 0 && removed == 0) {
        return ;
    }
    let mut head = String::new();
    head.append("📄 ");
    append_chars(&mut head, file);
    head.append(" (+");
    append_decimal(&mut head, added);
    head.append(" -");
    append_decimal(&mut head, removed);
    head.append(")");
    push_line(out, head);
    let ghost top = texts(out@);
    let shown: usize = if samples.len() > 10 {
        10
    } else {
        samples.len()
    };
    let mut i: usize = 0;
    while i < shown
        invariant
            i <= shown <= samples.len(),
            g.samples == texts(samples@),
            texts(out@) == top + Seq::new(i as nat, |k: int| "  "@ + g.samples[k]),
        decreases shown - i,
    {
        let mut line = String::new();
        line.append("  ");
        line.append(samples[i].as_str());
        push_line(out, line);
        i += 1;
    }
    if samples.len() > 10 {
        let mut more = String::new();
        more.append("  ... +");
        append_decimal(&mut more, samples.len() - 10);
        more.append(" more");
        push_line(out, more);
    }
}

fn push_sample(samples: &mut Vec<String>, line: &Vec<char>)
    ensures
        texts(final(samples)@) == with_sample(texts(old(samples)@), line@),
{
    if samples.len() < 15 {
        let mut sample = String::new();
        append_truncated(&mut sample, line, 70);
        push_line(samples, sample);
    }
}

/// Condenses a unified diff: for each file with changed lines, a header with
/// the numbers of added and removed lines, and up to 10 of the changed
/// lines. Text that is no unified diff gives an empty or partial summary.
pub fn condense_unified_diff(diff: &str) -> (r: String)
    ensures
        r@ == condensed(diff@),
{
    let chars = chars_of(diff);
    let all = split_lines(&chars);
    let file_mark = chars_of("+++ ");
    let git_mark = chars_of("diff --git");
    let old_mark = chars_of("--- ");
    let b_mark = chars_of("b/");
    let plus3 = chars_of("+++");
    let minus3 = chars_of("---");
    let mut out: Vec<String> = Vec::new();
    let mut file: Vec<char> = Vec::new();
    let mut added: usize = 0;
    let mut removed: usize = 0;
    let mut samples: Vec<String> = Vec::new();
    let mut i: usize = 0;
    proof {
        let start = gathered(rows(all@), 0);
        assert(start.samples == texts(samples@));
    }
    while i < all.len()
        invariant
            i <= all.len(),
            file_mark@ == "+++ "@,
            git_mark@ == "diff --git"@,
            old_mark@ == "--- "@,
            b_mark@ == "b/"@,
            plus3@ == "+++"@,
            minus3@ == "---"@,
            added <= i,
            removed <= i,
            gathered(rows(all@), i as int) == (Gathered {
                file: file@,
                added: added as nat,
                removed: removed as nat,
                samples: texts(samples@),
                out: texts(out@),
            }),
        decreases all.len() - i,
    {
        let line = &all[i];
        if starts_with(line, &file_mark) {
            push_file_block(&mut out, &file, added, removed, &samples);
            let name = strip_prefixes(line, &file_mark);
            file = strip_prefixes(&name, &b_mark);
            added = 0;
            removed = 0;
            samples = Vec::new();
            assert(texts(samples@) == Seq::<Seq<char>>::empty());
        } else if starts_with(line, &git_mark) || starts_with(line, &old_mark) {
            // the other headers name no file and count for nothing
        } else if line.len() > 0 && line[0] == '+' && !starts_with(line, &plus3) {
            added += 1;
            push_sample(&mut samples, line);
        } else if line.len() > 0 && line[0] == '-' && !starts_with(line, &minus3) {
            removed += 1;
            push_sample(&mut samples, line);
        }
        i += 1;
    }
    push_file_block(&mut out, &file, added, removed, &samples);
    join_lines(&out, "\n")
}

/// Lines that agree up to position `n` give no entry up to there.
pub proof fn lemma_equal_lines_no_change(l1: Seq<Seq<char>>, l2: Seq<Seq<char>>, n: int)
    requires
        n <= l1.len(),
        n <= l2.len(),
        forall|j: int| 0 <= j < n ==> l1[j] == l2[j],
    ensures
        changes_upto(l1, l2, n) == Seq::<Change>::empty(),
    decreases n,
{
    if n > 0 {
        lemma_equal_lines_no_change(l1, l2, n - 1);
    }
}

/// A text compared with itself: no entry, all three counts zero, and the
/// summary is the one line that says that the files are identical.
pub proof fn lemma_identical(all: Seq<Seq<char>>, label1: Seq<char>, label2: Seq<char>)
    ensures
        diff(all, all) == Seq::<Change>::empty(),
        added_in(diff(all, all)) == 0,
        removed_in(diff(all, all)) == 0,
        modified_in(diff(all, all)) == 0,
        report(label1, label2, diff(all, all)) == seq!["✅ Files are identical"@],
{
    lemma_equal_lines_no_change(all, all, all.len() as int);
}

/// Two texts of the same number of lines that differ in line `i` alone: the
/// comparison holds what that line gives, and nothing else.
pub proof fn lemma_one_line_differs(l1: Seq<Seq<char>>, l2: Seq<Seq<char>>, i: int, n: int)
    requires
        l1.len() == l2.len(),
        0 <= i < n <= l1.len(),
        forall|j: int| 0 <= j < l1.len() && j != i ==> l1[j] == l2[j],
    ensures
        changes_upto(l1, l2, n) == line_changes(l1, l2, i),
    decreases n,
{
    if n == i + 1 {
        lemma_equal_lines_no_change(l1, l2, i);
    } else {
        lemma_one_line_differs(l1, l2, i, n - 1);
    }
}

/// Two texts of the same number of lines that differ in line `i` alone give
/// one `Modified` entry where the two wordings are similar, and else one
/// `Removed` entry followed by one `Added` entry, all with line number
/// `i + 1`.
pub proof fn lemma_single_change(l1: Seq<Seq<char>>, l2: Seq<Seq<char>>, i: int)
    requires
        l1.len() == l2.len(),
        0 <= i < l1.len(),
        l1[i] != l2[i],
        forall|j: int| 0 <= j < l1.len() && j != i ==> l1[j] == l2[j],
    ensures
        similar(l1[i], l2[i]) ==> diff(l1, l2) == seq![Change::Modified(i + 1, l1[i], l2[i])],
        !similar(l1[i], l2[i]) ==> diff(l1, l2) == seq![
            Change::Removed(i + 1, l1[i]),
            Change::Added(i + 1, l2[i]),
        ],
{
    lemma_one_line_differs(l1, l2, i, l1.len() as int);
}

} // verus!
