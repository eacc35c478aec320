//! Text as sequences of characters.
//!
//! All lengths and positions in this crate count characters (Unicode scalar
//! values), never bytes. Executable code works on `Vec<char>`, which gives
//! constant-time indexing; `chars_of` and `string_of` convert at the edges.

use vstd::prelude::*;
use vstd::string::*;

verus! {

/// Appends one character to a string, by `String::push`.
///
/// Trusted: the string afterwards is the string before followed by `c`.
#[verifier::external_body]
pub(crate) fn push_char(s: &mut String, c: char)
    ensures
        final(s)@ == old(s)@.push(c),
{
    s.push(c)
}

/// The characters of `s`, in order.
pub fn chars_of(s: &str) -> (v: Vec<char>)
    ensures
        v@ == s@,
{
    let mut v: Vec<char> = Vec::new();
    for c in it: s.chars()
        invariant
            v@ == it.seq().take(it.index() as int),
            it.seq() == s@,
    {
        v.push(c);
    }
    v
}

/// Appends the characters `v[from..to]` to `out`.
pub fn append_range(out: &mut String, v: &Vec<char>, from: usize, to: usize)
    requires
        from <= to <= v.len(),
    ensures
        final(out)@ == old(out)@ + v@.subrange(from as int, to as int),
{
    let mut i = from;
    while i < to
        invariant
            from <= i <= to <= v.len(),
            out@ == old(out)@ + v@.subrange(from as int, i as int),
        decreases to - i,
    {
        push_char(out, v[i]);
        i += 1;
    }
}

/// Appends all of `v` to `out`.
pub fn append_chars(out: &mut String, v: &Vec<char>)
    ensures
        final(out)@ == old(out)@ + v@,
{
    append_range(out, v, 0, v.len());
}

/// The string made of the characters of `v`.
pub fn string_of(v: &Vec<char>) -> (s: String)
    ensures
        s@ == v@,
{
    let mut s = String::new();
    append_chars(&mut s, v);
    s
}

/// The characters `v[from..to]`.
pub fn copy_range(v: &Vec<char>, from: usize, to: usize) -> (r: Vec<char>)
    requires
        from <= to <= v.len(),
    ensures
        r@ == v@.subrange(from as int, to as int),
{
    let mut r: Vec<char> = Vec::new();
    let mut i: usize = from;
    while i < to
        invariant
            from <= i <= to <= v.len(),
            r@ == v@.subrange(from as int, i as int),
        decreases to - i,
    {
        r.push(v[i]);
        i += 1;
    }
    r
}

/// Whether two texts hold the same characters.
pub fn same_chars(a: &Vec<char>, b: &Vec<char>) -> (r: bool)
    ensures
        r == (a@ == b@),
{
    if a.len() != b.len() {
        return false;
    }
    let mut i: usize = 0;
    while i < a.len()
        invariant
            i <= a.len(),
            a.len() == b.len(),
            a@.take(i as int) == b@.take(i as int),
        decreases a.len() - i,
    {
        if a[i] != b[i] {
            return false;
        }
        i += 1;
    }
    assert(a@.take(a@.len() as int) == a@);
    assert(b@.take(b@.len() as int) == b@);
    true
}

/// Whether `prefix` stands at the start of `s`.
pub fn starts_with(s: &Vec<char>, prefix: &Vec<char>) -> (r: bool)
    ensures
        r == prefix@.is_prefix_of(s@),
{
    if prefix.len() > s.len() {
        return false;
    }
    let mut i: usize = 0;
    while i < prefix.len()
        invariant
            i <= prefix.len() <= s.len(),
            prefix@.take(i as int) == s@.take(i as int),
        decreases prefix.len() - i,
    {
        if s[i] != prefix[i] {
            return false;
        }
        i += 1;
    }
    true
}

/// The code point of a character.
pub open spec fn code_of(c: char) -> u32 {
    c as u32
}

/// Different characters have different code points, all below 0x110000.
pub proof fn lemma_code_of(c: char, d: char)
    ensures
        code_of(c) == code_of(d) ==> c == d,
        code_of(c) < 0x110000,
{
}

/// The character for a decimal digit.
pub open spec fn digit_char(d: int) -> char {
    if d == 0 {
        '0'
    } else if d == 1 {
        '1'
    } else if d == 2 {
        '2'
    } else if d == 3 {
        '3'
    } else if d == 4 {
        '4'
    } else if d == 5 {
        '5'
    } else if d == 6 {
        '6'
    } else if d == 7 {
        '7'
    } else if d == 8 {
        '8'
    } else {
        '9'
    }
}

/// A number written in decimal, without sign or leading zeros.
pub open spec fn decimal(n: nat) -> Seq<char>
    decreases n,
{
    if n < 10 {
        seq![digit_char(n as int)]
    } else {
        decimal(n / 10).push(digit_char((n % 10) as int))
    }
}

fn digit_of(d: usize) -> (c: char)
    requires
        d < 10,
    ensures
        c == digit_char(d as int),
{
    if d == 0 {
        '0'
    } else if d == 1 {
        '1'
    } else if d == 2 {
        '2'
    } else if d == 3 {
        '3'
    } else if d == 4 {
        '4'
    } else if d == 5 {
        '5'
    } else if d == 6 {
        '6'
    } else if d == 7 {
        '7'
    } else if d == 8 {
        '8'
    } else {
        '9'
    }
}

/// Appends `n` in decimal to `out`.
pub fn append_decimal(out: &mut String, n: usize)
    ensures
        final(out)@ == old(out)@ + decimal(n as nat),
    decreases n,
{
    if n < 10 {
        push_char(out, digit_of(n));
    } else {
        append_decimal(out, n / 10);
        push_char(out, digit_of(n % 10));
    }
}

/// A decimal number has at least one digit.
pub proof fn lemma_decimal_len(n: nat)
    ensures
        decimal(n).len() >= 1,
    decreases n,
{
    if n >= 10 {
        lemma_decimal_len(n / 10);
    }
}

/// `s` padded with spaces on the left up to `width` characters.
pub open spec fn pad_left(s: Seq<char>, width: nat) -> Seq<char> {
    if s.len() >= width {
        s
    } else {
        Seq::new((width - s.len()) as nat, |i: int| ' ') + s
    }
}

/// Appends `n` in decimal, right-aligned in a field of four characters.
pub fn append_decimal_width4(out: &mut String, n: usize)
    ensures
        final(out)@ == old(out)@ + pad_left(decimal(n as nat), 4),
{
    proof {
        reveal_with_fuel(decimal, 4);
    }
    if n < 10 {
        push_char(out, ' ');
        push_char(out, ' ');
        push_char(out, ' ');
    } else if n < 100 {
        push_char(out, ' ');
        push_char(out, ' ');
    } else if n < 1000 {
        push_char(out, ' ');
    } else {
        proof {
            lemma_decimal_len(n as nat / 1000);
        }
    }
    append_decimal(out, n);
}

/// The views of a list of texts.
pub open spec fn rows(v: Seq<Vec<char>>) -> Seq<Seq<char>> {
    v.map_values(|r: Vec<char>| r@)
}

/// The views of a list of strings.
pub open spec fn texts(v: Seq<String>) -> Seq<Seq<char>> {
    v.map_values(|r: String| r@)
}

/// The views of a list of string slices.
pub open spec fn str_texts(v: Seq<&str>) -> Seq<Seq<char>> {
    v.map_values(|r: &str| r@)
}

/// Appends `line` to `out`.
pub fn push_line(out: &mut Vec<String>, line: String)
    ensures
        texts(final(out)@) == texts(old(out)@).push(line@),
{
    out.push(line);
}

/// The fields of `s` between occurrences of `sep`. There is always at least
/// one field; a text with `k` separators has `k + 1` fields.
pub open spec fn split(s: Seq<char>, sep: char) -> Seq<Seq<char>>
    decreases s.len(),
{
    if s.len() == 0 {
        seq![Seq::empty()]
    } else {
        let head = split(s.drop_last(), sep);
        if s.last() == sep {
            head.push(Seq::empty())
        } else {
            head.drop_last().push(head.last().push(s.last()))
        }
    }
}

/// `parts` written one after another with `sep` between neighbours.
pub open spec fn join(parts: Seq<Seq<char>>, sep: Seq<char>) -> Seq<char>
    decreases parts.len(),
{
    if parts.len() == 0 {
        Seq::empty()
    } else if parts.len() == 1 {
        parts[0]
    } else {
        join(parts.drop_last(), sep) + sep + parts.last()
    }
}

/// Splitting never yields an empty list.
pub proof fn lemma_split_nonempty(s: Seq<char>, sep: char)
    ensures
        split(s, sep).len() >= 1,
    decreases s.len(),
{
    if s.len() > 0 {
        lemma_split_nonempty(s.drop_last(), sep);
    }
}

/// No field of a split holds the separator, and joining the fields with the
/// separator gives the text back.
pub proof fn lemma_split_join(s: Seq<char>, sep: char)
    ensures
        forall|k: int, j: int|
            0 <= k < split(s, sep).len() && 0 <= j < split(s, sep)[k].len() ==> split(
                s,
                sep,
            )[k][j] != sep,
        join(split(s, sep), seq![sep]) == s,
    decreases s.len(),
{
    if s.len() > 0 {
        let head = split(s.drop_last(), sep);
        lemma_split_join(s.drop_last(), sep);
        lemma_split_nonempty(s.drop_last(), sep);
        lemma_join_last(head, seq![sep]);
        let all = split(s, sep);
        lemma_join_last(all, seq![sep]);
        if s.last() == sep {
            assert(all.drop_last() == head);
        } else {
            assert(all.drop_last() == head.drop_last());
            assert(join(all, seq![sep]) == s.drop_last().push(s.last()));
        }
    }
}

/// A join ends with its last part.
pub proof fn lemma_join_last(parts: Seq<Seq<char>>, sep: Seq<char>)
    requires
        parts.len() >= 1,
    ensures
        join(parts, sep) == if parts.len() == 1 {
            parts[0]
        } else {
            join(parts.drop_last(), sep) + sep + parts.last()
        },
{
}

/// The number of characters in all of `parts` together.
pub open spec fn total_len(parts: Seq<Seq<char>>) -> nat
    decreases parts.len(),
{
    if parts.len() == 0 {
        0
    } else {
        total_len(parts.drop_last()) + parts.last().len()
    }
}

/// The characters of two lists of parts, one after the other, add up.
pub proof fn lemma_total_len_add(a: Seq<Seq<char>>, b: Seq<Seq<char>>)
    ensures
        total_len(a + b) == total_len(a) + total_len(b),
    decreases b.len(),
{
    if b.len() > 0 {
        lemma_total_len_add(a, b.drop_last());
        assert((a + b).drop_last() == a + b.drop_last());
    }
}

/// A join with a separator of one character holds the characters of the
/// parts and one separator fewer than there are parts.
pub proof fn lemma_join_len(parts: Seq<Seq<char>>, sep: char)
    requires
        parts.len() >= 1,
    ensures
        join(parts, seq![sep]).len() == total_len(parts) + parts.len() - 1,
    decreases parts.len(),
{
    if parts.len() == 1 {
        assert(total_len(parts) == parts[0].len()) by {
            reveal_with_fuel(total_len, 2);
        }
    } else {
        lemma_join_len(parts.drop_last(), sep);
    }
}

/// Splits `v` at every `sep`.
pub fn split_at(v: &Vec<char>, sep: char) -> (parts: Vec<Vec<char>>)
    ensures
        rows(parts@) == split(v@, sep),
        parts.len() >= 1,
{
    let mut parts: Vec<Vec<char>> = Vec::new();
    let mut cur: Vec<char> = Vec::new();
    let mut i: usize = 0;
    while i < v.len()
        invariant
            i <= v.len(),
            rows(parts@).push(cur@) == split(v@.take(i as int), sep),
        decreases v.len() - i,
    {
        let c = v[i];
        proof {
            let next = v@.take(i + 1);
            assert(next.drop_last() == v@.take(i as int));
        }
        if c == sep {
            parts.push(cur);
            cur = Vec::new();
        } else {
            cur.push(c);
        }
        i += 1;
    }
    assert(v@.take(v@.len() as int) == v@);
    parts.push(cur);
    parts
}

/// `s` without a carriage return at its end.
pub open spec fn strip_cr(s: Seq<char>) -> Seq<char> {
    if s.len() > 0 && s.last() == '\r' {
        s.drop_last()
    } else {
        s
    }
}

/// The lines of `s`. A line ends at `\n` or `\r\n`; the ending is not part of
/// the line. A last line needs no ending, and a text that ends with a line
/// ending has no empty line after it.
pub open spec fn lines(s: Seq<char>) -> Seq<Seq<char>> {
    let fields = split(s, '\n');
    let n = fields.len() as int;
    let kept = if fields.last().len() == 0 {
        n - 1
    } else {
        n
    };
    Seq::new(
        kept as nat,
        |i: int|
            if i < n - 1 {
                strip_cr(fields[i])
            } else {
                fields[i]
            },
    )
}

/// Splits `v` into its lines.
pub fn split_lines(v: &Vec<char>) -> (out: Vec<Vec<char>>)
    ensures
        rows(out@) == lines(v@),
{
    let mut parts = split_at(v, '\n');
    let ghost fields = rows(parts@);
    let n = parts.len();
    let mut i: usize = 0;
    while i + 1 < n
        invariant
            i < n,
            n == parts.len(),
            n == fields.len(),
            rows(parts@) == Seq::new(
                n as nat,
                |k: int|
                    if k < i {
                        strip_cr(fields[k])
                    } else {
                        fields[k]
                    },
            ),
        decreases n - i,
    {
        let ghost before = rows(parts@);
        assert(before[i as int] == parts@[i as int]@);
        let len = parts[i].len();
        if len > 0 && parts[i][len - 1] == '\r' {
            parts[i].pop();
        }
        assert(rows(parts@) == before.update(i as int, strip_cr(fields[i as int])));
        i += 1;
    }
    let ghost stripped = rows(parts@);
    assert(stripped[n - 1] == parts@[n - 1]@);
    if parts[n - 1].len() == 0 {
        parts.pop();
        assert(rows(parts@) == stripped.drop_last());
    }
    parts
}

/// Whether `c` is one of the six characters below U+0080 that have the
/// Unicode property `White_Space`: tab, line feed, vertical tab, form feed,
/// carriage return and space.
pub open spec fn is_ascii_whitespace(c: char) -> bool {
    c == '\t' || c == '\n' || c == '\u{b}' || c == '\u{c}' || c == '\r' || c == ' '
}

/// Whether `c`, a character from U+0080 on, has the Unicode property
/// `White_Space`, as `char::is_whitespace` tells it.
pub uninterp spec fn is_wide_whitespace(c: char) -> bool;

/// Whether `c` is white space: it has the Unicode property `White_Space`.
pub open spec fn is_whitespace(c: char) -> bool {
    if code_of(c) < 0x80 {
        is_ascii_whitespace(c)
    } else {
        is_wide_whitespace(c)
    }
}

/// Tests one character for white space, by `char::is_whitespace`.
///
/// Trusted: below U+0080 exactly tab, line feed, vertical tab, form feed,
/// carriage return and space are white space; from U+0080 on the answer
/// depends on the character alone, and `is_wide_whitespace` is the name for
/// it.
#[verifier::external_body]
pub(crate) fn char_is_whitespace(c: char) -> (b: bool)
    ensures
        b == is_whitespace(c),
        code_of(c) >= 0x80 ==> b == is_wide_whitespace(c),
{
    c.is_whitespace()
}

/// `s` without the white space at its start.
pub open spec fn trim_start(s: Seq<char>) -> Seq<char>
    decreases s.len(),
{
    if s.len() > 0 && is_whitespace(s[0]) {
        trim_start(s.skip(1))
    } else {
        s
    }
}

/// `s` without the white space at its end.
pub open spec fn trim_end(s: Seq<char>) -> Seq<char>
    decreases s.len(),
{
    if s.len() > 0 && is_whitespace(s.last()) {
        trim_end(s.drop_last())
    } else {
        s
    }
}

/// `s` without the white space at either end.
pub open spec fn trim(s: Seq<char>) -> Seq<char> {
    trim_end(trim_start(s))
}

/// Where the first `k` characters are white space and the next one is not,
/// trimming the start removes exactly those `k`.
pub proof fn lemma_trim_start(s: Seq<char>, k: int)
    requires
        0 <= k <= s.len(),
        forall|j: int| 0 <= j < k ==> is_whitespace(s[j]),
        k == s.len() || !is_whitespace(s[k]),
    ensures
        trim_start(s) == s.skip(k),
    decreases k,
{
    if k > 0 {
        let rest = s.skip(1);
        assert forall|j: int| 0 <= j < k - 1 implies is_whitespace(rest[j]) by {}
        lemma_trim_start(rest, k - 1);
    }
}

/// Where everything from position `k` on is white space and the character
/// before is not, trimming the end keeps exactly the first `k`.
pub proof fn lemma_trim_end(s: Seq<char>, k: int)
    requires
        0 <= k <= s.len(),
        forall|j: int| k <= j < s.len() ==> is_whitespace(s[j]),
        k == 0 || !is_whitespace(s[k - 1]),
    ensures
        trim_end(s) == s.take(k),
    decreases s.len() - k,
{
    if k < s.len() {
        lemma_trim_end(s.drop_last(), k);
    }
}

/// A trimmed text neither starts nor ends with white space.
pub proof fn lemma_trim_edges(s: Seq<char>)
    ensures
        trim(s).len() > 0 ==> !is_whitespace(trim(s).first()) && !is_whitespace(trim(s).last()),
        trim(trim(s)) == trim(s),
{
    lemma_trim_start_shape(s);
    let t = trim_start(s);
    lemma_trim_end_shape(t);
    let u = trim_end(t);
    lemma_trim_start(u, 0);
    lemma_trim_end(u, u.len() as int);
}

/// Trimming the start leaves a suffix that does not start with white space.
pub proof fn lemma_trim_start_shape(s: Seq<char>)
    ensures
        trim_start(s).len() <= s.len(),
        trim_start(s) == s.skip(s.len() - trim_start(s).len()),
        trim_start(s).len() > 0 ==> !is_whitespace(trim_start(s).first()),
    decreases s.len(),
{
    if s.len() > 0 && is_whitespace(s[0]) {
        lemma_trim_start_shape(s.skip(1));
    }
}

/// Trimming the end leaves a prefix that does not end with white space.
pub proof fn lemma_trim_end_shape(s: Seq<char>)
    ensures
        trim_end(s).len() <= s.len(),
        trim_end(s) == s.take(trim_end(s).len() as int),
        trim_end(s).len() > 0 ==> !is_whitespace(trim_end(s).last()),
    decreases s.len(),
{
    if s.len() > 0 && is_whitespace(s.last()) {
        lemma_trim_end_shape(s.drop_last());
    }
}

/// The bounds of `v` without the white space at either end.
pub fn trim_bounds(v: &Vec<char>) -> (r: (usize, usize))
    ensures
        r.0 <= r.1 <= v.len(),
        v@.subrange(r.0 as int, r.1 as int) == trim(v@),
{
    let mut from: usize = 0;
    while from < v.len() && char_is_whitespace(v[from])
        invariant
            from <= v.len(),
            forall|j: int| 0 <= j < from ==> is_whitespace(v@[j]),
        decreases v.len() - from,
    {
        from += 1;
    }
    let mut to: usize = v.len();
    while to > from && char_is_whitespace(v[to - 1])
        invariant
            from <= to <= v.len(),
            forall|j: int| to <= j < v.len() ==> is_whitespace(v@[j]),
        decreases to,
    {
        to -= 1;
    }
    proof {
        lemma_trim_start(v@, from as int);
        let t = v@.skip(from as int);
        assert forall|j: int| to - from <= j < t.len() implies is_whitespace(t[j]) by {}
        lemma_trim_end(t, to - from);
    }
    (from, to)
}

/// The lowercase form of a text, as `str::to_lowercase` gives it.
pub uninterp spec fn lowercase(s: Seq<char>) -> Seq<char>;

/// Puts a text in lowercase, by `str::to_lowercase`.
///
/// Trusted: the result depends on the characters of `s` alone; `lowercase` is
/// the name for it.
#[verifier::external_body]
pub(crate) fn to_lowercase(s: &str) -> (r: String)
    ensures
        r@ == lowercase(s@),
{
    s.to_lowercase()
}

/// Whether `needle` stands in `hay` at position `i`.
pub open spec fn occurs_at(hay: Seq<char>, needle: Seq<char>, i: int) -> bool {
    0 <= i && i + needle.len() <= hay.len() && hay.subrange(i, i + needle.len()) == needle
}

/// The first position at or after `i` where `needle` stands in `hay`.
pub open spec fn find_from(hay: Seq<char>, needle: Seq<char>, i: int) -> Option<int>
    decreases hay.len() + 1 - i,
{
    if i < 0 || i + needle.len() > hay.len() {
        None
    } else if occurs_at(hay, needle, i) {
        Some(i)
    } else {
        find_from(hay, needle, i + 1)
    }
}

/// The first position where `needle` stands in `hay`.
pub open spec fn find(hay: Seq<char>, needle: Seq<char>) -> Option<int> {
    find_from(hay, needle, 0)
}

/// `find_from` gives the least occurrence at or after `i`, and `None` only
/// where there is none.
pub proof fn lemma_find_from_least(hay: Seq<char>, needle: Seq<char>, i: int)
    requires
        0 <= i,
    ensures
        match find_from(hay, needle, i) {
            Some(p) => i <= p && occurs_at(hay, needle, p) && forall|j: int|
                i <= j < p ==> !occurs_at(hay, needle, j),
            None => forall|j: int| i <= j ==> !occurs_at(hay, needle, j),
        },
    decreases hay.len() + 1 - i,
{
    if i + needle.len() <= hay.len() && !occurs_at(hay, needle, i) {
        lemma_find_from_least(hay, needle, i + 1);
    }
}

/// Whether `needle` stands in `hay` at position `i`.
pub fn matches_at(hay: &Vec<char>, needle: &Vec<char>, i: usize) -> (r: bool)
    requires
        i + needle.len() <= hay.len(),
    ensures
        r == occurs_at(hay@, needle@, i as int),
{
    let mut k: usize = 0;
    while k < needle.len()
        invariant
            k <= needle.len(),
            i + needle.len() <= hay.len(),
            forall|j: int| 0 <= j < k ==> hay@[i + j] == needle@[j],
        decreases needle.len() - k,
    {
        if hay[i + k] != needle[k] {
            return false;
        }
        k += 1;
    }
    assert(hay@.subrange(i as int, i + needle@.len()) == needle@);
    true
}

/// The first position where `needle` stands in `hay`.
pub fn find_chars(hay: &Vec<char>, needle: &Vec<char>) -> (r: Option<usize>)
    ensures
        match r {
            Some(p) => find(hay@, needle@) == Some(p as int) && p + needle.len() <= hay.len(),
            None => find(hay@, needle@).is_none(),
        },
{
    if needle.len() > hay.len() {
        return None;
    }
    let last = hay.len() - needle.len();
    let mut i: usize = 0;
    loop
        invariant
            i <= last,
            last == hay.len() - needle.len(),
            find(hay@, needle@) == find_from(hay@, needle@, i as int),
        decreases last - i,
    {
        if matches_at(hay, needle, i) {
            return Some(i);
        }
        if i == last {
            return None;
        }
        i += 1;
    }
}

/// The last position of `c` in `s`.
pub open spec fn last_index(s: Seq<char>, c: char) -> Option<int>
    decreases s.len(),
{
    if s.len() == 0 {
        None
    } else if s.last() == c {
        Some(s.len() - 1)
    } else {
        last_index(s.drop_last(), c)
    }
}

/// The last position of `c`, if there is one, holds `c`, lies in the text,
/// and no later position holds `c`.
pub proof fn lemma_last_index(s: Seq<char>, c: char)
    ensures
        match last_index(s, c) {
            Some(i) => 0 <= i < s.len() && s[i] == c && forall|j: int|
                i < j < s.len() ==> s[j] != c,
            None => forall|j: int| 0 <= j < s.len() ==> s[j] != c,
        },
    decreases s.len(),
{
    if s.len() > 0 && s.last() != c {
        lemma_last_index(s.drop_last(), c);
        match last_index(s, c) {
            Some(i) => {
                assert forall|j: int| i < j < s.len() implies s[j] != c by {
                    if j < s.len() - 1 {
                        assert(s.drop_last()[j] == s[j]);
                    }
                }
            },
            None => {
                assert forall|j: int| 0 <= j < s.len() implies s[j] != c by {
                    if j < s.len() - 1 {
                        assert(s.drop_last()[j] == s[j]);
                    }
                }
            },
        }
    }
}

/// The last position of `c` in `v`.
pub fn last_index_of(v: &Vec<char>, c: char) -> (r: Option<usize>)
    ensures
        match r {
            Some(i) => last_index(v@, c) == Some(i as int) && i < v.len(),
            None => last_index(v@, c).is_none(),
        },
{
    let mut i: usize = v.len();
    assert(v@.take(v@.len() as int) == v@);
    while i > 0
        invariant
            i <= v.len(),
            last_index(v@, c) == last_index(v@.take(i as int), c),
        decreases i,
    {
        proof {
            assert(v@.take(i as int).drop_last() == v@.take(i - 1));
        }
        if v[i - 1] == c {
            return Some(i - 1);
        }
        i -= 1;
    }
    None
}

/// The value of a decimal digit, if `c` is one.
pub open spec fn digit_value(c: char) -> Option<int> {
    if c == '0' {
        Some(0)
    } else if c == '1' {
        Some(1)
    } else if c == '2' {
        Some(2)
    } else if c == '3' {
        Some(3)
    } else if c == '4' {
        Some(4)
    } else if c == '5' {
        Some(5)
    } else if c == '6' {
        Some(6)
    } else if c == '7' {
        Some(7)
    } else if c == '8' {
        Some(8)
    } else if c == '9' {
        Some(9)
    } else {
        None
    }
}

/// Whether every character of `s` is a decimal digit.
pub open spec fn all_digits(s: Seq<char>) -> bool {
    forall|i: int| 0 <= i < s.len() ==> digit_value(#[trigger] s[i]).is_some()
}

/// The number that the digits of `s` write in decimal.
pub open spec fn decimal_value(s: Seq<char>) -> nat
    decreases s.len(),
{
    if s.len() == 0 {
        0
    } else {
        let d = match digit_value(s.last()) {
            Some(d) => d,
            None => 0,
        };
        (decimal_value(s.drop_last()) * 10 + d) as nat
    }
}

/// The number that `s` writes, or 0 where it writes none: an optional `+`,
/// then one or more decimal digits and nothing else, with a value that fits
/// in `usize`.
pub open spec fn number_or_zero(s: Seq<char>) -> nat {
    let digits = if s.len() > 0 && s[0] == '+' {
        s.skip(1)
    } else {
        s
    };
    if digits.len() > 0 && all_digits(digits) && decimal_value(digits) <= usize::MAX {
        decimal_value(digits)
    } else {
        0
    }
}

/// A longer run of digits writes no smaller number.
pub proof fn lemma_decimal_value_grows(s: Seq<char>, k: int)
    requires
        0 <= k <= s.len(),
    ensures
        decimal_value(s.take(k)) <= decimal_value(s),
    decreases s.len() - k,
{
    if k == s.len() {
        assert(s.take(k) == s);
    } else {
        lemma_decimal_value_grows(s.drop_last(), k);
        assert(s.drop_last().take(k) == s.take(k));
    }
}

fn digit_value_of(c: char) -> (r: Option<usize>)
    ensures
        match r {
            Some(d) => digit_value(c) == Some(d as int) && d < 10,
            None => digit_value(c).is_none(),
        },
{
    if c == '0' {
        Some(0)
    } else if c == '1' {
        Some(1)
    } else if c == '2' {
        Some(2)
    } else if c == '3' {
        Some(3)
    } else if c == '4' {
        Some(4)
    } else if c == '5' {
        Some(5)
    } else if c == '6' {
        Some(6)
    } else if c == '7' {
        Some(7)
    } else if c == '8' {
        Some(8)
    } else if c == '9' {
        Some(9)
    } else {
        None
    }
}

/// Reads a line number: the number that `v` writes, or 0 where it writes
/// none.
pub fn parse_number(v: &Vec<char>) -> (n: usize)
    ensures
        n == number_or_zero(v@),
{
    let start: usize = if v.len() > 0 && v[0] == '+' {
        1
    } else {
        0
    };
    let ghost digits = v@.skip(start as int);
    if start == v.len() {
        return 0;
    }
    let mut n: usize = 0;
    let mut i: usize = start;
    while i < v.len()
        invariant
            start <= i <= v.len(),
            digits == v@.skip(start as int),
            digits == if v@.len() > 0 && v@[0] == '+' {
                v@.skip(1)
            } else {
                v@
            },
            all_digits(digits.take(i - start)),
            n == decimal_value(digits.take(i - start)),
        decreases v.len() - i,
    {
        let ghost head = digits.take(i - start);
        let ghost next = digits.take(i - start + 1);
        proof {
            assert(next.drop_last() == head);
            lemma_decimal_value_grows(digits, i - start + 1);
        }
        match digit_value_of(v[i]) {
            None => {
                return 0;
            },
            Some(d) => {
                if n > (usize::MAX - d) / 10 {
                    return 0;
                }
                n = n * 10 + d;
                assert(all_digits(next)) by {
                    assert forall|j: int| 0 <= j < next.len() implies digit_value(
                        #[trigger] next[j],
                    ).is_some() by {}
                }
            },
        }
        i += 1;
    }
    assert(digits.take(digits.len() as int) == digits);
    n
}

/// `s` without the copies of `p` that stand at its start, one after another.
pub open spec fn strip_repeated(s: Seq<char>, p: Seq<char>) -> Seq<char>
    decreases s.len(),
{
    if p.len() > 0 && p.is_prefix_of(s) {
        strip_repeated(s.skip(p.len() as int), p)
    } else {
        s
    }
}

/// Removes from the start of `v` every copy of `p` that stands there.
pub fn strip_prefixes(v: &Vec<char>, p: &Vec<char>) -> (r: Vec<char>)
    ensures
        r@ == strip_repeated(v@, p@),
{
    let mut start: usize = 0;
    assert(v@.skip(0) == v@);
    if p.len() > 0 {
        while p.len() <= v.len() - start && matches_at(v, p, start)
            invariant
                start <= v.len(),
                p.len() > 0,
                strip_repeated(v@, p@) == strip_repeated(v@.skip(start as int), p@),
            decreases v.len() - start,
        {
            proof {
                let rest = v@.skip(start as int);
                assert(rest.skip(p@.len() as int) == v@.skip(start + p@.len()));
            }
            start += p.len();
        }
        proof {
            let rest = v@.skip(start as int);
            if p.len() <= v.len() - start {
                assert(rest.subrange(0, p@.len() as int) == v@.subrange(
                    start as int,
                    start + p@.len(),
                ));
            }
        }
    }
    copy_range(v, start, v.len())
}

/// Joins `lines` with `sep` between neighbours.
pub fn join_lines(lines: &Vec<String>, sep: &str) -> (r: String)
    ensures
        r@ == join(texts(lines@), sep@),
{
    let mut r = String::new();
    let mut i: usize = 0;
    while i < lines.len()
        invariant
            i <= lines.len(),
            r@ == join(texts(lines@).take(i as int), sep@),
        decreases lines.len() - i,
    {
        let ghost next = texts(lines@).take(i + 1);
        proof {
            assert(next.drop_last() == texts(lines@).take(i as int));
        }
        if i > 0 {
            r.append(sep);
        }
        r.append(lines[i].as_str());
        i += 1;
    }
    assert(texts(lines@).take(lines@.len() as int) == texts(lines@));
    r
}

} // verus!
