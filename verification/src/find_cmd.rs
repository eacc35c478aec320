//! The summary of a file search: the files found, grouped by directory, and
//! a count of the most frequent extensions.

use crate::group::{
    group_views, grouped, item_count, lemma_grouped, lemma_item_count_add, put, Group,
};
use crate::text::{
    append_chars, append_decimal, append_range, chars_of, copy_range, decimal, join, join_lines,
    last_index, last_index_of, lines, push_line, rows, split_lines, texts,
};
use vstd::prelude::*;
use vstd::string::*;

verus! {

/// A directory as a mathematical value: its path, and the names of the files
/// found in it.
pub type DirGroup = (Seq<char>, Seq<Seq<char>>);

/// An extension with the number of files that have it.
pub type Count = (Seq<char>, nat);

/// The directory of a path: what stands before its last slash; `.` where it
/// has no slash.
pub open spec fn dir_of(path: Seq<char>) -> Seq<char> {
    match last_index(path, '/') {
        Some(i) => path.take(i),
        None => "."@,
    }
}

/// The file name of a path: what stands after its last slash.
pub open spec fn name_of(path: Seq<char>) -> Seq<char> {
    match last_index(path, '/') {
        Some(i) => path.skip(i + 1),
        None => path,
    }
}

/// The extension of a path: what stands after the last dot of its file name;
/// `(no ext)` where the file name has no dot.
pub open spec fn extension_of(path: Seq<char>) -> Seq<char> {
    let name = name_of(path);
    match last_index(name, '.') {
        Some(i) => name.skip(i + 1),
        None => "(no ext)"@,
    }
}

/// Each path as an entry: its file name under its directory.
pub open spec fn dir_entries(paths: Seq<Seq<char>>) -> Seq<(Seq<char>, Seq<char>)> {
    paths.map_values(|p: Seq<char>| (dir_of(p), name_of(p)))
}

/// Each path as an entry under its extension.
pub open spec fn extension_entries(paths: Seq<Seq<char>>) -> Seq<(Seq<char>, ())> {
    paths.map_values(|p: Seq<char>| (extension_of(p), ()))
}

/// The files by directory: the directories in lexicographic order, each with
/// its files in the order in which they were found.
pub open spec fn by_dir(paths: Seq<Seq<char>>) -> Seq<DirGroup> {
    grouped(dir_entries(paths), paths.len() as int)
}

/// How a directory is shown: in full where it has at most 50 characters,
/// else `...` and its last 47 characters.
pub open spec fn dir_display(dir: Seq<char>) -> Seq<char> {
    if dir.len() > 50 {
        "..."@ + dir.skip(dir.len() - 47)
    } else {
        dir
    }
}

/// The lines for one directory. With up to three files: a header with their
/// number, and each file. With more: a header, the first two files, and a
/// line that counts the rest.
pub open spec fn dir_block(group: DirGroup) -> Seq<Seq<char>> {
    let files = group.1;
    if files.len() <= 3 {
        seq![dir_display(group.0) + "/ ("@ + decimal(files.len()) + ")"@] + Seq::new(
            files.len(),
            |i: int| "  └─ "@ + files[i],
        )
    } else {
        seq![
            dir_display(group.0) + "/ ("@ + decimal(files.len()) + " files)"@,
            "  ├─ "@ + files[0],
            "  ├─ "@ + files[1],
            "  └─ ... +"@ + decimal((files.len() - 2) as nat) + " more"@,
        ]
    }
}

/// What directory `k` adds to the listing. A directory is shown while fewer
/// than `max` files have been listed for the directories before it. The
/// first directory that is not shown gives one line that counts the files
/// left out; the directories after it give nothing.
pub open spec fn listed_for(
    groups: Seq<DirGroup>,
    k: int,
    max: nat,
    total: nat,
) -> Seq<Seq<char>> {
    let before = item_count(groups.take(k));
    if before < max {
        dir_block(groups[k])
    } else if k == 0 || item_count(groups.take(k - 1)) < max {
        seq!["... +"@ + decimal((total - before) as nat) + " more results"@]
    } else {
        seq![]
    }
}

/// The listing for the first `n` directories.
pub open spec fn listing(
    groups: Seq<DirGroup>,
    n: int,
    max: nat,
    total: nat,
) -> Seq<Seq<char>>
    decreases n,
{
    if n <= 0 {
        seq![]
    } else {
        listing(groups, n - 1, max, total) + listed_for(groups, n - 1, max, total)
    }
}

/// The extensions with the number of files of each, in lexicographic order.
pub open spec fn tally(paths: Seq<Seq<char>>) -> Seq<Count> {
    grouped(extension_entries(paths), paths.len() as int).map_values(
        |g: (Seq<char>, Seq<()>)| (g.0, g.1.len()),
    )
}

/// The index of the first entry at or after `from` with a number below
/// `count`; the number of entries where there is none.
pub open spec fn rank_slot(ranked: Seq<Count>, count: nat, from: int) -> int
    decreases ranked.len() - from,
{
    if from < 0 || from >= ranked.len() || ranked[from].1 < count {
        from
    } else {
        rank_slot(ranked, count, from + 1)
    }
}

/// The first `n` entries of `counts` by falling number; entries with the
/// same number keep their order.
pub open spec fn ranked(counts: Seq<Count>, n: int) -> Seq<Count>
    decreases n,
{
    if n <= 0 {
        seq![]
    } else {
        let before = ranked(counts, n - 1);
        before.insert(rank_slot(before, counts[n - 1].1, 0), counts[n - 1])
    }
}

/// How one extension is shown with its number of files.
pub open spec fn extension_item(entry: Count) -> Seq<char> {
    "."@ + entry.0 + " ("@ + decimal(entry.1) + ")"@
}

/// The lines about extensions: where the files have more than one, an empty
/// line and a line with the five most frequent ones.
pub open spec fn extension_lines(paths: Seq<Seq<char>>) -> Seq<Seq<char>> {
    let counts = tally(paths);
    if counts.len() > 1 {
        let top = ranked(counts, counts.len() as int);
        let shown = if top.len() > 5 {
            5
        } else {
            top.len()
        };
        seq![
            Seq::empty(),
            "📊 Extensions: "@ + join(Seq::new(shown, |i: int| extension_item(top[i])), ", "@),
        ]
    } else {
        seq![]
    }
}

/// The summary of a file search. Without files it is one line that says so.
/// Otherwise: a header with the numbers of files and directories, an empty
/// line, the listing by directory, and the lines about extensions.
pub open spec fn report(pattern: Seq<char>, paths: Seq<Seq<char>>, max: nat) -> Seq<Seq<char>> {
    if paths.len() == 0 {
        seq!["No files found matching '"@ + pattern + "'"@]
    } else {
        let groups = by_dir(paths);
        seq![
            "📁 Found "@ + decimal(paths.len()) + " files in "@ + decimal(groups.len())
                + " directories:"@,
            Seq::empty(),
        ] + listing(groups, groups.len() as int, max, paths.len()) + extension_lines(paths)
    }
}

/// The first directories hold no more files than all of them.
pub proof fn lemma_item_count_take<V>(groups: Seq<(Seq<char>, Seq<V>)>, a: int, b: int)
    requires
        0 <= a <= b <= groups.len(),
    ensures
        item_count(groups.take(a)) <= item_count(groups.take(b)),
        b < groups.len() ==> item_count(groups.take(b + 1)) == item_count(groups.take(b))
            + groups[b].1.len(),
{
    assert(groups.take(b) == groups.take(a) + groups.subrange(a, b));
    lemma_item_count_add(groups.take(a), groups.subrange(a, b));
    if b < groups.len() {
        assert(groups.take(b + 1).drop_last() == groups.take(b));
    }
}

/// Once a directory was left out, the later ones add nothing to the listing.
pub proof fn lemma_listing_capped(
    groups: Seq<DirGroup>,
    k: int,
    n: int,
    max: nat,
    total: nat,
)
    requires
        0 <= k < n <= groups.len(),
        item_count(groups.take(k)) >= max,
    ensures
        listing(groups, n, max, total) == listing(groups, k + 1, max, total),
    decreases n,
{
    if n > k + 1 {
        lemma_listing_capped(groups, k, n - 1, max, total);
        lemma_item_count_take(groups, k, n - 1);
        lemma_item_count_take(groups, k, n - 2);
        assert(listed_for(groups, n - 1, max, total) == Seq::<Seq<char>>::empty());
        assert(listing(groups, n - 1, max, total) + Seq::<Seq<char>>::empty() == listing(
            groups,
            n - 1,
            max,
            total,
        ));
    }
}

/// The file search by directory: the directories stand in strictly rising
/// lexicographic order, together they hold as many files as were found, and
/// each holds the names of the files found in it, in their order.
pub proof fn lemma_by_dir(paths: Seq<Seq<char>>)
    ensures
        crate::group::sorted(by_dir(paths)),
        item_count(by_dir(paths)) == paths.len(),
        forall|dir: Seq<char>| #[trigger]
            crate::group::items_of(by_dir(paths), dir) == crate::group::items_with(
                dir_entries(paths),
                dir,
                paths.len() as int,
            ),
{
    lemma_grouped(dir_entries(paths), paths.len() as int);
}

/// Splits a path into its directory and its file name.
pub fn split_dir(path: &Vec<char>) -> (r: (Vec<char>, Vec<char>))
    ensures
        r.0@ == dir_of(path@),
        r.1@ == name_of(path@),
{
    match last_index_of(path, '/') {
        Some(i) => {
            let dir = copy_range(path, 0, i);
            let name = copy_range(path, i + 1, path.len());
            (dir, name)
        },
        None => {
            let name = copy_range(path, 0, path.len());
            assert(name@ == path@);
            (chars_of("."), name)
        },
    }
}

/// The extension of a path.
pub fn extension(path: &Vec<char>) -> (r: Vec<char>)
    ensures
        r@ == extension_of(path@),
{
    let start = match last_index_of(path, '/') {
        Some(i) => i + 1,
        None => 0,
    };
    let name = copy_range(path, start, path.len());
    assert(name@ == name_of(path@));
    match last_index_of(&name, '.') {
        Some(i) => copy_range(&name, i + 1, name.len()),
        None => chars_of("(no ext)"),
    }
}

/// Groups the paths by directory.
pub fn group_by_dir(paths: &Vec<Vec<char>>) -> (groups: Vec<Group<Vec<char>>>)
    ensures
        group_views(groups@) == by_dir(rows(paths@)),
        crate::group::sorted(group_views(groups@)),
        item_count(group_views(groups@)) == paths.len(),
{
    let ghost entries = dir_entries(rows(paths@));
    let mut groups: Vec<Group<Vec<char>>> = Vec::new();
    let mut i: usize = 0;
    while i < paths.len()
        invariant
            i <= paths.len(),
            entries == dir_entries(rows(paths@)),
            group_views(groups@) == grouped(entries, i as int),
        decreases paths.len() - i,
    {
        let (dir, name) = split_dir(&paths[i]);
        assert(entries[i as int] == (dir@, name@));
        put(&mut groups, dir, name);
        i += 1;
    }
    proof {
        lemma_by_dir(rows(paths@));
    }
    groups
}

/// Counts the paths by extension.
pub fn group_by_extension(paths: &Vec<Vec<char>>) -> (groups: Vec<Group<()>>)
    ensures
        group_views(groups@) == grouped(extension_entries(rows(paths@)), paths.len() as int),
{
    let ghost entries = extension_entries(rows(paths@));
    let mut groups: Vec<Group<()>> = Vec::new();
    let mut i: usize = 0;
    while i < paths.len()
        invariant
            i <= paths.len(),
            entries == extension_entries(rows(paths@)),
            group_views(groups@) == grouped(entries, i as int),
        decreases paths.len() - i,
    {
        let key = extension(&paths[i]);
        put(&mut groups, key, ());
        i += 1;
    }
    groups
}

fn push_dir_block(out: &mut Vec<String>, group: &Group<Vec<char>>)
    ensures
        texts(final(out)@) == texts(old(out)@) + dir_block(group@),
{
    let ghost files = group@.1;
    let n = group.items.len();
    let mut head = String::new();
    let dir_len = group.key.len();
    if dir_len > 50 {
        head.append("...");
        append_range(&mut head, &group.key, dir_len - 47, dir_len);
    } else {
        append_chars(&mut head, &group.key);
    }
    head.append("/ (");
    append_decimal(&mut head, n);
    if n <= 3 {
        head.append(")");
        push_line(out, head);
        let ghost top = texts(out@);
        let mut i: usize = 0;
        while i < n
            invariant
                i <= n,
                n == group.items.len(),
                files == group@.1,
                texts(out@) == top + Seq::new(i as nat, |k: int| "  └─ "@ + files[k]),
            decreases n - i,
        {
            let mut line = String::new();
            line.append("  └─ ");
            append_chars(&mut line, &group.items[i]);
            push_line(out, line);
            i += 1;
        }
    } else {
        head.append(" files)");
        push_line(out, head);
        let mut first = String::new();
        first.append("  ├─ ");
        append_chars(&mut first, &group.items[0]);
        push_line(out, first);
        let mut second = String::new();
        second.append("  ├─ ");
        append_chars(&mut second, &group.items[1]);
        push_line(out, second);
        let mut more = String::new();
        more.append("  └─ ... +");
        append_decimal(&mut more, n - 2);
        more.append(" more");
        push_line(out, more);
        assert(texts(out@) == texts(old(out)@) + dir_block(group@));
    }
}

fn push_listing(out: &mut Vec<String>, groups: &Vec<Group<Vec<char>>>, max: usize, total: usize)
    requires
        item_count(group_views(groups@)) == total,
    ensures
        texts(final(out)@) == texts(old(out)@) + listing(
            group_views(groups@),
            groups.len() as int,
            max as nat,
            total as nat,
        ),
{
    let ghost views = group_views(groups@);
    let ghost top = texts(out@);
    let n = groups.len();
    let mut shown: usize = 0;
    let mut k: usize = 0;
    while k < n
        invariant
            k <= n,
            n == groups.len(),
            views == group_views(groups@),
            top == texts(old(out)@),
            item_count(views) == total,
            shown == item_count(views.take(k as int)),
            k > 0 ==> item_count(views.take(k - 1)) < max,
            texts(out@) == top + listing(views, k as int, max as nat, total as nat),
        decreases n - k,
    {
        proof {
            lemma_item_count_take(views, k as int, k as int);
            lemma_item_count_take(views, k + 1, n as int);
            assert(views.take(n as int) == views);
        }
        if shown >= max {
            let mut more = String::new();
            more.append("... +");
            append_decimal(&mut more, total - shown);
            more.append(" more results");
            push_line(out, more);
            proof {
                lemma_listing_capped(views, k as int, n as int, max as nat, total as nat);
            }
            return ;
        }
        push_dir_block(out, &groups[k]);
        shown += groups[k].items.len();
        k += 1;
    }
}

/// The views of the groups picked by `order`, as extensions with numbers.
pub open spec fn picked(order: Seq<usize>, counts: Seq<Count>) -> Seq<Count> {
    order.map_values(|i: usize| counts[i as int])
}

/// The order of the groups by falling number of items, groups with the same
/// number in their own order.
fn rank_groups(groups: &Vec<Group<()>>) -> (order: Vec<usize>)
    ensures
        order.len() == groups.len(),
        forall|j: int| 0 <= j < order.len() ==> order@[j] < groups.len(),
        picked(order@, counts_of(groups@)) == ranked(counts_of(groups@), groups.len() as int),
{
    let ghost counts = counts_of(groups@);
    let mut order: Vec<usize> = Vec::new();
    let mut i: usize = 0;
    while i < groups.len()
        invariant
            i <= groups.len(),
            counts == counts_of(groups@),
            order.len() == i,
            forall|j: int| 0 <= j < order.len() ==> order@[j] < groups.len(),
            picked(order@, counts) == ranked(counts, i as int),
        decreases groups.len() - i,
    {
        let count = groups[i].items.len();
        let ghost before = picked(order@, counts);
        let mut at: usize = 0;
        while at < order.len() && groups[order[at]].items.len() >= count
            invariant
                at <= order.len(),
                counts == counts_of(groups@),
                before == picked(order@, counts),
                forall|j: int| 0 <= j < order.len() ==> order@[j] < groups.len(),
                rank_slot(before, count as nat, 0) == rank_slot(before, count as nat, at as int),
            decreases order.len() - at,
        {
            at += 1;
        }
        order.insert(at, i);
        i += 1;
    }
    order
}

/// The groups as extensions with numbers of files.
pub open spec fn counts_of(groups: Seq<Group<()>>) -> Seq<Count> {
    group_views(groups).map_values(|g: (Seq<char>, Seq<()>)| (g.0, g.1.len()))
}

fn push_extension_lines(out: &mut Vec<String>, groups: &Vec<Group<()>>)
    ensures
        ({
            let counts = counts_of(groups@);
            let top = ranked(counts, counts.len() as int);
            let shown = if top.len() > 5 {
                5
            } else {
                top.len()
            };
            texts(final(out)@) == texts(old(out)@) + if counts.len() > 1 {
                seq![
                    Seq::empty(),
                    "📊 Extensions: "@ + join(
                        Seq::new(shown, |i: int| extension_item(top[i])),
                        ", "@,
                    ),
                ]
            } else {
                seq![]
            }
        }),
{
    let ghost counts = counts_of(groups@);
    let ghost top = ranked(counts, counts.len() as int);
    if groups.len() <= 1 {
        return ;
    }
    let order = rank_groups(groups);
    let shown: usize = if order.len() > 5 {
        5
    } else {
        order.len()
    };
    let mut items: Vec<String> = Vec::new();
    let mut i: usize = 0;
    while i < shown
        invariant
            i <= shown <= order.len(),
            order.len() == groups.len(),
            counts == counts_of(groups@),
            top == ranked(counts, counts.len() as int),
            top == picked(order@, counts),
            forall|j: int| 0 <= j < order.len() ==> order@[j] < groups.len(),
            texts(items@) == Seq::new(i as nat, |k: int| extension_item(top[k])),
        decreases shown - i,
    {
        let group = &groups[order[i]];
        let mut item = String::new();
        item.append(".");
        append_chars(&mut item, &group.key);
        item.append(" (");
        append_decimal(&mut item, group.items.len());
        item.append(")");
        push_line(&mut items, item);
        i += 1;
    }
    let joined = join_lines(&items, ", ");
    let mut line = String::new();
    line.append("📊 Extensions: ");
    line.append(joined.as_str());
    push_line(out, String::new());
    push_line(out, line);
}

/// Renders the summary of a file search. `stdout` is what the search tool
/// printed, one path on each line; `max_results` caps the number of files
/// listed.
pub fn run(pattern: &str, stdout: &str, max_results: usize) -> (out: Vec<String>)
    ensures
        texts(out@) == report(pattern@, lines(stdout@), max_results as nat),
{
    let chars = chars_of(stdout);
    let paths = split_lines(&chars);
    let mut out: Vec<String> = Vec::new();
    if paths.len() == 0 {
        let mut line = String::new();
        line.append("No files found matching '");
        line.append(pattern);
        line.append("'");
        push_line(&mut out, line);
        return out;
    }
    let groups = group_by_dir(&paths);
    let mut head = String::new();
    head.append("📁 Found ");
    append_decimal(&mut head, paths.len());
    head.append(" files in ");
    append_decimal(&mut head, groups.len());
    head.append(" directories:");
    push_line(&mut out, head);
    push_line(&mut out, String::new());
    push_listing(&mut out, &groups, max_results, paths.len());
    let extensions = group_by_extension(&paths);
    push_extension_lines(&mut out, &extensions);
    out
}

/// Where the slot for a number lies: every entry before it has at least that
/// number, and the entry at it, if any, has less.
pub proof fn lemma_rank_slot(ranked: Seq<Count>, count: nat, from: int)
    requires
        0 <= from <= ranked.len(),
    ensures
        from <= rank_slot(ranked, count, from) <= ranked.len(),
        forall|i: int| from <= i < rank_slot(ranked, count, from) ==> ranked[i].1 >= count,
        rank_slot(ranked, count, from) < ranked.len() ==> ranked[rank_slot(
            ranked,
            count,
            from,
        )].1 < count,
    decreases ranked.len() - from,
{
    if from < ranked.len() && ranked[from].1 >= count {
        lemma_rank_slot(ranked, count, from + 1);
    }
}

/// The ranking holds every extension once, and the numbers never rise along
/// it.
pub proof fn lemma_ranked(counts: Seq<Count>, n: int)
    requires
        0 <= n <= counts.len(),
    ensures
        ranked(counts, n).len() == n,
        ranked(counts, n).to_multiset() == counts.take(n).to_multiset(),
        forall|i: int, j: int|
            0 <= i < j < n ==> ranked(counts, n)[i].1 >= ranked(counts, n)[j].1,
    decreases n,
{
    if n > 0 {
        lemma_ranked(counts, n - 1);
        let before = ranked(counts, n - 1);
        let x = counts[n - 1];
        let at = rank_slot(before, x.1, 0);
        lemma_rank_slot(before, x.1, 0);
        let after = before.insert(at, x);
        vstd::seq_lib::to_multiset_insert(before, at, x);
        assert(counts.take(n) == counts.take(n - 1).push(x));
        vstd::seq_lib::to_multiset_build(counts.take(n - 1), x);
        assert forall|i: int, j: int| 0 <= i < j < n implies after[i].1 >= after[j].1 by {}
    } else {
        assert(counts.take(0) == Seq::<(Seq<char>, nat)>::empty());
    }
}

} // verus!
