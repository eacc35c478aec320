use condense::diff_cmd::{
    append_truncated, compute_diff, condense_unified_diff, overlap_of, owned_lines, render, run,
    similarity, truncate, DiffChange, DiffResult, Ratio,
};

fn repeated(c: char, n: usize) -> String {
    std::iter::repeat(c).take(n).collect()
}

#[test]
fn replaced_line_is_removed_then_added() {
    let diff = compute_diff(&["a", "b", "c"], &["a", "x", "c"]);
    assert_eq!(diff.added, 1);
    assert_eq!(diff.removed, 1);
    assert_eq!(diff.modified, 0);
    assert_eq!(
        diff.changes,
        vec![
            DiffChange::Removed(2, "b".to_string()),
            DiffChange::Added(2, "x".to_string()),
        ]
    );
}

#[test]
fn replaced_line_report() {
    let out = run("A.txt", "B.txt", "a\nb\nc\n", "a\nx\nc\n");
    assert_eq!(
        out,
        vec![
            "📊 A.txt → B.txt",
            "   +1 added, -1 removed, ~0 modified",
            "",
            "-   2 b",
            "+   2 x",
        ]
    );
}

#[test]
fn identical_texts_have_no_changes() {
    let lines = ["one", "two", "three"];
    let diff = compute_diff(&lines, &lines);
    assert_eq!(diff.added, 0);
    assert_eq!(diff.removed, 0);
    assert_eq!(diff.modified, 0);
    assert!(diff.changes.is_empty());
    assert_eq!(
        run("a", "b", "one\ntwo\n", "one\ntwo\n"),
        vec!["✅ Files are identical"]
    );
}

#[test]
fn empty_texts_are_identical() {
    let diff = compute_diff(&[], &[]);
    assert!(diff.changes.is_empty());
    assert_eq!(run("a", "b", "", ""), vec!["✅ Files are identical"]);
}

#[test]
fn similar_line_is_modified() {
    let diff = compute_diff(&["same", "hello world"], &["same", "hello worle"]);
    assert_eq!(diff.added, 0);
    assert_eq!(diff.removed, 0);
    assert_eq!(diff.modified, 1);
    assert_eq!(
        diff.changes,
        vec![DiffChange::Modified(
            2,
            "hello world".to_string(),
            "hello worle".to_string()
        )]
    );
}

#[test]
fn only_modified_lines_are_still_reported() {
    let out = run("old", "new", "hello world\n", "hello worle\n");
    assert_eq!(
        out,
        vec![
            "📊 old → new",
            "   +0 added, -0 removed, ~1 modified",
            "",
            "~   1 hello world → hello worle",
        ]
    );
}

#[test]
fn longer_first_text_gives_removed_lines() {
    let diff = compute_diff(&["a", "b", "c"], &["a"]);
    assert_eq!(
        diff.changes,
        vec![
            DiffChange::Removed(2, "b".to_string()),
            DiffChange::Removed(3, "c".to_string()),
        ]
    );
    assert_eq!((diff.added, diff.removed, diff.modified), (0, 2, 0));
}

#[test]
fn longer_second_text_gives_added_lines() {
    let diff = compute_diff(&["a"], &["a", "b", "c"]);
    assert_eq!(
        diff.changes,
        vec![
            DiffChange::Added(2, "b".to_string()),
            DiffChange::Added(3, "c".to_string()),
        ]
    );
    assert_eq!((diff.added, diff.removed, diff.modified), (2, 0, 0));
}

#[test]
fn inserted_line_shifts_everything_below() {
    let diff = compute_diff(&["alpha", "beta", "gamma"], &["new", "alpha", "beta", "gamma"]);
    assert_eq!(diff.changes.len(), diff.added + diff.removed + diff.modified);
    assert!(diff.changes.len() >= 4);
    assert_eq!(
        diff.changes.last().unwrap(),
        &DiffChange::Added(4, "gamma".to_string())
    );
}

#[test]
fn counts_add_up_to_the_number_of_entries() {
    let diff = compute_diff(
        &["same", "hello world", "b", "only left"],
        &["same", "hello worle", "x"],
    );
    let added = diff
        .changes
        .iter()
        .filter(|c| matches!(c, DiffChange::Added(..)))
        .count();
    let removed = diff
        .changes
        .iter()
        .filter(|c| matches!(c, DiffChange::Removed(..)))
        .count();
    let modified = diff
        .changes
        .iter()
        .filter(|c| matches!(c, DiffChange::Modified(..)))
        .count();
    assert_eq!((diff.added, diff.removed, diff.modified), (added, removed, modified));
    assert_eq!((added, removed, modified), (1, 2, 1));
    assert_eq!(diff.changes.len(), 4);
}

#[test]
fn similarity_counts_distinct_characters() {
    assert_eq!(similarity("b", "x"), Ratio { shared: 0, total: 2 });
    assert_eq!(similarity("abc", "abd"), Ratio { shared: 2, total: 4 });
    assert_eq!(similarity("aabbcc", "abc"), Ratio { shared: 3, total: 3 });
    assert_eq!(similarity("", ""), Ratio { shared: 0, total: 0 });
    assert_eq!(similarity("", "ab"), Ratio { shared: 0, total: 2 });
}

#[test]
fn ratio_above_half() {
    assert!(!Ratio { shared: 0, total: 2 }.above_half());
    assert!(!Ratio { shared: 2, total: 4 }.above_half());
    assert!(Ratio { shared: 3, total: 5 }.above_half());
    assert!(Ratio { shared: 3, total: 3 }.above_half());
    assert!(Ratio { shared: 0, total: 0 }.above_half());
}

#[test]
fn exactly_half_is_a_replacement() {
    let diff = compute_diff(&["abc"], &["abd"]);
    assert_eq!(
        diff.changes,
        vec![
            DiffChange::Removed(1, "abc".to_string()),
            DiffChange::Added(1, "abd".to_string()),
        ]
    );
}

#[test]
fn truncate_keeps_short_text() {
    assert_eq!(truncate("hello", 10), "hello");
    assert_eq!(truncate("hello", 5), "hello");
    assert_eq!(truncate("", 0), "");
}

#[test]
fn truncate_cuts_long_text() {
    assert_eq!(truncate("hello world", 8), "hello...");
    assert_eq!(truncate("hello world", 10), "hello w...");
    assert_eq!(truncate("hello", 3), "...");
}

#[test]
fn truncate_counts_characters() {
    assert_eq!(truncate("äöüäöüäöü", 6), "äöü...");
    assert_eq!(truncate("äöü", 3), "äöü");
}

#[test]
fn long_lines_are_cut_in_the_report() {
    let long = repeated('x', 100);
    let out = run("a", "b", &long, "");
    assert_eq!(out[3], format!("-   1 {}...", repeated('x', 77)));
    let left = format!("{}{}", repeated('a', 30), repeated('b', 30));
    let right = format!("{}{}", repeated('b', 30), repeated('a', 30));
    let out = run("a", "b", &left, &right);
    assert_eq!(
        out[3],
        format!(
            "~   1 {}bb... → {}aa...",
            repeated('a', 30),
            repeated('b', 30)
        )
    );
}

#[test]
fn line_numbers_are_right_aligned() {
    let mut left = String::new();
    for _ in 0..12345 {
        left.push_str("same\n");
    }
    let right = format!("{}extra\n", left);
    let out = run("a", "b", &left, &right);
    assert_eq!(out[3], "+12346 extra");
    let out = run("a", "b", "k\n", "k\nv\n");
    assert_eq!(out[3], "+   2 v");
}

#[test]
fn report_shows_fifty_entries() {
    let mut left = String::new();
    for _ in 0..60 {
        left.push_str("x\n");
    }
    let out = run("left", "right", &left, "");
    assert_eq!(out.len(), 3 + 50 + 1);
    assert_eq!(out[0], "📊 left → right");
    assert_eq!(out[1], "   +0 added, -60 removed, ~0 modified");
    assert_eq!(out[2], "");
    assert_eq!(out[3], "-   1 x");
    assert_eq!(out[52], "-  50 x");
    assert_eq!(out[53], "... +10 more changes");
    let mut fifty = String::new();
    for _ in 0..50 {
        fifty.push_str("x\n");
    }
    assert_eq!(run("left", "right", &fifty, "").len(), 3 + 50);
}

#[test]
fn render_follows_the_result() {
    let result = DiffResult {
        added: 1,
        removed: 0,
        modified: 0,
        changes: vec![DiffChange::Added(7, "seven".to_string())],
    };
    assert_eq!(
        render("x", "y", &result),
        vec!["📊 x → y", "   +1 added, -0 removed, ~0 modified", "", "+   7 seven"]
    );
}

#[test]
fn lines_end_at_line_feeds() {
    assert_eq!(owned_lines(""), Vec::<String>::new());
    assert_eq!(owned_lines("a"), vec!["a"]);
    assert_eq!(owned_lines("a\n"), vec!["a"]);
    assert_eq!(owned_lines("a\n\nb"), vec!["a", "", "b"]);
    assert_eq!(owned_lines("a\r\nb\r\n"), vec!["a", "b"]);
    assert_eq!(owned_lines("\n"), vec![""]);
    assert_eq!(owned_lines("foo\nbar\n\r\nbaz\r"), vec!["foo", "bar", "", "baz\r"]);
    assert_eq!(owned_lines("a\rb\n"), vec!["a\rb"]);
}

#[test]
fn lines_agree_with_std() {
    for text in ["", "\n", "\r\n", "a\r", "a\r\n\r\nb", "x\n\ny\n\n", "\r\r\n", "é\nü"] {
        let expected: Vec<String> = text.lines().map(|l| l.to_string()).collect();
        assert_eq!(owned_lines(text), expected, "{:?}", text);
    }
}

#[test]
fn condense_one_file() {
    let diff = "diff --git a/src/main.rs b/src/main.rs\n\
--- a/src/main.rs\n\
+++ b/src/main.rs\n\
@@ -1,3 +1,3 @@\n \
fn main() {\n\
-    println!(\"old\");\n\
+    println!(\"new\");\n \
}\n";
    assert_eq!(
        condense_unified_diff(diff),
        "📄 src/main.rs (+1 -1)\n  -    println!(\"old\");\n  +    println!(\"new\");"
    );
}

#[test]
fn condense_two_files() {
    let diff = "+++ b/one.txt\n+a\n+b\n+++ b/two.txt\n-c\n";
    assert_eq!(
        condense_unified_diff(diff),
        "📄 one.txt (+2 -0)\n  +a\n  +b\n📄 two.txt (+0 -1)\n  -c"
    );
}

#[test]
fn condense_skips_files_without_changes() {
    let diff = "+++ b/quiet.txt\n context\n+++ b/loud.txt\n+x\n";
    assert_eq!(condense_unified_diff(diff), "📄 loud.txt (+1 -0)\n  +x");
}

#[test]
fn condense_without_header_is_empty() {
    assert_eq!(condense_unified_diff(""), "");
    assert_eq!(condense_unified_diff("+added\n-removed\n"), "");
    assert_eq!(condense_unified_diff("no diff at all"), "");
}

#[test]
fn condense_shows_ten_samples() {
    let mut diff = String::from("+++ b/big.txt\n");
    for i in 0..20 {
        diff.push_str(&format!("+line {}\n", i));
    }
    let out = condense_unified_diff(&diff);
    let lines: Vec<&str> = out.lines().collect();
    assert_eq!(lines.len(), 12);
    assert_eq!(lines[0], "📄 big.txt (+20 -0)");
    assert_eq!(lines[1], "  +line 0");
    assert_eq!(lines[10], "  +line 9");
    assert_eq!(lines[11], "  ... +5 more");
}

#[test]
fn condense_with_eleven_samples() {
    let mut diff = String::from("+++ b/f\n");
    for i in 0..11 {
        diff.push_str(&format!("-l{}\n", i));
    }
    let out = condense_unified_diff(&diff);
    let lines: Vec<&str> = out.lines().collect();
    assert_eq!(lines[0], "📄 f (+0 -11)");
    assert_eq!(lines[11], "  ... +1 more");
}

#[test]
fn condense_cuts_samples_to_seventy() {
    let diff = format!("+++ b/w.txt\n+{}\n", repeated('y', 100));
    assert_eq!(
        condense_unified_diff(&diff),
        format!("📄 w.txt (+1 -0)\n  +{}...", repeated('y', 66))
    );
}

#[test]
fn condense_header_marks() {
    assert_eq!(
        condense_unified_diff("+++ b/b/x\n+1\n"),
        "📄 x (+1 -0)\n  +1"
    );
    assert_eq!(
        condense_unified_diff("+++ +++ a/x\n+1\n"),
        "📄 a/x (+1 -0)\n  +1"
    );
    assert_eq!(
        condense_unified_diff("+++ plain\n+++x\n---y\n--- z\n-1\n"),
        "📄 plain (+0 -1)\n  -1"
    );
}

#[test]
fn overlap_of_two_lines() {
    let a: Vec<char> = "hello world".chars().collect();
    let b: Vec<char> = "hello worle".chars().collect();
    assert_eq!(overlap_of(&a, &b), Ratio { shared: 7, total: 8 });
    assert_eq!(overlap_of(&b, &a), Ratio { shared: 7, total: 8 });
    assert_eq!(overlap_of(&a, &a), Ratio { shared: 8, total: 8 });
}

#[test]
fn append_truncated_extends_the_string() {
    let text: Vec<char> = "0123456789".chars().collect();
    let mut out = String::from("> ");
    append_truncated(&mut out, &text, 10);
    assert_eq!(out, "> 0123456789");
    append_truncated(&mut out, &text, 9);
    assert_eq!(out, "> 0123456789012345...");
}

fn step(state: &mut u64, bound: u64) -> u64 {
    *state ^= *state << 13;
    *state ^= *state >> 7;
    *state ^= *state << 17;
    *state % bound
}

fn word(state: &mut u64, alphabet: u64) -> String {
    let len = step(state, 9);
    (0..len)
        .map(|_| char::from(b'a' + step(state, alphabet) as u8))
        .collect()
}

#[test]
fn above_half_agrees_with_the_quotient() {
    let mut state: u64 = 0x2545_f491_4f6c_dd1d;
    for _ in 0..2000 {
        let alphabet = 1 + step(&mut state, 12);
        let a = word(&mut state, alphabet);
        let b = word(&mut state, alphabet);
        let left: std::collections::HashSet<char> = a.chars().collect();
        let right: std::collections::HashSet<char> = b.chars().collect();
        let shared = left.intersection(&right).count();
        let total = left.union(&right).count();
        let quotient = if total == 0 {
            1.0
        } else {
            shared as f64 / total as f64
        };
        let ratio = similarity(&a, &b);
        assert_eq!(ratio, Ratio { shared, total }, "{:?} {:?}", a, b);
        assert_eq!(ratio.above_half(), quotient > 0.5, "{:?} {:?}", a, b);
    }
}
