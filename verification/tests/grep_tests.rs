use condense::grep_cmd::{
    clean_line, clean_trimmed, collect, compact_path, group_by_file, render, try_clean_line,
    Match,
};

fn run(
    pattern: &str,
    path: &str,
    stdout: &str,
    max_line_len: usize,
    max_results: usize,
    context_only: bool,
) -> Vec<String> {
    condense::grep_cmd::run(pattern, path, stdout, max_line_len, max_results, context_only)
        .unwrap()
}

fn repeated(c: char, n: usize) -> String {
    std::iter::repeat(c).take(n).collect()
}

#[test]
fn test_clean_line() {
    let line = "            const result = someFunction();";
    let cleaned = clean_line(line, 50, false, "result");
    assert!(!cleaned.starts_with(' '));
    assert!(cleaned.len() <= 50);
}

#[test]
fn test_compact_path() {
    let path = "/Users/patrick/dev/project/src/components/Button.tsx";
    let compact = compact_path(path);
    assert!(compact.len() <= 60);
}

#[test]
fn clean_line_trims_padding() {
    let line = "            const result = someFunction();";
    assert_eq!(clean_line(line, 50, false, "result"), "const result = someFunction();");
    assert_eq!(clean_line("\t  hello world \r\n", 80, false, "hello"), "hello world");
    assert_eq!(clean_line("   ", 80, false, "x"), "");
    assert_eq!(clean_line("", 80, false, "x"), "");
    assert_eq!(clean_line("\u{a0}\u{3000}wide\u{2003}", 80, false, "wide"), "wide");
}

#[test]
fn clean_line_cuts_around_the_match() {
    let line = format!("{}NEEDLE{}", repeated('a', 40), repeated('b', 40));
    assert_eq!(
        clean_line(&line, 30, false, "needle"),
        format!("...{}NEEDLE{}...", repeated('a', 10), repeated('b', 14))
    );
    assert_eq!(
        clean_line(&line, 30, false, "NeEdLe"),
        format!("...{}NEEDLE{}...", repeated('a', 10), repeated('b', 14))
    );
}

#[test]
fn clean_line_match_near_the_end() {
    let line = format!("{}needle", repeated('a', 50));
    assert_eq!(
        clean_line(&line, 20, false, "needle"),
        format!("...{}needle", repeated('a', 14))
    );
}

#[test]
fn clean_line_match_at_the_start() {
    let line = format!("needle{}", repeated('a', 50));
    assert_eq!(
        clean_line(&line, 20, false, "needle"),
        format!("needle{}...", repeated('a', 14))
    );
}

#[test]
fn clean_line_without_match_is_cut_at_the_end() {
    let line = repeated('x', 100);
    let cleaned = clean_line(&line, 20, false, "zzz");
    assert_eq!(cleaned, format!("{}...", repeated('x', 17)));
    assert_eq!(cleaned.chars().count(), 20);
    assert_eq!(clean_line(&line, 3, false, "zzz"), "...");
}

#[test]
fn clean_line_keeps_a_line_that_fits() {
    let line = repeated('x', 20);
    assert_eq!(clean_line(&line, 20, false, "zzz"), line);
    assert_eq!(clean_line(&line, 20, true, "zzz"), line);
}

#[test]
fn clean_line_context_starts_twenty_before_the_match() {
    let line = format!("{} needle tail", repeated('x', 30));
    assert_eq!(
        clean_line(&line, 80, true, "needle"),
        format!("{} needle tail", repeated('x', 19))
    );
    assert_eq!(
        clean_line(&line, 80, true, "NEEDLE"),
        format!("{} needle tail", repeated('x', 19))
    );
    assert_eq!(clean_line(&line, 80, false, "needle"), line);
}

#[test]
fn clean_line_context_that_does_not_fit() {
    let line = format!("{} needle {}", repeated('x', 30), repeated('y', 60));
    assert_eq!(
        clean_line(&line, 30, true, "needle"),
        format!("...{} needle {}...", repeated('x', 9), repeated('y', 13))
    );
}

#[test]
fn clean_line_takes_the_pattern_literally() {
    let line = format!("{} axb end", repeated('0', 31));
    assert_eq!(clean_line(&line, 80, true, "a.b"), line);
    let line = format!("{} a.b end", repeated('0', 31));
    assert_eq!(
        clean_line(&line, 80, true, "a.b"),
        format!("{} a.b end", repeated('0', 19))
    );
    let line = format!("{} f(x)[1] end", repeated('0', 31));
    assert_eq!(
        clean_line(&line, 80, true, "f(x)[1]"),
        format!("{} f(x)[1] end", repeated('0', 19))
    );
}

#[test]
fn clean_trimmed_follows_its_arguments() {
    let line = repeated('q', 40);
    assert_eq!(clean_trimmed(&line, 10, Some("short"), &line, "zz"), "short");
    assert_eq!(
        clean_trimmed(&line, 10, Some("much too long for ten"), &line, "zz"),
        "qqqqqqq..."
    );
    assert_eq!(clean_trimmed(&line, 10, None, "0123456789UP", "up"), "qqqqqqq...");
    assert_eq!(
        clean_trimmed(&line, 9, None, "0123456789up", "up"),
        format!("...{}...", repeated('q', 9))
    );
    assert_eq!(clean_trimmed("fits", 4, None, "fits", "x"), "fits");
}

#[test]
fn cut_around_a_match_is_longer_than_the_cap() {
    let line = repeated('a', 60);
    let cleaned = clean_line(&line, 10, false, "a");
    assert_eq!(cleaned, "aaaaaaaaaa...");
    assert_eq!(cleaned.len(), 13);
}

#[test]
fn compact_path_keeps_short_paths() {
    assert_eq!(compact_path("src/main.rs"), "src/main.rs");
    assert_eq!(compact_path(""), "");
    let fifty = format!("a/b/c/{}", repeated('x', 44));
    assert_eq!(fifty.len(), 50);
    assert_eq!(compact_path(&fifty), fifty);
}

#[test]
fn compact_path_keeps_long_paths_of_three_segments() {
    let path = format!("{}/{}/{}", repeated('a', 30), repeated('b', 30), repeated('c', 30));
    assert_eq!(compact_path(&path), path);
}

#[test]
fn compact_path_shortens_long_deep_paths() {
    assert_eq!(
        compact_path("/Users/patrick/dev/project/src/components/Button.tsx"),
        "/.../components/Button.tsx"
    );
    assert_eq!(
        compact_path("workspace/some/very/deeply/nested/directory/tree/file.rs"),
        "workspace/.../tree/file.rs"
    );
    let path = format!("a/b/c/{}", repeated('x', 45));
    assert_eq!(compact_path(&path), format!("a/.../c/{}", repeated('x', 45)));
}

#[test]
fn run_groups_matches_by_file() {
    let stdout = "src/b.rs:5:result\nsrc/a.rs:10:    let result = 1;\nsrc/a.rs:20:fn result() {}\n";
    assert_eq!(
        run("result", ".", stdout, 80, 50, false),
        vec![
            "🔍 3 matches in 2 files:",
            "",
            "📄 src/a.rs (2):",
            "    10: let result = 1;",
            "    20: fn result() {}",
            "",
            "📄 src/b.rs (1):",
            "     5: result",
            "",
        ]
    );
}

#[test]
fn run_without_matches() {
    assert_eq!(run("x", ".", "", 80, 50, false), vec!["No matches for 'x'"]);
    assert_eq!(run("x", ".", " \n\t\n", 80, 50, true), vec!["No matches for 'x'"]);
}

#[test]
fn run_in_single_file_mode() {
    assert_eq!(
        run("result", "notes.txt", "12:the result\n", 80, 50, false),
        vec![
            "🔍 1 matches in 1 files:",
            "",
            "📄 notes.txt (1):",
            "    12: the result",
            "",
        ]
    );
}

#[test]
fn run_skips_lines_without_colon() {
    assert_eq!(
        run("x", ".", "Binary file matches\nf:1:x\n", 80, 50, false),
        vec!["🔍 1 matches in 1 files:", "", "📄 f (1):", "     1: x", ""]
    );
    assert_eq!(
        run("x", ".", "nothing to read here\n", 80, 50, false),
        vec!["🔍 0 matches in 0 files:", ""]
    );
}

#[test]
fn run_reads_line_numbers() {
    let stdout = "f:abc:x\nf:+7:x\nf:-7:x\nf::x\nf:12345:x\nf:007:x\nf:1 :x\n";
    let out = run("x", ".", stdout, 80, 50, false);
    assert_eq!(
        out,
        vec![
            "🔍 7 matches in 1 files:",
            "",
            "📄 f (7):",
            "     0: x",
            "     7: x",
            "     0: x",
            "     0: x",
            "  12345: x",
            "     7: x",
            "     0: x",
            "",
        ]
    );
    let out = run("x", ".", "f:99999999999999999999999999999999:x\n", 80, 50, false);
    assert_eq!(out[3], "     0: x");
}

#[test]
fn run_keeps_colons_in_the_text() {
    let out = run("x", ".", "f:3:a:b:c\n", 80, 50, false);
    assert_eq!(out[3], "     3: a:b:c");
}

#[test]
fn run_shows_ten_matches_of_a_file() {
    let mut stdout = String::new();
    for i in 1..=12 {
        stdout.push_str(&format!("f.rs:{}:x{}\n", i, i));
    }
    let out = run("x", ".", &stdout, 80, 50, false);
    assert_eq!(out.len(), 2 + 1 + 10 + 1 + 1 + 1);
    assert_eq!(out[0], "🔍 12 matches in 1 files:");
    assert_eq!(out[2], "📄 f.rs (12):");
    assert_eq!(out[3], "     1: x1");
    assert_eq!(out[12], "    10: x10");
    assert_eq!(out[13], "  ... +2 more in this file");
    assert_eq!(out[14], "");
    assert_eq!(out[15], "... +2 more matches (use -m to show more)");
}

#[test]
fn run_stops_at_the_cap() {
    let stdout = "a:1:x\na:2:x\nb:1:x\nc:1:x\n";
    assert_eq!(
        run("x", ".", stdout, 80, 3, false),
        vec![
            "🔍 4 matches in 3 files:",
            "",
            "📄 a (2):",
            "     1: x",
            "     2: x",
            "",
            "📄 b (1):",
            "     1: x",
            "",
            "... +1 more matches (use -m to show more)",
        ]
    );
    assert_eq!(
        run("x", ".", stdout, 80, 1, false),
        vec![
            "🔍 4 matches in 3 files:",
            "",
            "📄 a (2):",
            "     1: x",
            "",
            "... +3 more matches (use -m to show more)",
        ]
    );
    assert_eq!(
        run("x", ".", stdout, 80, 0, false),
        vec![
            "🔍 4 matches in 3 files:",
            "",
            "... +4 more matches (use -m to show more)",
        ]
    );
}

#[test]
fn header_count_is_the_number_of_matches_of_the_file() {
    let stdout = "b:1:x\na:1:x\nb:2:x\na:2:x\nb:3:x\n";
    let found = collect(stdout, ".", 80, false, "x").unwrap();
    let in_a = found.iter().filter(|m| m.file == vec!['a']).count();
    let in_b = found.iter().filter(|m| m.file == vec!['b']).count();
    assert_eq!((in_a, in_b), (2, 3));
    let out = render(found, 50);
    assert_eq!(out[2], "📄 a (2):");
    assert_eq!(out[6], "📄 b (3):");
}

#[test]
fn collect_cleans_each_text() {
    let found = collect("f:1:   padded   \n", ".", 80, false, "padded").unwrap();
    assert_eq!(
        found,
        vec![Match {
            file: vec!['f'],
            line_number: 1,
            text: "padded".to_string()
        }]
    );
}

#[test]
fn render_shortens_long_paths() {
    let found = vec![Match {
        file: "/Users/patrick/dev/project/src/components/Button.tsx".chars().collect(),
        line_number: 3,
        text: "x".to_string(),
    }];
    assert_eq!(
        render(found, 10),
        vec![
            "🔍 1 matches in 1 files:",
            "",
            "📄 /.../components/Button.tsx (1):",
            "     3: x",
            "",
        ]
    );
}

#[test]
fn files_are_listed_in_lexicographic_order() {
    let out = run("x", ".", "b/z:1:x\nB:1:x\nab:1:x\na:1:x\nb:1:x\n", 80, 50, false);
    let headers: Vec<&String> = out.iter().filter(|l| l.starts_with("📄")).collect();
    assert_eq!(
        headers,
        vec!["📄 B (1):", "📄 a (1):", "📄 ab (1):", "📄 b (1):", "📄 b/z (1):"]
    );
}

#[test]
fn group_by_file_keeps_the_order_of_matches() {
    let found: Vec<Match> = [("b", 2, "x"), ("a", 9, "y"), ("b", 1, "z")]
        .iter()
        .map(|(file, line_number, text)| Match {
            file: file.chars().collect(),
            line_number: *line_number,
            text: text.to_string(),
        })
        .collect();
    let groups = group_by_file(found);
    assert_eq!(groups.len(), 2);
    assert_eq!(groups[0].key, vec!['a']);
    assert_eq!(groups[0].items, vec![(9, "y".to_string())]);
    assert_eq!(groups[1].key, vec!['b']);
    assert_eq!(
        groups[1].items,
        vec![(2, "x".to_string()), (1, "z".to_string())]
    );
}

#[test]
fn clean_line_context_of_a_padded_line() {
    let line = "   abcdefghijklmnopqrstuvwxyz result=1";
    assert_eq!(
        clean_line(line, 50, true, "result"),
        "hijklmnopqrstuvwxyz result=1"
    );
    assert_eq!(
        clean_line(line, 50, false, "result"),
        "abcdefghijklmnopqrstuvwxyz result=1"
    );
}

#[test]
fn padding_has_no_effect() {
    for context_only in [false, true] {
        for cap in [0, 2, 5, 20, 80] {
            for line in ["result", "a result b", "0123456789012345678901234 result tail"] {
                let padded = format!(" \t {}  \r\n", line);
                assert_eq!(
                    clean_line(&padded, cap, context_only, "result"),
                    clean_line(line, cap, context_only, "result"),
                    "{:?} {} {}",
                    line,
                    cap,
                    context_only
                );
            }
        }
    }
}

#[test]
fn small_caps_still_clean_what_needs_no_tail_cut() {
    assert_eq!(clean_line("x", 2, false, "x"), "x");
    assert_eq!(clean_line("", 0, false, "x"), "");
    assert_eq!(clean_line("  ab  ", 2, false, "zz"), "ab");
    assert_eq!(clean_line("abcdef", 2, false, "c"), "...cd...");
    assert_eq!(clean_line("abcdef", 2, false, "A"), "ab...");
    assert_eq!(clean_line("abcdef", 0, false, "f"), "......");
    assert_eq!(clean_line("abcdef", 1, false, "ef"), "...e...");
    assert_eq!(clean_line("abcdef", 1, false, "f"), "...f");
}

#[test]
fn try_clean_line_tells_when_there_is_no_room_for_the_dots() {
    assert_eq!(try_clean_line("abcdef", 2, false, "zzz"), None);
    assert_eq!(try_clean_line("abcdef", 0, true, "zzz"), None);
    assert_eq!(try_clean_line("  abcdef  ", 2, false, "q"), None);
    assert_eq!(
        try_clean_line("abcdef", 3, false, "zzz"),
        Some("...".to_string())
    );
    assert_eq!(
        try_clean_line("abcdef", 2, false, "c"),
        Some("...cd...".to_string())
    );
    assert_eq!(try_clean_line("ab", 2, false, "zzz"), Some("ab".to_string()));
    assert_eq!(
        try_clean_line("    padded line   ", 80, false, "line"),
        Some("padded line".to_string())
    );
}

#[test]
fn run_with_a_small_cap() {
    assert_eq!(run("p", ".", "", 0, 10, false), vec!["No matches for 'p'"]);
    assert_eq!(run("p", ".", " \n", 2, 10, true), vec!["No matches for 'p'"]);
    assert_eq!(
        run("c", ".", "f:1:abcdef\nf:2:c\n", 2, 10, false),
        vec![
            "🔍 2 matches in 1 files:",
            "",
            "📄 f (2):",
            "     1: ...cd...",
            "     2: c",
            "",
        ]
    );
    assert_eq!(
        condense::grep_cmd::run("zzz", ".", "f:1:ab\nf:2:abcdef\n", 2, 10, false),
        None
    );
    assert_eq!(collect("f:1:ab\nf:2:abcdef\n", ".", 2, false, "zzz"), None);
}
