use condense::find_cmd::{extension, group_by_dir, group_by_extension, run, split_dir};

fn repeated(c: char, n: usize) -> String {
    std::iter::repeat(c).take(n).collect()
}

#[test]
fn files_are_grouped_by_directory() {
    let stdout = "./src/main.rs\n./README.md\n./src/lib.rs\n";
    assert_eq!(
        run("*", stdout, 50),
        vec![
            "📁 Found 3 files in 2 directories:",
            "",
            "./ (1)",
            "  └─ README.md",
            "./src/ (2)",
            "  └─ main.rs",
            "  └─ lib.rs",
            "",
            "📊 Extensions: .rs (2), .md (1)",
        ]
    );
}

#[test]
fn no_files_found() {
    assert_eq!(run("*.zig", "", 50), vec!["No files found matching '*.zig'"]);
}

#[test]
fn files_without_directory_stand_under_the_current_one() {
    assert_eq!(
        run("*", "b.txt\na.txt\n", 50),
        vec![
            "📁 Found 2 files in 1 directories:",
            "",
            "./ (2)",
            "  └─ b.txt",
            "  └─ a.txt",
        ]
    );
}

#[test]
fn large_directories_are_summed_up() {
    let stdout = "d/1.rs\nd/2.rs\nd/3.rs\nd/4.rs\nd/5.rs\n";
    assert_eq!(
        run("*.rs", stdout, 50),
        vec![
            "📁 Found 5 files in 1 directories:",
            "",
            "d/ (5 files)",
            "  ├─ 1.rs",
            "  ├─ 2.rs",
            "  └─ ... +3 more",
        ]
    );
    let stdout = "d/1.rs\nd/2.rs\nd/3.rs\n";
    assert_eq!(
        run("*.rs", stdout, 50),
        vec![
            "📁 Found 3 files in 1 directories:",
            "",
            "d/ (3)",
            "  └─ 1.rs",
            "  └─ 2.rs",
            "  └─ 3.rs",
        ]
    );
}

#[test]
fn listing_stops_at_the_cap() {
    let stdout = "a/1\na/2\nb/1\nc/1\nc/2\n";
    assert_eq!(
        run("*", stdout, 2),
        vec![
            "📁 Found 5 files in 3 directories:",
            "",
            "a/ (2)",
            "  └─ 1",
            "  └─ 2",
            "... +3 more results",
            "",
            "📊 Extensions: .(no ext) (5)",
        ][..6]
    );
    assert_eq!(
        run("*", stdout, 3),
        vec![
            "📁 Found 5 files in 3 directories:",
            "",
            "a/ (2)",
            "  └─ 1",
            "  └─ 2",
            "b/ (1)",
            "  └─ 1",
            "... +2 more results",
        ]
    );
    assert_eq!(
        run("*", stdout, 0),
        vec!["📁 Found 5 files in 3 directories:", "", "... +5 more results"]
    );
    assert_eq!(run("*", stdout, 5).len(), 2 + 3 + 2 + 3);
}

#[test]
fn a_summed_up_directory_counts_in_full() {
    let stdout = "a/1\na/2\na/3\na/4\nb/1\n";
    assert_eq!(
        run("*", stdout, 4),
        vec![
            "📁 Found 5 files in 2 directories:",
            "",
            "a/ (4 files)",
            "  ├─ 1",
            "  ├─ 2",
            "  └─ ... +2 more",
            "... +1 more results",
        ]
    );
}

#[test]
fn group_counts_add_up_to_the_number_of_files() {
    let stdout = "x/a\ny/b\nx/c\nz/d\ny/e\nx/f\nx/g\n";
    let out = run("*", stdout, 50);
    assert_eq!(out[0], "📁 Found 7 files in 3 directories:");
    let headers: Vec<&String> = out.iter().filter(|l| l.contains("/ (")).collect();
    assert_eq!(headers, vec!["x/ (4 files)", "y/ (2)", "z/ (1)"]);
}

#[test]
fn directories_are_listed_in_lexicographic_order() {
    let stdout = "b/f\na/b/f\nB/f\na/f\nab/f\n/f\nf\n";
    let out = run("*", stdout, 50);
    let headers: Vec<&String> = out.iter().filter(|l| l.contains("/ (")).collect();
    assert_eq!(
        headers,
        vec!["/ (1)", "./ (1)", "B/ (1)", "a/ (1)", "a/b/ (1)", "ab/ (1)", "b/ (1)"]
    );
}

#[test]
fn long_directories_are_cut_at_the_front() {
    let dir = format!("{}{}", repeated('a', 10), repeated('b', 47));
    let out = run("*", &format!("{}/f\n", dir), 50);
    assert_eq!(out[2], format!("...{}/ (1)", repeated('b', 47)));
    let dir = repeated('c', 50);
    let out = run("*", &format!("{}/f\n", dir), 50);
    assert_eq!(out[2], format!("{}/ (1)", dir));
}

#[test]
fn extensions_are_ranked_by_frequency() {
    let stdout = "a.rs\nb.md\nc.rs\nd.toml\ne.md\nf.rs\ng.txt\nh.json\ni.lock\nj.yml\n";
    let out = run("*", stdout, 50);
    assert_eq!(
        out.last().unwrap(),
        "📊 Extensions: .rs (3), .md (2), .json (1), .lock (1), .toml (1)"
    );
    assert_eq!(out[out.len() - 2], "");
}

#[test]
fn a_single_extension_is_not_listed() {
    let out = run("*.rs", "a.rs\nb.rs\n", 50);
    assert_eq!(out.len(), 5);
}

#[test]
fn files_without_dot_have_no_extension() {
    let out = run("*", "Makefile\nmain.rs\n", 50);
    assert_eq!(out.last().unwrap(), "📊 Extensions: .(no ext) (1), .rs (1)");
}

#[test]
fn split_dir_cuts_at_the_last_slash() {
    let chars = |s: &str| -> Vec<char> { s.chars().collect() };
    assert_eq!(split_dir(&chars("a/b/c.rs")), (chars("a/b"), chars("c.rs")));
    assert_eq!(split_dir(&chars("c.rs")), (chars("."), chars("c.rs")));
    assert_eq!(split_dir(&chars("/c.rs")), (chars(""), chars("c.rs")));
    assert_eq!(split_dir(&chars("a/")), (chars("a"), chars("")));
    assert_eq!(split_dir(&chars("")), (chars("."), chars("")));
}

#[test]
fn extension_is_what_follows_the_last_dot() {
    let chars = |s: &str| -> Vec<char> { s.chars().collect() };
    assert_eq!(extension(&chars("a/b/c.rs")), chars("rs"));
    assert_eq!(extension(&chars("archive.tar.gz")), chars("gz"));
    assert_eq!(extension(&chars("Makefile")), chars("(no ext)"));
    assert_eq!(extension(&chars("trailing.")), chars(""));
    assert_eq!(extension(&chars(".hidden")), chars("hidden"));
    assert_eq!(extension(&chars("dir.v2/readme")), chars("(no ext)"));
    assert_eq!(extension(&chars("./src/main")), chars("(no ext)"));
    assert_eq!(extension(&chars("./src/main.rs")), chars("rs"));
    assert_eq!(extension(&chars("a.b/")), chars("(no ext)"));
}

#[test]
fn groups_hold_the_files_of_their_directory_in_order() {
    let paths: Vec<Vec<char>> = ["b/2.rs", "a/1.md", "b/1.rs", "top", "a/0.rs"]
        .iter()
        .map(|p| p.chars().collect())
        .collect();
    let groups = group_by_dir(&paths);
    let seen: Vec<(String, Vec<String>)> = groups
        .iter()
        .map(|g| {
            (
                g.key.iter().collect(),
                g.items.iter().map(|f| f.iter().collect()).collect(),
            )
        })
        .collect();
    assert_eq!(
        seen,
        vec![
            (".".to_string(), vec!["top".to_string()]),
            ("a".to_string(), vec!["1.md".to_string(), "0.rs".to_string()]),
            ("b".to_string(), vec!["2.rs".to_string(), "1.rs".to_string()]),
        ]
    );
    let total: usize = groups.iter().map(|g| g.items.len()).sum();
    assert_eq!(total, paths.len());
    let counts: Vec<(String, usize)> = group_by_extension(&paths)
        .iter()
        .map(|g| (g.key.iter().collect(), g.items.len()))
        .collect();
    assert_eq!(
        counts,
        vec![
            ("(no ext)".to_string(), 1),
            ("md".to_string(), 1),
            ("rs".to_string(), 3),
        ]
    );
}

#[test]
fn dots_in_directories_are_no_extension() {
    let out = run("*", "./src/main\ndir.v2/readme\n./lib.rs\n", 50);
    assert_eq!(out.last().unwrap(), "📊 Extensions: .(no ext) (2), .rs (1)");
}
