use quickstart_context::env_keys::get_env_file_keys;
use quickstart_context::history::{
    parse_history_line, parse_zsh_history, select_window, FeedOutcome, HistoryWindow, LineError,
};
use quickstart_context::project::{
    extension_matches, find_project_files, find_source_files, ListedEntry, ProjectListing,
};
use quickstart_context::records::{describe_entry, describe_history, process_zsh_history};
use quickstart_context::text::{parse_i64, split_once_char, trim_ws};

fn owned(lines: &[&str]) -> Vec<String> {
    lines.iter().map(|s| s.to_string()).collect()
}

fn files(names: &[&str]) -> Vec<ListedEntry> {
    names.iter().map(|s| ListedEntry { name: s.to_string(), is_dir: false }).collect()
}

fn scan(lines: &[Option<&str>]) -> Vec<Option<String>> {
    lines.iter().map(|l| l.map(|s| s.to_string())).collect()
}

#[test]
fn well_formed_line_parses_to_trimmed_parts() {
    assert_eq!(
        parse_zsh_history(":1700000300:0;echo hi"),
        Some((1700000300, "0".to_string(), "echo hi".to_string()))
    );
    assert_eq!(
        parse_zsh_history(": 170 : 12 ;   ls -la  "),
        Some((170, "12".to_string(), "ls -la".to_string()))
    );
    assert_eq!(
        parse_zsh_history(":-5:0;a;b:c"),
        Some((-5, "0".to_string(), "a;b:c".to_string()))
    );
}

#[test]
fn line_without_sentinel_is_rejected() {
    assert_eq!(parse_zsh_history("1700000000:0;ls"), None);
    assert_eq!(parse_zsh_history(""), None);
    assert_eq!(parse_zsh_history(" :1:0;ls"), None);
    assert_eq!(parse_history_line("echo :1:0;ls"), Err(LineError::NoSentinel));
}

#[test]
fn each_rejection_reason() {
    assert_eq!(parse_history_line(":123"), Err(LineError::NoTimestampEnd));
    assert_eq!(parse_history_line(":abc:0;ls"), Err(LineError::BadTimestamp));
    assert_eq!(parse_history_line(":99999999999999999999:0;ls"), Err(LineError::BadTimestamp));
    assert_eq!(parse_history_line(":123:0 ls"), Err(LineError::NoCommandSeparator));
    let e = parse_history_line(":7:1;make").unwrap();
    assert_eq!(e.timestamp, 7);
    assert_eq!(e.exit_code, "1");
    assert_eq!(e.command, "make");
}

#[test]
fn scan_stops_at_first_malformed_line() {
    let lines = scan(&[
        Some(":50:0;c"),
        Some(":40:0;b"),
        Some(":10:0;old"),
        Some("not a history line"),
        Some(":30:0;after"),
    ]);
    let kept = select_window(&lines, 20);
    let commands: Vec<&str> = kept.iter().map(|e| e.command.as_str()).collect();
    assert_eq!(commands, vec!["c", "b"]);
}

#[test]
fn undecodable_line_is_skipped_not_stopping() {
    let lines = scan(&[Some(":50:0;c"), None, Some(":40:0;b")]);
    let kept = select_window(&lines, 0);
    assert_eq!(kept.len(), 2);
    assert_eq!(kept[1].command, "b");
}

#[test]
fn cutoff_is_inclusive() {
    let lines = scan(&[Some(":100:0;edge"), Some(":99:0;before")]);
    let kept = select_window(&lines, 100);
    assert_eq!(kept.len(), 1);
    assert_eq!(kept[0].command, "edge");
    assert_eq!(kept[0].timestamp, 100);
}

#[test]
fn window_state_machine() {
    let mut w = HistoryWindow::new(100);
    assert_eq!(w.cutoff(), 100);
    assert_eq!(w.feed(Some(":150:0;new")), FeedOutcome::Recorded);
    assert_eq!(w.feed(None), FeedOutcome::Undecodable);
    assert_eq!(w.feed(Some(":50:0;old")), FeedOutcome::BeforeCutoff);
    assert!(!w.is_stopped());
    assert_eq!(w.feed(Some("junk")), FeedOutcome::Rejected(LineError::NoSentinel));
    assert!(w.is_stopped());
    assert_eq!(w.feed(Some(":160:0;late")), FeedOutcome::AfterStop);
    assert_eq!(w.entries().len(), 1);
    let records = w.records(200);
    assert_eq!(records.len(), 1);
    assert_eq!(records[0].command, "new");
    assert_eq!(records[0].relative_time, "50s");
    let entries = w.into_entries();
    assert_eq!(entries[0].timestamp, 150);
}

#[test]
fn end_to_end_history_example() {
    let lines = scan(&[
        Some(":1700000300:0;echo hi"),
        Some(":1700000200:0;ls"),
        Some("garbage"),
        Some(":1700000000:0;pwd"),
    ]);
    let records = process_zsh_history(&lines, 1700000100, 1700003900);
    assert_eq!(records.len(), 2);
    assert_eq!(records[0].command, "echo hi");
    assert_eq!(records[1].command, "ls");
    assert_eq!(records[0].exit_code, "0");
    assert_eq!(records[0].formatted_time, "2023-11-14 22:18:20");
    assert_eq!(records[1].formatted_time, "2023-11-14 22:16:40");
    assert_eq!(records[0].relative_time, "1h");
    assert_eq!(records[1].relative_time, "1h 1m 40s");
}

#[test]
fn record_times_are_rendered() {
    let entry = parse_history_line(":0:0;boot").unwrap();
    let r = describe_entry(&entry, 8040);
    assert_eq!(r.formatted_time, "1970-01-01 00:00:00");
    assert_eq!(r.relative_time, "2h 14m");
    assert_eq!(r.timestamp, 0);
    let future = describe_entry(&entry, -10);
    assert_eq!(future.relative_time, "0s");
    let far = parse_history_line(":9223372036854775807:0;x").unwrap();
    let r = describe_entry(&far, 0);
    assert_eq!(r.formatted_time, "Invalid timestamp");
    let all = describe_history(&vec![entry, far], 60);
    assert_eq!(all.len(), 2);
    assert_eq!(all[0].relative_time, "1m");
}

#[test]
fn integer_text() {
    assert_eq!(parse_i64("42"), Some(42));
    assert_eq!(parse_i64("+42"), Some(42));
    assert_eq!(parse_i64("-42"), Some(-42));
    assert_eq!(parse_i64("9223372036854775807"), Some(i64::MAX));
    assert_eq!(parse_i64("-9223372036854775808"), Some(i64::MIN));
    assert_eq!(parse_i64("9223372036854775808"), None);
    assert_eq!(parse_i64("-9223372036854775809"), None);
    assert_eq!(parse_i64("-"), None);
    assert_eq!(parse_i64(""), None);
    assert_eq!(parse_i64("12a"), None);
    assert_eq!(parse_i64(" 1"), None);
}

#[test]
fn unicode_white_space_is_trimmed() {
    assert_eq!(
        parse_zsh_history(":\u{3000}12\u{a0}:\u{2003}0\t; x y\u{205f}"),
        Some((12, "0".to_string(), "x y".to_string()))
    );
    assert_eq!(get_env_file_keys(&owned(&["\u{feff}K=1"])), owned(&["\u{feff}K"]));
}

#[test]
fn extension_reading() {
    assert!(extension_matches("main.rs", "rs"));
    assert!(extension_matches("a.tar.rs", "rs"));
    assert!(!extension_matches(".rs", "rs"));
    assert!(!extension_matches("rs", "rs"));
    assert!(!extension_matches("a.rsx", "rs"));
    assert!(!extension_matches("a.rs.bak", "rs"));
}

#[test]
fn cap_applies_and_marker_stays() {
    let listing = ProjectListing {
        root_entries: files(&["Cargo.toml", "src"]),
        src_entries: files(&["a.rs", "b.rs", "c.rs", "d.rs", "e.rs"]),
    };
    let files = find_project_files(&listing, 3);
    assert_eq!(files, owned(&["Cargo.toml", "src/a.rs", "src/b.rs", "src/c.rs"]));
}

#[test]
fn zero_cap_gives_marker_only() {
    let listing = ProjectListing {
        root_entries: files(&["Cargo.toml"]),
        src_entries: files(&["a.rs"]),
    };
    assert_eq!(find_project_files(&listing, 0), owned(&["Cargo.toml"]));
}

#[test]
fn rust_and_go_markers_together() {
    let listing = ProjectListing {
        root_entries: files(&["go.mod", "main.go", "Cargo.toml", "README.md", "util.go"]),
        src_entries: files(&["lib.rs", "x.go", "mod.rs"]),
    };
    let files = find_project_files(&listing, 5);
    assert_eq!(
        files,
        owned(&["Cargo.toml", "src/lib.rs", "src/mod.rs", "go.mod", "main.go", "util.go"])
    );
}

#[test]
fn node_project_caps_each_extension() {
    let listing = ProjectListing {
        root_entries: files(&["package.json", "pyproject.toml"]),
        src_entries: files(&["a.js", "b.ts", "c.js", "d.ts", "e.py"]),
    };
    let files = find_project_files(&listing, 1);
    assert_eq!(files, owned(&["pyproject.toml", "src/e.py", "package.json", "src/a.js", "src/b.ts"]));
}

#[test]
fn no_marker_no_files() {
    let listing = ProjectListing { root_entries: files(&["main.go"]), src_entries: files(&["a.rs"]) };
    assert!(find_project_files(&listing, 5).is_empty());
    assert_eq!(find_source_files("src/", &files(&["a.rs", "b.txt"]), "rs", 5), owned(&["src/a.rs"]));
}

#[test]
fn env_keys_example() {
    let text = "A=1\nFOO=bar=baz\n# comment\nNOVALUE\n";
    let lines: Vec<String> = text.lines().map(|l| l.to_string()).collect();
    assert_eq!(get_env_file_keys(&lines), owned(&["A", "FOO"]));
}

#[test]
fn env_keys_are_trimmed() {
    assert_eq!(get_env_file_keys(&owned(&["  KEY  = v", "", "=x"])), owned(&["KEY", ""]));
}

#[test]
fn subdirectories_are_not_sampled() {
    let mut src = files(&["a.rs", "b.rs"]);
    src.insert(0, ListedEntry { name: "nested.rs".to_string(), is_dir: true });
    let root = vec![
        ListedEntry { name: "Cargo.toml".to_string(), is_dir: false },
        ListedEntry { name: "go.mod".to_string(), is_dir: true },
        ListedEntry { name: "vendor.go".to_string(), is_dir: true },
        ListedEntry { name: "main.go".to_string(), is_dir: false },
    ];
    let listing = ProjectListing { root_entries: root, src_entries: src };
    assert_eq!(
        find_project_files(&listing, 1),
        owned(&["Cargo.toml", "src/a.rs", "go.mod", "main.go"])
    );
}

#[test]
fn rendered_timestamps_read_back() {
    for ts in [0i64, -7, 1700000000, i64::MAX, i64::MIN] {
        let line = format!(":{}:{};{}", ts, " 0 ", "  git status ");
        assert_eq!(parse_zsh_history(&line), Some((ts, "0".to_string(), "git status".to_string())));
    }
}

#[test]
fn trim_and_split_helpers() {
    assert_eq!(trim_ws("\u{3000} x y\u{a0}\n"), "x y");
    assert_eq!(trim_ws(" \t "), "");
    assert_eq!(trim_ws("é ü"), "é ü");
    assert_eq!(split_once_char("a=b=c", '='), Some(("a", "b=c")));
    assert_eq!(split_once_char("é:ü", ':'), Some(("é", "ü")));
    assert_eq!(split_once_char("abc", '='), None);
    assert_eq!(split_once_char("=", '='), Some(("", "")));
}
