//! The tools: requests and results.

use hashline::diff_preview::make_diff_preview;
use hashline::engines::Compiled;
use hashline::format::{compute_file_hash, format_hashline_header};
use hashline::json::{Json, Member};
use hashline::tools::bash::{BashTool, PollStep};
use hashline::tools::edit::{EditTool, SectionOutcome};
use hashline::tools::fetch::{Attempt, ChecksumSearch, FetchTool};
use hashline::tools::find::{FindTool, FoundFile};
use hashline::tools::put::{PutRequest, PutTool};
use hashline::tools::read::{
    parse_selector, DirEntry, Probe, ReadKind, ReadTool, Selector, TreeEntry,
};
use hashline::tools::search::{SearchRun, SearchTool};
use hashline::tools::sudo::{
    id_of_entry, name_of_entry, name_or_id, parse_mode, parse_stat_output, perm_str_to_octal,
    split_owner, SudoMeta,
};
use hashline::tools::walk::plan_walk;
use hashline::tools::write::WriteTool;
use hashline::types::{FileOp, PatchSection};

fn object(members: Vec<(&str, Json)>) -> Json {
    Json::Object(
        members
            .into_iter()
            .map(|(k, v)| Member { key: k.to_string(), value: v })
            .collect(),
    )
}

fn text(s: &str) -> Json {
    Json::Text(s.to_string())
}

/// The text of the first content block of a result.
fn shown(result: &Json) -> String {
    let content = match result.get("content") {
        Some(Json::Array(items)) => items,
        _ => panic!("no content"),
    };
    content[0].text_at("text").unwrap()
}

fn meta(size: u64, is_dir: bool, mode: u32) -> SudoMeta {
    SudoMeta {
        size,
        is_dir,
        mode,
        owner: "alice".to_string(),
        group: "staff".to_string(),
        uid: 1000,
        gid: 50,
    }
}

// ── read ─────────────────────────────────────────────────────────────────

#[test]
fn selector_parsing() {
    assert_eq!(parse_selector("foo.rs"), ("foo.rs".into(), None));
    let (p, s) = parse_selector("foo.rs:raw");
    assert_eq!(p, "foo.rs");
    assert!(matches!(s, Some(Selector::Raw)));
    let (p, s) = parse_selector("foo.rs:2-4");
    assert_eq!(p, "foo.rs");
    assert!(matches!(s, Some(Selector::Range { start: 2, end: 4 })));
    let (p, s) = parse_selector("foo.rs:1+3");
    assert_eq!(p, "foo.rs");
    assert!(matches!(s, Some(Selector::FromOffset { start: 1, count: 3 })));
    let (p, s) = parse_selector("foo.rs:5");
    assert_eq!(p, "foo.rs");
    assert!(matches!(s, Some(Selector::Range { start: 5, end: 5 })));
}

#[test]
fn selectors_at_the_edges() {
    assert_eq!(
        parse_selector("a:b:50-100,200-300"),
        ("a:b".into(), Some(Selector::Range { start: 50, end: 100 }))
    );
    assert_eq!(parse_selector("a:conflicts"), ("a".into(), Some(Selector::Raw)));
    assert_eq!(parse_selector("http://host/x"), ("http://host/x".into(), None));
    assert_eq!(parse_selector("a:"), ("a:".into(), None));
    assert_eq!(parse_selector("a:1-"), ("a:1-".into(), None));
    assert_eq!(parse_selector("a:99999999999"), ("a:99999999999".into(), None));
    assert_eq!(parse_selector("a:1-2:raw"), ("a:1-2".into(), Some(Selector::Raw)));
}

#[test]
fn read_full_file() {
    let res = ReadTool::format_file_content("/tmp/a.txt", "alpha\nbeta\ngamma\n", None);
    let text = shown(&res);
    assert!(text.contains("a.txt#"), "header present");
    assert!(text.contains("1:alpha"));
    assert!(text.contains("2:beta"));
    assert!(text.contains("3:gamma"));
    let tag = compute_file_hash("alpha\nbeta\ngamma\n");
    let header = format_hashline_header("/tmp/a.txt", &tag);
    assert_eq!(text, format!("{}\n1:alpha\n2:beta\n3:gamma\n", header));
}

#[test]
fn read_range_with_context() {
    let (path, selector) = parse_selector("b.txt:3-4");
    let content = "l1\nl2\nl3\nl4\nl5\nl6\nl7\nl8\n";
    let text = shown(&ReadTool::format_file_content(&path, content, selector));
    assert!(text.contains("2:l2"), "leading context");
    assert!(text.contains("3:l3"));
    assert!(text.contains("4:l4"));
    assert!(text.contains("5:l5"), "trailing context 1");
    assert!(text.contains("6:l6"), "trailing context 2");
    assert!(text.contains("7:l7"), "trailing context 3");
    assert!(!text.contains("1:l1"), "out of range should not show");
    assert!(!text.contains("8:l8"), "out of range should not show");
    assert!(text.ends_with("…\n[showing lines 2-7 of 8]\n"));
}

#[test]
fn read_raw_mode() {
    let (path, selector) = parse_selector("c.txt:raw");
    let text = shown(&ReadTool::format_file_content(&path, "x\ny\n", selector));
    assert!(!text.contains('#'), "no header in raw");
    assert_eq!(text, "x\ny\n");
}

#[test]
fn read_offset_selector() {
    let (path, selector) = parse_selector("d.txt:2+2");
    let text = shown(&ReadTool::format_file_content(&path, "a\nb\nc\nd\ne\n", selector));
    assert!(text.contains("2:b"));
    assert!(text.contains("3:c"));
}

fn entry(name: &str, is_dir: bool) -> DirEntry {
    DirEntry { name: name.to_string(), is_dir }
}

fn tree(name: &str, is_dir: bool, below: Vec<DirEntry>) -> TreeEntry {
    TreeEntry { entry: entry(name, is_dir), below }
}

#[test]
fn read_directory() {
    let entries = vec![
        tree("file2.rs", false, vec![]),
        tree("subdir", true, vec![]),
        tree("file1.txt", false, vec![]),
        tree("a", true, vec![]),
    ];
    let text = shown(&ReadTool::read_directory(&entries));
    assert_eq!(text, "a/\nsubdir/\nfile1.txt\nfile2.rs\n");
}

#[test]
fn read_directory_shows_two_levels() {
    let entries = vec![
        tree("z", true, vec![entry("two", false), entry("deep", true), entry("one", false)]),
        tree("f", false, vec![]),
        tree("a-b", true, vec![]),
        tree("a", true, vec![entry("x", false)]),
    ];
    let text = shown(&ReadTool::read_directory(&entries));
    assert_eq!(text, "a-b/\na/\n  x\nz/\n  deep/\n  one\n  two\nf\n");
}

#[test]
fn read_missing_errors() {
    let err = ReadTool::kind("/no/such/path/xyz123", Probe::Missing).unwrap_err();
    assert_eq!(err, "File not found: /no/such/path/xyz123");
}

#[test]
fn read_looks_before_it_reads() {
    assert!(matches!(ReadTool::kind("d", Probe::Directory), Ok(ReadKind::Directory)));
    assert!(matches!(ReadTool::kind("f", Probe::File), Ok(ReadKind::File)));
    assert_eq!(
        ReadTool::kind("f", Probe::Unknown("denied".to_string())).unwrap_err(),
        "Cannot stat f: denied"
    );
}

#[test]
fn read_request_needs_a_path() {
    let args = object(vec![("path", text("x.rs:7")), ("sudo", Json::Bool(true))]);
    let req = ReadTool::request(&args).unwrap();
    assert_eq!(req.path, "x.rs");
    assert!(req.sudo);
    assert_eq!(req.selector, Some(Selector::Range { start: 7, end: 7 }));
    let err = ReadTool::request(&object(vec![("path", Json::Null)])).unwrap_err();
    assert_eq!(err, "`path` is required and must be a string");
}

#[test]
fn read_caps_a_long_file() {
    let content = "x\n".repeat(3001);
    let shown = shown(&ReadTool::format_file_content("big", &content, None));
    assert!(shown.contains("\n3000:x\n"));
    assert!(!shown.contains("\n3001:x\n"));
    assert!(shown.ends_with(
        "…\n[3001 lines total — showing first 3000; use :N-M to select a range]\n"
    ));
}

#[test]
fn read_behind_the_end_shows_what_is_there() {
    let text = shown(&ReadTool::format_file_content(
        "f",
        "a\nb\n",
        Some(Selector::Range { start: 9, end: 12 }),
    ));
    assert!(text.ends_with("]\n…\n[showing lines 8-2 of 2]\n"));
    let text = shown(&ReadTool::format_file_content(
        "f",
        "a\nb\n",
        Some(Selector::FromOffset { start: 0, count: 0 }),
    ));
    assert!(text.ends_with("]\n1:a\n2:b\n"));
}

// ── sudo ─────────────────────────────────────────────────────────────────

#[test]
fn perm_str_to_octal_regular() {
    assert_eq!(perm_str_to_octal("rwxr-xr-x").unwrap(), 0o755);
    assert_eq!(perm_str_to_octal("rw-r--r--").unwrap(), 0o644);
    assert_eq!(perm_str_to_octal("rwxrwxrwx").unwrap(), 0o777);
    assert_eq!(perm_str_to_octal("--------x").unwrap(), 0o001);
    assert_eq!(perm_str_to_octal("r--------").unwrap(), 0o400);
}

#[test]
fn perm_str_to_octal_with_dir_prefix() {
    assert_eq!(perm_str_to_octal("drwxr-xr-x").unwrap(), 0o755);
    assert_eq!(perm_str_to_octal("-rw-r--r--").unwrap(), 0o644);
    assert_eq!(perm_str_to_octal("drwx------").unwrap(), 0o700);
}

#[test]
fn perm_str_to_octal_setuid_setgid_sticky() {
    assert_eq!(perm_str_to_octal("rwsr-xr-x").unwrap(), 0o4755);
    assert_eq!(perm_str_to_octal("rwxr-sr-x").unwrap(), 0o2755);
    assert_eq!(perm_str_to_octal("rwxr-xr-t").unwrap(), 0o1755);
}

#[test]
fn perm_str_to_octal_too_short() {
    assert!(perm_str_to_octal("rwx").is_err());
    assert!(perm_str_to_octal("rw-").is_err());
}

#[test]
fn perm_str_to_octal_with_more_than_permissions() {
    assert_eq!(perm_str_to_octal("drwxr-xr-x+").unwrap_err(), "perm triplet short: [43]");
    assert_eq!(perm_str_to_octal("drwxr-xr-x+-").unwrap_err(), "perm triplet short: [43, 45]");
    assert!(perm_str_to_octal("drwxr-xr-xrwx").is_err());
}

#[test]
fn parse_stat_output_file() {
    let out = "12345 81a4 1000 1000 -rw-r--r-- alice alice";
    let meta = parse_stat_output(out).unwrap();
    assert_eq!(meta.size, 12345);
    assert_eq!(meta.mode, 0o644);
    assert_eq!(meta.is_dir, false);
    assert_eq!(meta.owner, "alice");
    assert_eq!(meta.group, "alice");
    assert_eq!(meta.uid, 1000);
    assert_eq!(meta.gid, 1000);
}

#[test]
fn parse_stat_output_directory() {
    let out = "4096 41ed 0 0 drwxr-xr-x root root";
    let meta = parse_stat_output(out).unwrap();
    assert_eq!(meta.size, 4096);
    assert_eq!(meta.mode, 0o755);
    assert_eq!(meta.is_dir, true);
    assert_eq!(meta.owner, "root");
    assert_eq!(meta.group, "root");
    assert_eq!(meta.uid, 0);
    assert_eq!(meta.gid, 0);
}

#[test]
fn parse_stat_output_root_owned() {
    let out = "8192 81a4 0 0 -rw------- root root";
    let meta = parse_stat_output(out).unwrap();
    assert_eq!(meta.mode, 0o600);
    assert_eq!(meta.is_dir, false);
    assert_eq!(meta.owner, "root");
}

#[test]
fn parse_stat_output_malformed() {
    assert!(parse_stat_output("too few fields").is_err());
    assert!(parse_stat_output("").is_err());
    assert_eq!(parse_stat_output("a \"b\"").unwrap_err(), "unexpected stat output: \"a \\\"b\\\"\"");
}

#[test]
fn parse_stat_output_non_numeric_uid() {
    assert!(parse_stat_output("123 81a4 abc 1000 -rw-r--r-- alice alice").is_err());
}

#[test]
fn stat_numbers_say_what_is_wrong() {
    let line = |size: &str, uid: &str, gid: &str| format!("{} 0 {} {} -rw------- a b", size, uid, gid);
    assert_eq!(
        parse_stat_output(&line("x", "0", "0")).unwrap_err(),
        "stat size parse: invalid digit found in string"
    );
    assert_eq!(
        parse_stat_output(&line("0", "4294967296", "0")).unwrap_err(),
        "stat uid parse: number too large to fit in target type"
    );
    assert_eq!(
        parse_stat_output(&line("0", "0", "+")).unwrap_err(),
        "stat gid parse: invalid digit found in string"
    );
}

#[test]
fn entries_and_owners_are_taken_apart() {
    assert_eq!(name_of_entry("root:x:0:0:root:/root:/bin/sh"), "root");
    assert_eq!(id_of_entry("alice:x:1000:1000::/home/alice:/bin/sh"), Some(1000));
    assert_eq!(id_of_entry("nobody:x"), None);
    assert_eq!(name_or_id(None, 42), "42");
    assert_eq!(name_or_id(Some("bob".to_string()), 42), "bob");
    assert_eq!(split_owner("app:web:x"), ("app".to_string(), Some("web:x".to_string())));
    assert_eq!(split_owner("app"), ("app".to_string(), None));
}

#[test]
fn modes_are_octal() {
    assert_eq!(parse_mode("644"), Ok(0o644));
    assert_eq!(parse_mode("0o755"), Ok(0o755));
    assert_eq!(parse_mode("0o0o1"), Ok(1));
    assert_eq!(
        parse_mode("").unwrap_err(),
        "Invalid mode '': cannot parse integer from empty string"
    );
    assert_eq!(parse_mode("8").unwrap_err(), "Invalid mode '8': invalid digit found in string");
    assert_eq!(
        parse_mode("777777777777x").unwrap_err(),
        "Invalid mode '777777777777x': number too large to fit in target type"
    );
}

// ── write ────────────────────────────────────────────────────────────────

#[test]
fn write_mode_param_in_result_text() {
    let args = object(vec![("path", text("mt.txt")), ("content", text("x")), ("mode", text("644"))]);
    let req = WriteTool::request(&args).unwrap();
    assert_eq!(WriteTool::mode(&req, None), Ok(Some(0o644)));
    let shown = shown(&WriteTool::result(&req));
    assert!(shown.contains("mode=644"));
    assert_eq!(shown, "Wrote 1 bytes to mt.txt, mode=644");
}

#[test]
fn write_invalid_mode_errors() {
    let args = object(vec![
        ("path", text("bad.txt")),
        ("content", text("x")),
        ("mode", text("not-a-number")),
    ]);
    let req = WriteTool::request(&args).unwrap();
    let res = WriteTool::mode(&req, None);
    assert!(res.is_err());
}

#[test]
fn write_missing_content_errors() {
    let args = object(vec![("path", text("nc.txt"))]);
    let res = WriteTool::request(&args);
    assert!(res.is_err());
    assert_eq!(res.unwrap_err(), "`content` is required and must be a string");
    assert_eq!(
        WriteTool::request(&Json::Null).unwrap_err(),
        "`path` is required and must be a string"
    );
}

#[test]
fn write_counts_bytes_and_keeps_the_mode() {
    let args = object(vec![
        ("path", text("f")),
        ("content", text("héllo\n")),
        ("sudo", Json::Bool(true)),
        ("owner", text("root:root")),
    ]);
    let req = WriteTool::request(&args).unwrap();
    assert_eq!(shown(&WriteTool::result(&req)), "Wrote 7 bytes to f (via sudo), owner=root:root");
    assert_eq!(WriteTool::mode(&req, Some(0o600)), Ok(Some(0o600)));
    assert_eq!(WriteTool::mode(&req, None), Ok(Some(0o644)));
    let plain = object(vec![("path", text("f")), ("content", text(""))]);
    let req = WriteTool::request(&plain).unwrap();
    assert_eq!(WriteTool::mode(&req, Some(0o600)), Ok(None));
}

// ── fetch ────────────────────────────────────────────────────────────────

#[test]
fn fetch_returns_metadata_for_file() {
    let sha = "a".repeat(64);
    let res = FetchTool::result("data.bin", "/tmp/data.bin", &meta(12, false, 0o100644), &sha);
    let text = shown(&res);
    assert!(text.contains("remote_fetch: ready for sideband transfer"));
    assert!(text.contains("/tmp/data.bin"));
    assert!(text.contains("size:      12 bytes"));
    assert!(text.contains("sha256:"));
    assert!(text.contains("mode:      644\n"));
    let metadata = res.get("metadata").unwrap();
    assert_eq!(metadata.integer_at("size"), Some(12));
    assert_eq!(metadata.text_at("abs_path").unwrap(), "/tmp/data.bin");
    assert_eq!(metadata.text_at("mode").unwrap(), "644");
    assert!(metadata.text_at("sha256").unwrap().len() == 64);
}

#[test]
fn fetch_rejects_directory() {
    let res = FetchTool::check("/tmp/d", &meta(0, true, 0o755));
    assert!(res.is_err());
    let msg = res.unwrap_err();
    assert!(msg.contains("directory"));
    assert!(FetchTool::check("/tmp/f", &meta(0, false, 0o644)).is_ok());
}

#[test]
fn fetch_includes_client_instructions() {
    let res = FetchTool::result("x.txt", "/tmp/x.txt", &meta(1, false, 0o644), "00");
    let text = shown(&res);
    assert!(text.contains("scp") || text.contains("rsync"));
    assert!(text.contains("does not transit the MCP"));
}

#[test]
fn fetch_tries_one_program_after_the_other() {
    let mut search = ChecksumSearch::new();
    assert_eq!(search.attempt("sha256sum", Attempt::NotFound), None);
    assert_eq!(search.attempt("shasum", Attempt::Failed(b"denied".to_vec())), None);
    assert_eq!(
        search.give_up("/x"),
        "Could not compute sha256 for /x: sha256sum: not found\nshasum: denied\n"
    );
    let mut search = ChecksumSearch::new();
    let out = b"abc123  /tmp/f\n".to_vec();
    assert_eq!(search.attempt("sha256sum", Attempt::Done(out)), Some("abc123".to_string()));
    assert_eq!(search.attempt("sha256sum", Attempt::Done(Vec::new())), None);
    assert_eq!(search.tried, "");
}

#[test]
fn fetch_request_needs_a_path() {
    let req = FetchTool::request(&object(vec![("path", text("f"))])).unwrap();
    assert_eq!(req.path, "f");
    assert!(!req.sudo);
    assert!(FetchTool::request(&object(vec![])).is_err());
}

// ── put ──────────────────────────────────────────────────────────────────

#[test]
fn put_has_two_phases() {
    let args = object(vec![("path", text("/opt/app/config.yaml")), ("sudo", Json::Bool(true))]);
    match PutTool::request(&args).unwrap() {
        PutRequest::Prepare { path, sudo } => {
            assert_eq!(path, "/opt/app/config.yaml");
            assert!(sudo);
        }
        PutRequest::Commit { .. } => panic!("expected the first phase"),
    }
    let args = object(vec![("path", text("d")), ("commit", Json::Bool(true))]);
    assert_eq!(
        PutTool::request(&args).unwrap_err(),
        "`staging_path` is required for commit phase (returned by phase 1)"
    );
    let args = object(vec![
        ("path", text("d")),
        ("commit", Json::Bool(true)),
        ("staging_path", text("/tmp/s")),
        ("mode", text("640")),
    ]);
    match PutTool::request(&args).unwrap() {
        PutRequest::Commit { staging_path, mode, owner, .. } => {
            assert_eq!(staging_path, "/tmp/s");
            assert_eq!(PutTool::mode(&mode, None), Ok(0o640));
            assert_eq!(PutTool::owner(&owner, &Some("bob".to_string())), Some("bob".to_string()));
        }
        PutRequest::Prepare { .. } => panic!("expected the second phase"),
    }
}

#[test]
fn put_stages_under_a_unique_name() {
    assert_eq!(
        PutTool::staging_path("/opt/app/config.yaml", 1234, 5678),
        "/tmp/remote-agentd-staging/config.yaml.1234.5678"
    );
    assert_eq!(PutTool::staging_path("/", 1, 2), "/tmp/remote-agentd-staging/upload.1.2");
    assert_eq!(PutTool::staging_path("a/..", 1, 2), "/tmp/remote-agentd-staging/upload.1.2");
    assert_eq!(PutTool::staging_path("a/b/./", 1, 2), "/tmp/remote-agentd-staging/b.1.2");
    let res = PutTool::prepared("/opt/x", "/tmp/s");
    assert!(shown(&res).starts_with("remote_put: staging ready (phase 1/2)\ndest:         /opt/x\n"));
    assert_eq!(res.get("metadata").unwrap().integer_at("phase"), Some(1));
}

#[test]
fn put_checks_what_was_staged() {
    assert!(PutTool::check_staged("/tmp/s", &meta(1, false, 0o644)).is_ok());
    assert!(PutTool::check_staged("/tmp/s", &meta(0, false, 0o644))
        .unwrap_err()
        .starts_with("Staged file /tmp/s is empty"));
    assert_eq!(
        PutTool::check_staged("/tmp/s", &meta(1, true, 0o755)).unwrap_err(),
        "Staging path /tmp/s is a directory, expected a file"
    );
    assert_eq!(PutTool::mode(&None, Some(0o600)), Ok(0o600));
    assert_eq!(PutTool::mode(&None, None), Ok(0o644));
    let res = PutTool::committed("/opt/x", "/tmp/s", &meta(9, false, 0o640));
    assert_eq!(
        shown(&res),
        "remote_put: committed (phase 2/2)\ndest:    /opt/x\nsize:    9 bytes\nmode:    640\n\
         owner:   alice\ngroup:   staff\nstaged:  /tmp/s (removed)"
    );
    assert_eq!(res.get("metadata").unwrap().text_at("mode").unwrap(), "640");
}

// ── find ─────────────────────────────────────────────────────────────────

fn found(dir: &str, name: &str, modified: i128) -> FoundFile {
    FoundFile { dir: dir.to_string(), name: name.to_string(), modified }
}

#[test]
fn find_groups_newest_first() {
    let files = vec![
        found("src", "old.rs", 1),
        found("", "top.md", 9),
        found("src", "new.rs", 5),
        found("docs", "same.md", 5),
    ];
    assert_eq!(
        shown(&FindTool::result(&files)),
        "# ./\ntop.md\n\n# src/\nnew.rs\n\n# docs/\nsame.md\n\n# src/\nold.rs\n"
    );
    assert_eq!(shown(&FindTool::result(&[])), "");
}

#[test]
fn find_request_needs_paths() {
    let paths = Json::Array(vec![text("a"), Json::Null, text("b")]);
    let req = FindTool::request(&object(vec![("paths", paths), ("hidden", Json::Bool(false))])).unwrap();
    assert_eq!(req.paths, vec!["a", "b"]);
    assert!(req.gitignore);
    assert!(!req.hidden);
    assert_eq!(
        FindTool::request(&object(vec![("paths", text("a"))])).unwrap_err(),
        "`paths` is required and must be an array"
    );
    assert_eq!(
        FindTool::request(&object(vec![("paths", Json::Array(vec![]))])).unwrap_err(),
        "`paths` must contain at least one path"
    );
}

// ── search ───────────────────────────────────────────────────────────────

fn search(pattern: &str, case: bool, single: bool) -> Result<SearchRun, String> {
    let args = object(vec![("pattern", text(pattern)), ("case", Json::Bool(case))]);
    let req = SearchTool::request(&args).unwrap();
    assert_eq!(req.paths, vec!["."]);
    SearchTool::start(&req, single)
}

#[test]
fn search_shows_matches_with_context() {
    let mut run = search("b+", true, false).unwrap();
    let content = "a\nabb\nc\nd\ne\nf\n";
    run.search_file("x.txt", content);
    run.search_file("y.txt", "nothing here\n");
    let header = format_hashline_header("x.txt", &compute_file_hash(content));
    assert_eq!(shown(&run.result()), format!("{}\n*2:abb\n 1:a\n 3:c\n 4:d\n 5:e\n", header));
    assert_eq!(run.total, 1);
}

#[test]
fn search_may_ignore_case() {
    let mut strict = search("ABB", true, false).unwrap();
    strict.search_file("x", "abb\n");
    assert_eq!(strict.total, 0);
    let mut lax = search("ABB", false, false).unwrap();
    lax.search_file("x", "abb\n");
    assert_eq!(lax.total, 1);
}

#[test]
fn search_starts_with_what_became_of_its_patterns() {
    let ok = |p: &str| Compiled::new(p);
    let bad = |m: &str| Err(m.to_string());
    let mut run = SearchTool::started(ok("ABB"), None, true).unwrap();
    assert_eq!(run.limit, 200);
    run.search_file("x", "abb\n");
    assert_eq!(run.total, 0);
    let mut run = SearchTool::started(ok("ABB"), Some(ok("(?i)ABB")), false).unwrap();
    assert_eq!(run.limit, 20);
    assert_eq!(run.output, "");
    run.search_file("x", "abb\n");
    assert_eq!(run.total, 1);
    let err = SearchTool::started(bad("too big"), None, false).unwrap_err();
    assert_eq!(err, "Invalid regex pattern: too big");
    let err = SearchTool::started(bad("one"), Some(bad("two")), false).unwrap_err();
    assert_eq!(err, "Invalid regex pattern: one");
    let err = SearchTool::started(ok("a"), Some(bad("two")), false).unwrap_err();
    assert_eq!(err, "Invalid regex pattern: two");
    assert!(Compiled::new("(").is_err());
    assert!(Compiled::new("b+").unwrap().is_match("abb"));
}

#[test]
fn search_refuses_a_bad_pattern() {
    let err = search("(", true, false).unwrap_err();
    assert!(err.starts_with("Invalid regex pattern: "));
    let syntax = regex::Regex::new("(").unwrap_err();
    assert_eq!(err, format!("Invalid regex pattern: {syntax}"));
    // Case makes no difference to what is wrong with the pattern as it was given.
    assert_eq!(search("(", false, false).unwrap_err(), err);
    let class = regex::Regex::new("[b-a]").unwrap_err();
    assert_eq!(
        search("[b-a]", true, true).unwrap_err(),
        format!("Invalid regex pattern: {class}")
    );
}

#[test]
fn search_keeps_to_its_limits() {
    let content = "m\n".repeat(30);
    let mut run = search("m", true, false).unwrap();
    run.search_file("x", &content);
    assert_eq!(run.total, 20);
    for _ in 0..200 {
        run.search_file("x", &content);
    }
    assert_eq!(run.total, 2000);
    assert!(!run.wants_more());
    let mut single = search("m", true, true).unwrap();
    single.search_file("x", &"m\n".repeat(300));
    assert_eq!(single.total, 200);
    assert!(single.wants_more());
}

#[test]
fn search_takes_matches_from_its_caller() {
    let mut run = search("unused", true, false).unwrap();
    run.add_matches("p", "one\ntwo\n", &[false, true]);
    assert_eq!(run.total, 1);
    assert!(run.output.ends_with("*2:two\n 1:one\n"));
}

#[test]
fn search_cuts_long_lines_between_characters() {
    let mut run = search("é", true, false).unwrap();
    run.search_file("x", &format!("{}\n", "é".repeat(300)));
    assert!(run.output.ends_with(&format!("*1:{}\n", "é".repeat(256))));
}

#[test]
fn search_request_takes_one_path_or_many() {
    let one = object(vec![("pattern", text("x")), ("paths", text("src"))]);
    assert_eq!(SearchTool::request(&one).unwrap().paths, vec!["src"]);
    let many = object(vec![
        ("pattern", text("x")),
        ("paths", Json::Array(vec![text("a"), text("b")])),
    ]);
    assert_eq!(SearchTool::request(&many).unwrap().paths, vec!["a", "b"]);
    let bad = object(vec![("pattern", text("x")), ("paths", Json::Bool(true))]);
    assert_eq!(SearchTool::request(&bad).unwrap_err(), "`paths` must be a string or array");
    assert_eq!(
        SearchTool::request(&object(vec![])).unwrap_err(),
        "`pattern` is required and must be a string"
    );
}

// ── bash ─────────────────────────────────────────────────────────────────

#[test]
fn bash_request_has_defaults() {
    let env = object(vec![("A", text("1")), ("B", Json::Null)]);
    let args = object(vec![
        ("command", text("ls")),
        ("sudo", Json::Bool(true)),
        ("timeout", Json::Number("5".to_string())),
        ("env", env),
    ]);
    let req = BashTool::request(&args).unwrap();
    assert_eq!(req.timeout_secs, 5);
    assert_eq!(req.env.len(), 1);
    assert_eq!(req.env[0].name, "A");
    assert_eq!(BashTool::command_line(&req), vec!["sudo", "-n", "sh", "-c", "ls"]);
    let plain = object(vec![("command", text("ls")), ("timeout", Json::Number("1.5".to_string()))]);
    let req = BashTool::request(&plain).unwrap();
    assert_eq!(req.timeout_secs, 60);
    assert_eq!(BashTool::command_line(&req), vec!["sh", "-c", "ls"]);
    assert_eq!(
        BashTool::request(&object(vec![])).unwrap_err(),
        "`command` is required and must be a string"
    );
}

#[test]
fn bash_puts_complaints_behind_the_output() {
    let res = BashTool::finished(b"out", b"err\n", Some(3), false);
    assert_eq!(shown(&res), "out\nerr\n");
    assert_eq!(res.integer_at("exitCode"), Some(3));
    assert_eq!(res.bool_at("isError"), Some(true));
    let res = BashTool::finished(b"out\n", b"err", Some(0), true);
    assert_eq!(shown(&res), "out\nerr");
    assert_eq!(res.bool_at("isError"), None);
    let res = BashTool::finished(b"", b"", None, false);
    assert_eq!(shown(&res), "");
    assert!(matches!(res.get("exitCode"), Some(Json::Number(n)) if n == "-1"));
}

#[test]
fn bash_tells_of_a_timeout() {
    let res = BashTool::timed_out(2, &[b"a".to_vec(), Vec::new(), b"b".to_vec()]);
    assert_eq!(shown(&res), "Command timed out after 2s\n\na\nb");
    assert_eq!(res.bool_at("isError"), Some(true));
    assert_eq!(shown(&BashTool::timed_out(60, &[])), "Command timed out after 60s");
}

// ── edit ─────────────────────────────────────────────────────────────────

fn section(path: &str, file_op: Option<FileOp>, warnings: Vec<&str>) -> PatchSection {
    PatchSection {
        path: path.to_string(),
        file_hash: None,
        edits: Vec::new(),
        file_op,
        warnings: warnings.into_iter().map(String::from).collect(),
    }
}

fn outcome(content: Option<&str>, diff: &str) -> SectionOutcome {
    SectionOutcome { content: content.map(String::from), diff: diff.to_string() }
}

#[test]
fn edit_shows_what_became_of_the_files() {
    let sections = vec![
        section("a.txt", None, vec!["careful"]),
        section("b.txt", Some(FileOp::Rem), vec![]),
        section("c.txt", Some(FileOp::Mv { dest: "d.txt".to_string() }), vec![]),
        section("e.txt", None, vec![]),
    ];
    let outcomes = vec![
        outcome(Some("x\nY\n"), &make_diff_preview("x\ny\n", "x\nY\n")),
        outcome(None, ""),
        outcome(None, "-1|a"),
        outcome(Some("same\n"), ""),
    ];
    let a = format_hashline_header("a.txt", &compute_file_hash("x\nY\n"));
    let e = format_hashline_header("e.txt", &compute_file_hash("same\n"));
    assert_eq!(
        shown(&EditTool::build_result(&sections, &outcomes)),
        format!(
            "{a}\n 1|x\n-2|y\n+2|Y\n 3|\nwarnings:\n  - careful\n\n[b.txt]\n(file removed)\n\n[c.txt]\n(moved to d.txt)\n\n{e}\n\n"
        )
    );
}

#[test]
fn edit_shows_the_changed_region_of_a_long_file() {
    let before: Vec<String> = (1..=100).map(|n| n.to_string()).collect();
    let mut after = before.clone();
    after[49] = "fifty".to_string();
    after.remove(51);
    let after = after.join("\n");
    let diff = make_diff_preview(&before.join("\n"), &after);
    let res =
        EditTool::build_result(&[section("a", None, vec![])], &[outcome(Some(&after), &diff)]);
    let header = format_hashline_header("a", &compute_file_hash(&after));
    assert_eq!(
        shown(&res),
        format!(
            "{header}\n 47|47\n 48|48\n 49|49\n-50|50\n+50|fifty\n 51|51\n-52|52\n 53|53\n 54|54\n 55|55\n\n"
        )
    );
}

#[test]
fn edit_keeps_its_preview_short() {
    let content = "z\n".repeat(41);
    let diff = make_diff_preview("", &content);
    let res =
        EditTool::build_result(&[section("a", None, vec![])], &[outcome(Some(&content), &diff)]);
    let text = shown(&res);
    assert!(text.contains("\n+40|z\n"));
    assert!(!text.contains("\n+41|z\n"));
    assert!(text.ends_with("…\n[42 lines total — showing first 40]\n\n"));
}

#[test]
fn edit_request_and_refusals() {
    let req = EditTool::request(&object(vec![("input", text("[a#0000]"))])).unwrap();
    assert_eq!(req.input, "[a#0000]");
    assert!(!req.sudo);
    assert_eq!(
        EditTool::request(&object(vec![])).unwrap_err(),
        "`input` is required and must be a string"
    );
    assert!(EditTool::check_sections(&[]).unwrap_err().starts_with("No hashline sections found"));
    assert!(EditTool::check_sections(&[section("a", None, vec![])]).is_ok());
    assert_eq!(EditTool::failure(false, "why"), "Patch application failed: why");
    assert_eq!(EditTool::failure(true, "why"), "Patch application (sudo) failed: why");
}

#[test]
fn staging_paths_differ() {
    let first = PutTool::staging_path("/etc/app.conf", 12, 345);
    assert_eq!(first, "/tmp/remote-agentd-staging/app.conf.12.345");
    assert_ne!(first, PutTool::staging_path("/etc/app.conf", 123, 45));
}

#[test]
fn sudo_edits_work_on_copies() {
    let sections = hashline::parser::parse_sections("[/etc/a#1A2B]\nDEL 1\n[/etc/b#1A2B]\nDEL 2");
    let copies = EditTool::on_copies(&sections, 77);
    assert_eq!(copies[0].path, "/tmp/remote-agentd-edit-77-0");
    assert_eq!(copies[1].path, "/tmp/remote-agentd-edit-77-1");
    assert_eq!(copies[1].file_hash, sections[1].file_hash);
    assert_eq!(copies[1].edits, sections[1].edits);
    let meta = SudoMeta {
        size: 0,
        is_dir: false,
        mode: 0o644,
        owner: "app".to_string(),
        group: "www".to_string(),
        uid: 1,
        gid: 2,
    };
    assert_eq!(EditTool::restored_owner(&meta), "app:www");
}

#[test]
fn bash_waits_until_the_command_ends_or_its_time_is_up() {
    let second = 1_000_000_000;
    assert_eq!(BashTool::next_step(false, 0, 60), PollStep::Wait);
    assert_eq!(BashTool::next_step(false, 60 * second, 60), PollStep::Wait);
    assert_eq!(BashTool::next_step(false, 60 * second + 1, 60), PollStep::Kill);
    assert_eq!(BashTool::next_step(true, 60 * second + 1, 60), PollStep::Done);
    assert_eq!(BashTool::next_step(false, 1, 0), PollStep::Kill);
    assert_eq!(BashTool::next_step(false, u128::MAX, u64::MAX), PollStep::Kill);
}

// ── walk ─────────────────────────────────────────────────────────────────

#[test]
fn walks_begin_where_a_pattern_begins() {
    let plan = |path: &str, exists: bool| {
        let walk = plan_walk(path, exists);
        (walk.root, walk.pattern)
    };
    let with = |root: &str, pattern: &str| (root.to_string(), Some(pattern.to_string()));
    assert_eq!(plan("src/tools", false), ("src/tools".to_string(), None));
    assert_eq!(plan("src/[id].ts", true), ("src/[id].ts".to_string(), None));
    assert_eq!(plan("*.rs", false), with(".", "/*.rs"));
    assert_eq!(plan("src/**/*.rs", false), with("src", "/**/*.rs"));
    assert_eq!(plan("a/b?/c/d{1,2}", false), with("a", "/b?/c/d{1,2}"));
    assert_eq!(plan("/etc/*.conf", false), with("/etc", "/*.conf"));
    assert_eq!(plan("/*.txt", false), with("/", "/*.txt"));
}
