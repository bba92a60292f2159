use ulp_merge::cli::Cli;
use ulp_merge::config::Config;
use ulp_merge::progress::{push_log, Notice, ProgressReporter, MAX_LOGS};
use ulp_merge::scanner::{collect_input_files, has_matching_ext, Candidate, InputEntry, ScanError};
use ulp_merge::temp::{CreateAttempt, ScratchError, TempFileFactory};

fn file(path: &str) -> Candidate {
    Candidate {
        path: path.to_string(),
        is_file: true,
        canonical: format!("/abs/{}", path),
    }
}

fn dir_entry(path: &str) -> Candidate {
    Candidate {
        path: path.to_string(),
        is_file: false,
        canonical: format!("/abs/{}", path),
    }
}

fn tried(a: CreateAttempt) -> String {
    match a {
        CreateAttempt::TryDir(d) => d,
        CreateAttempt::GiveUp(e) => panic!("gave up: {:?}", e),
    }
}

#[test]
fn scratch_primary_is_the_output_directory() {
    let f = TempFileFactory::new(None, "data/out.txt", "/tmp".to_string());
    assert_eq!(f.primary_dir(), "data");
    assert_eq!(f.fallback_dir().map(|s| s.as_str()), Some("/tmp"));
    assert_eq!(tried(f.next_attempt(&vec![])), "data");
}

#[test]
fn scratch_primary_of_a_root_output_is_dot() {
    let f = TempFileFactory::new(None, "/", "/tmp".to_string());
    assert_eq!(f.primary_dir(), ".");
}

#[test]
fn scratch_falls_back_when_primary_fails() {
    let f = TempFileFactory::new(None, "/data/out.txt", "/tmp".to_string());
    assert_eq!(tried(f.next_attempt(&vec!["denied".to_string()])), "/tmp");
    match f.next_attempt(&vec!["denied".to_string(), "full".to_string()]) {
        CreateAttempt::GiveUp(e) => assert_eq!(
            e,
            ScratchError::BothUnavailable {
                primary: "/data".to_string(),
                primary_reason: "denied".to_string(),
                fallback: "/tmp".to_string(),
                fallback_reason: "full".to_string(),
            }
        ),
        CreateAttempt::TryDir(d) => panic!("tried {}", d),
    }
}

#[test]
fn scratch_has_no_fallback_when_directory_given() {
    let f = TempFileFactory::new(Some("custom_tmp".to_string()), "out.txt", "/tmp".to_string());
    assert_eq!(f.primary_dir(), "custom_tmp");
    assert!(f.fallback_dir().is_none());
    match f.next_attempt(&vec!["denied".to_string()]) {
        CreateAttempt::GiveUp(e) => assert_eq!(
            e,
            ScratchError::Unavailable {
                dir: "custom_tmp".to_string(),
                reason: "denied".to_string(),
            }
        ),
        CreateAttempt::TryDir(d) => panic!("tried {}", d),
    }
}

#[test]
fn scratch_has_no_fallback_when_it_is_the_primary() {
    let f = TempFileFactory::new(None, "/tmp/out.txt", "/tmp".to_string());
    assert_eq!(f.primary_dir(), "/tmp");
    assert!(f.fallback_dir().is_none());
}

#[test]
fn extension_matches_ignoring_ascii_case() {
    assert!(has_matching_ext("dir/a.txt", "txt"));
    assert!(has_matching_ext("dir/a.TXT", "txt"));
    assert!(has_matching_ext("b.tar.Gz", "gz"));
    assert!(!has_matching_ext("c.csv", "txt"));
    assert!(!has_matching_ext("noext", "txt"));
    assert!(!has_matching_ext(".txt", "txt"));
    assert!(!has_matching_ext("a.txt", "tx"));
}

#[test]
fn collects_recursive_entries() {
    let entries = vec![InputEntry::Directory(vec![
        dir_entry("d"),
        file("d/nested/b.txt"),
        file("d/nested/c.csv"),
        dir_entry("d/nested"),
        file("d/a.txt"),
    ])];
    let files = collect_input_files(entries, "txt", &"/abs/d/out.txt".to_string()).unwrap();
    assert_eq!(files, vec!["d/a.txt".to_string(), "d/nested/b.txt".to_string()]);
}

#[test]
fn skips_output_file_and_wrong_extension() {
    let entries = vec![InputEntry::Directory(vec![file("d/data.txt")])];
    let err = collect_input_files(entries, "txt", &"/abs/d/data.txt".to_string()).unwrap_err();
    assert_eq!(err, ScanError::NoInputFiles);
}

#[test]
fn invalid_input_is_reported_first() {
    let entries = vec![
        InputEntry::File(file("x.txt")),
        InputEntry::Invalid("missing".to_string()),
        InputEntry::Invalid("other".to_string()),
    ];
    let err = collect_input_files(entries, "txt", &"/abs/out".to_string()).unwrap_err();
    assert_eq!(err, ScanError::InvalidPath("missing".to_string()));
}

#[test]
fn chunk_bound_is_at_least_one() {
    let mut c = Config {
        output: "out.txt".to_string(),
        inputs: vec!["in".to_string()],
        ext: "txt".to_string(),
        recursive: false,
        chunk_lines: 0,
        temp_dir: None,
        quiet: true,
    };
    assert_eq!(c.validated_chunk_lines(), 1);
    c.chunk_lines = 7;
    assert_eq!(c.validated_chunk_lines(), 7);
}

#[test]
fn cli_becomes_config_field_for_field() {
    let cli = Cli {
        output: "o".to_string(),
        inputs: vec!["a".to_string(), "b".to_string()],
        ext: "csv".to_string(),
        recursive: true,
        chunk_lines: 5,
        temp_dir: Some("t".to_string()),
        quiet: true,
    };
    let c = cli.into_config();
    assert_eq!(c.output, "o");
    assert_eq!(c.inputs, vec!["a".to_string(), "b".to_string()]);
    assert_eq!(c.ext, "csv");
    assert!(c.recursive);
    assert_eq!(c.chunk_lines, 5);
    assert_eq!(c.temp_dir, Some("t".to_string()));
    assert!(c.quiet);
}

#[test]
fn reporter_counts_and_ticks() {
    let mut r = ProgressReporter::new(true, 0, 0);
    assert_eq!(
        r.start_file("a.txt", 10),
        Some(Notice::Processing { index: 1, total: 1, file: "a.txt".to_string() })
    );
    for _ in 0..99_999u32 {
        assert_eq!(r.on_line(20), None);
    }
    assert_eq!(
        r.on_line(20),
        Some(Notice::LinesRead { index: 1, total: 1, file: "a.txt".to_string(), lines: 100_000 })
    );
    assert_eq!(r.on_line(2019), None);
    assert!(matches!(r.on_line(2020), Some(Notice::LinesRead { lines: 100_002, .. })));
    assert_eq!(
        r.finish_file("a.txt", 3000),
        Some(Notice::FileDone { index: 1, total: 1, file: "a.txt".to_string() })
    );
    assert_eq!(r.start_merge(3, 3000), Some(Notice::MergeStarted { runs: 3 }));
    assert_eq!(r.merge_round(1, 3000), Some(Notice::MergeRound { remaining: 1 }));
    assert_eq!(
        r.finish("out.txt"),
        Some(Notice::Finished { files: 1, lines: 100_002, output: "out.txt".to_string() })
    );
}

#[test]
fn quiet_reporter_says_nothing() {
    let mut r = ProgressReporter::new(false, 2, 0);
    assert_eq!(r.start_file("a", 0), None);
    assert_eq!(r.on_line(10_000), None);
    assert_eq!(r.finish_file("a", 0), None);
    assert_eq!(r.finish("o"), None);
}

#[test]
fn log_history_keeps_the_newest() {
    let mut logs = Vec::new();
    for i in 0..MAX_LOGS + 3 {
        push_log(&mut logs, format!("line {}", i));
    }
    assert_eq!(logs.len(), MAX_LOGS);
    assert_eq!(logs[0], "line 3");
    assert_eq!(logs[MAX_LOGS - 1], format!("line {}", MAX_LOGS + 2));
}
