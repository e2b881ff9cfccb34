use arbvis::hf_cli::{
    argv_for_display, check_hf_available, download, json_args, keep_tail, last_nonempty_line,
    quiet_args, run_hf, run_hf_json, CliRun, HfCliError, STDERR_CAPTURE_LIMIT,
};
use arbvis::hf_url::HfTreeEntry;
use arbvis::throttle::{ErrorClassify, Outcome};

#[test]
fn classify_rate_limit() {
    let err = HfCliError::Exit {
        argv: "download foo/bar".into(),
        status: "exit status: 0".into(),
        stderr_excerpt: "HTTPError: 429 Too Many Requests".into(),
    };
    assert_eq!(err.classify(), Outcome::RateLimit);
}

#[test]
fn classify_timeout() {
    let err = HfCliError::Exit {
        argv: "download foo/bar".into(),
        status: "exit status: 0".into(),
        stderr_excerpt: "ConnectionError: Connection reset by peer".into(),
    };
    assert_eq!(err.classify(), Outcome::Timeout);
}

#[test]
fn classify_5xx_status_line() {
    let err = HfCliError::Exit {
        argv: "download foo/bar".into(),
        status: "exit status: 0".into(),
        stderr_excerpt: "Server returned 503 Service Unavailable".into(),
    };
    // Substring " 503 " requires a leading + trailing space.
    assert_eq!(err.classify(), Outcome::Timeout);
}

#[test]
fn classify_permanent_default() {
    let err = HfCliError::Exit {
        argv: "upload foo/bar".into(),
        status: "exit status: 0".into(),
        stderr_excerpt: "RepositoryNotFoundError: repo 'foo/bar' not found".into(),
    };
    assert_eq!(err.classify(), Outcome::Permanent);
}

#[test]
fn classify_spawn_is_permanent() {
    let err = HfCliError::Spawn { cause: "entity not found".into() };
    assert_eq!(err.classify(), Outcome::Permanent);
}

fn entry(path: &str, size: Option<u64>) -> HfTreeEntry {
    HfTreeEntry {
        path: path.to_string(),
        size,
        blob_id: None,
        xet_hash: None,
        lfs: None,
    }
}

#[test]
fn tree_entry_directory_has_no_size() {
    let entry = entry("subdir", None);
    assert!(!entry.is_file());
}

#[test]
fn tree_entry_file_has_size() {
    let entry = entry("config.json", Some(665));
    assert!(entry.is_file());
    assert_eq!(entry.size, Some(665));
}

#[test]
fn json_decode_is_permanent() {
    let err = HfCliError::JsonDecode {
        argv: "buckets ls --json".into(),
        stderr_excerpt: "timeout".into(),
        cause: "expected value".into(),
    };
    assert_eq!(err.classify(), Outcome::Permanent);
    assert_eq!(
        err.message(),
        "decoding `hf buckets ls --json` JSON output failed: expected value\nstderr tail: timeout"
    );
}

#[test]
fn failures_are_told_in_full() {
    let spawn = HfCliError::Spawn { cause: "No such file or directory (os error 2)".into() };
    assert_eq!(
        spawn.message(),
        "failed to spawn `hf` CLI (No such file or directory (os error 2)). Install with `pip install -U huggingface_hub` or `brew install huggingface-cli`."
    );
    let exit = HfCliError::Exit {
        argv: "upload a b".into(),
        status: "exit status: 2".into(),
        stderr_excerpt: "boom".into(),
    };
    assert_eq!(exit.message(), "`hf upload a b` exited exit status: 2: boom");
}

fn strings(v: &[&str]) -> Vec<String> {
    v.iter().map(|s| s.to_string()).collect()
}

#[test]
fn flags_are_appended() {
    assert_eq!(json_args(strings(&["buckets", "ls"])), ["buckets", "ls", "--json"]);
    assert_eq!(quiet_args(strings(&["download"])), ["download", "--quiet"]);
    assert_eq!(argv_for_display(&strings(&["a", "b", "c"])), "a b c");
    assert_eq!(argv_for_display(&Vec::new()), "");
}

#[test]
fn the_tail_of_a_stream_is_kept() {
    let mut kept: Vec<u8> = Vec::new();
    let mut all: Vec<u8> = Vec::new();
    for i in 0..40u8 {
        let chunk = vec![i; 333];
        all.extend_from_slice(&chunk);
        kept = keep_tail(kept, &chunk);
        let from = all.len().saturating_sub(STDERR_CAPTURE_LIMIT);
        assert_eq!(kept, &all[from..]);
    }
}

fn run(success: bool, stdout: &str) -> CliRun {
    CliRun {
        success,
        status: if success { "exit status: 0".into() } else { "exit status: 1".into() },
        stdout: stdout.as_bytes().to_vec(),
        stderr: b"warned".to_vec(),
    }
}

#[test]
fn only_the_exit_of_a_plain_run_counts() {
    let args = strings(&["sync", "a", "b"]);
    assert!(run_hf(&args, run(true, "")).is_ok());
    let err = run_hf(&args, run(false, "")).unwrap_err();
    assert_eq!(err.message(), "`hf sync a b` exited exit status: 1: warned");
    assert_eq!(run_hf_json(&args, run(true, "[]")).unwrap(), b"[]");
    assert!(run_hf_json(&args, run(false, "[]")).is_err());
}

#[test]
fn a_download_prints_its_path_last() {
    let args = strings(&["download", "o/r", "--quiet"]);
    assert_eq!(
        download(&args, run(true, "Fetching\n/cache/file.bin  \r\n\n  \n")).unwrap(),
        "/cache/file.bin"
    );
    let err = download(&args, run(true, " \n\n")).unwrap_err();
    assert_eq!(
        err.message(),
        "`hf download o/r --quiet` exited exit status: 0: `hf download --quiet` exited 0 but printed no path; stderr tail: warned"
    );
    assert!(download(&args, run(false, "/cache/file.bin")).is_err());
}

#[test]
fn blank_lines_are_skipped() {
    assert_eq!(last_nonempty_line("a\n b \n\t\n"), Some("b".to_string()));
    assert_eq!(last_nonempty_line(""), None);
}

#[test]
fn bytes_that_are_no_text_are_replaced() {
    let mut r = run(true, "");
    r.stdout = vec![b'a', 0xff, b'\n'];
    assert_eq!(download(&Vec::new(), r).unwrap(), "a\u{fffd}");
}

#[test]
fn the_version_is_trimmed() {
    assert_eq!(check_hf_available(run(true, " 1.2.3 \n")).unwrap(), "1.2.3");
    let err = check_hf_available(run(false, "")).unwrap_err();
    assert_eq!(err.message(), "`hf --version` exited exit status: 1: warned");
}
