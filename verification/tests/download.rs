use arbvis::download::{
    download_jobs, in_job_order, materialize_http_sources, parse_number, populate_xet_terms,
    stall_secs, stalled_secs, DownloadAttemptError, DEFAULT_DOWNLOAD_STALL_SECS,
};
use arbvis::hf_url::{make_remote_repo, parse, RemoteFileSpec};
use arbvis::source::{Source, SourceKind};
use arbvis::throttle::{ErrorClassify, Outcome, RequestFailure};

#[test]
fn numbers_are_read() {
    assert_eq!(parse_number("30"), Some(30));
    assert_eq!(parse_number("+7"), Some(7));
    assert_eq!(parse_number("18446744073709551615"), Some(u64::MAX));
    assert_eq!(parse_number("18446744073709551616"), None);
    assert_eq!(parse_number("99999999999999999999999"), None);
    for s in ["", "+", "-1", " 1", "1 ", "1x", "x"] {
        assert_eq!(parse_number(s), None);
    }
}

#[test]
fn the_stall_limit_can_be_configured() {
    assert_eq!(stall_secs(None), DEFAULT_DOWNLOAD_STALL_SECS);
    assert_eq!(stall_secs(Some("nonsense")), 30);
    assert_eq!(stall_secs(Some("120")), 120);
}

#[test]
fn silence_is_noticed() {
    assert_eq!(stalled_secs(29_999, 0, 30), None);
    assert_eq!(stalled_secs(30_000, 0, 30), Some(30));
    assert_eq!(stalled_secs(31_999, 0, 30), Some(31));
    assert_eq!(stalled_secs(0, 10_000, 30), None);
}

#[test]
fn stalls_are_transient() {
    let e = DownloadAttemptError::Stalled { filename: "a.bin".to_string(), idle_secs: 31 };
    assert_eq!(e.classify(), Outcome::Timeout);
    assert_eq!(
        e.message(),
        "a.bin: no progress for 31s — treating as transient timeout"
    );
    let e = DownloadAttemptError::Request {
        failure: RequestFailure { status: Some(404), transport: false },
        text: "not found".to_string(),
    };
    assert_eq!(e.classify(), Outcome::Permanent);
    assert_eq!(e.message(), "not found");
}

#[test]
fn answers_are_put_in_job_order() {
    let answers: Vec<(usize, Result<&str, &str>)> =
        vec![(2, Ok("c")), (0, Ok("a")), (3, Ok("d")), (1, Ok("b"))];
    assert_eq!(in_job_order(answers).unwrap(), ["a", "b", "c", "d"]);
    let answers: Vec<(usize, Result<&str, &str>)> =
        vec![(2, Err("late")), (0, Ok("a")), (1, Err("early"))];
    assert_eq!(in_job_order(answers).unwrap_err(), "early");
    let none: Vec<(usize, Result<&str, &str>)> = Vec::new();
    assert!(in_job_order(none).unwrap().is_empty());
}

fn source(i: usize, kind: SourceKind) -> Source {
    Source { file_idx: i, kind, byte_size: 10, safetensors: None, name_override: None }
}

fn remote(name: &str) -> SourceKind {
    SourceKind::Http(RemoteFileSpec {
        repo: make_remote_repo(&parse("hf://o/r").unwrap()).unwrap(),
        filename: name.to_string(),
        revision: "main".to_string(),
        size: 10,
        xet_hash: None,
    })
}

#[test]
fn remote_sources_become_files() {
    let sources = vec![
        source(0, remote("sub/a.bin")),
        source(1, SourceKind::File("local.bin".to_string())),
        source(2, remote("b.bin")),
    ];
    assert_eq!(download_jobs(&sources), [0, 2]);
    let out = materialize_http_sources(sources, vec!["/c/1".to_string(), "/c/2".to_string()]);
    assert!(matches!(&out[0].kind, SourceKind::File(p) if p == "/c/1"));
    assert!(matches!(&out[1].kind, SourceKind::File(p) if p == "local.bin"));
    assert!(matches!(&out[2].kind, SourceKind::File(p) if p == "/c/2"));
    assert_eq!(out[0].name(), "sub/a.bin");
    assert_eq!(out[1].name(), "local.bin");
    assert_eq!(out[2].name(), "b.bin");
    assert_eq!(out[2].file_idx, 2);
}

#[test]
fn terms_go_to_their_source() {
    let mut terms: Vec<Option<Vec<u8>>> = vec![None, None, None];
    let answers: Vec<(usize, Result<Vec<u8>, &str>)> =
        vec![(2, Ok(vec![7])), (0, Ok(vec![1, 2])), (1, Ok(Vec::new()))];
    assert_eq!(populate_xet_terms(&mut terms, answers), Ok(()));
    assert_eq!(terms, [Some(vec![1, 2]), Some(Vec::new()), Some(vec![7])]);
}

#[test]
fn the_first_source_without_terms_decides_the_error() {
    let mut terms: Vec<Option<Vec<u8>>> = vec![None, None, None, None];
    let answers: Vec<(usize, Result<Vec<u8>, &str>)> =
        vec![(3, Err("late")), (2, Ok(vec![7])), (1, Err("early")), (0, Ok(vec![1]))];
    assert_eq!(populate_xet_terms(&mut terms, answers), Err("early"));
    assert_eq!(terms, [Some(vec![1]), None, None, None]);
}
