//! What surrounds a run of the `hf` command line tool: its arguments, the
//! bounded tail of its error stream, and what its exit and output mean.

use crate::text;
use crate::text::{chars_of, contains, join, parts, trim};
use crate::hf_url;
use crate::throttle::{ErrorClassify, Outcome};
use vstd::prelude::*;
use vstd::string::StringExecFns;

verus! {

/// Cap on captured stderr per invocation. Big enough to hold a Python
/// traceback worth diagnosing.
pub const STDERR_CAPTURE_LIMIT: usize = 4096;

/// Subprocess failure modes.
#[derive(Debug)]
pub enum HfCliError {
    /// The tool could not be started, or not be waited for.
    Spawn { cause: String },
    /// The tool exited with a failure, or without what it owed.
    Exit { argv: String, status: String, stderr_excerpt: String },
    /// What the tool printed is not the JSON that was asked for.
    JsonDecode { argv: String, stderr_excerpt: String, cause: String },
}

/// A failure of the tool.
pub ghost enum CliFault {
    Spawn { cause: Seq<char> },
    Exit { argv: Seq<char>, status: Seq<char>, stderr_excerpt: Seq<char> },
    JsonDecode { argv: Seq<char>, stderr_excerpt: Seq<char>, cause: Seq<char> },
}

impl View for HfCliError {
    type V = CliFault;

    open spec fn view(&self) -> CliFault {
        match *self {
            HfCliError::Spawn { cause } => CliFault::Spawn { cause: cause@ },
            HfCliError::Exit { argv, status, stderr_excerpt } => CliFault::Exit {
                argv: argv@,
                status: status@,
                stderr_excerpt: stderr_excerpt@,
            },
            HfCliError::JsonDecode { argv, stderr_excerpt, cause } => CliFault::JsonDecode {
                argv: argv@,
                stderr_excerpt: stderr_excerpt@,
                cause: cause@,
            },
        }
    }
}

/// The message for a failure.
pub open spec fn cli_message(f: CliFault) -> Seq<char> {
    match f {
        CliFault::Spawn { cause } => "failed to spawn `hf` CLI ("@ + cause
            + "). Install with `pip install -U huggingface_hub` or `brew install huggingface-cli`."@,
        CliFault::Exit { argv, status, stderr_excerpt } => "`hf "@ + argv + "` exited "@ + status
            + ": "@ + stderr_excerpt,
        CliFault::JsonDecode { argv, stderr_excerpt, cause } => "decoding `hf "@ + argv
            + "` JSON output failed: "@ + cause + "\nstderr tail: "@ + stderr_excerpt,
    }
}

impl HfCliError {
    /// The message for the failure.
    pub fn message(&self) -> (s: String)
        ensures
            s@ == cli_message(self@),
    {
        match self {
            HfCliError::Spawn { cause } => "failed to spawn `hf` CLI (".to_owned().concat(
                cause.as_str(),
            ).concat(
                "). Install with `pip install -U huggingface_hub` or `brew install huggingface-cli`.",
            ),
            HfCliError::Exit { argv, status, stderr_excerpt } => "`hf ".to_owned().concat(
                argv.as_str(),
            ).concat("` exited ").concat(status.as_str()).concat(": ").concat(
                stderr_excerpt.as_str(),
            ),
            HfCliError::JsonDecode {
                argv,
                stderr_excerpt,
                cause,
            } => "decoding `hf ".to_owned().concat(argv.as_str()).concat(
                "` JSON output failed: ",
            ).concat(cause.as_str()).concat("\nstderr tail: ").concat(stderr_excerpt.as_str()),
        }
    }
}

/// A character with an ASCII capital made small.
pub open spec fn ascii_lower_char(c: char) -> char {
    if 'A' <= c && c <= 'Z' {
        (c as u32 + 32) as char
    } else {
        c
    }
}

/// A text with its ASCII capitals made small.
pub open spec fn ascii_lower(s: Seq<char>) -> Seq<char> {
    s.map_values(|c: char| ascii_lower_char(c))
}

fn to_ascii_lower(s: &str) -> (r: String)
    ensures
        r@ == ascii_lower(s@),
{
    let v = chars_of(s);
    let mut out = String::new();
    let mut i: usize = 0;
    while i < v.len()
        invariant
            i <= v@.len(),
            v@ == s@,
            out@ == ascii_lower(s@.take(i as int)),
        decreases v@.len() - i,
    {
        let c = v[i];
        if 'A' <= c && c <= 'Z' {
            out.push((c as u8 + 32) as char);
        } else {
            out.push(c);
        }
        i = i + 1;
        assert(out@ =~= ascii_lower(s@.take(i as int)));
    }
    assert(s@.take(i as int) =~= s@);
    out
}

/// What an error text says of a rate limit.
pub open spec fn says_rate_limit(s: Seq<char>) -> bool {
    text::has(s, "429"@) || text::has(s, "rate limit"@) || text::has(s, "rate-limit"@) || text::has(
        s,
        "too many requests"@,
    )
}

/// What an error text says of a failure that may pass.
pub open spec fn says_transient(s: Seq<char>) -> bool {
    text::has(s, "timeout"@) || text::has(s, "timed out"@) || text::has(s, "connection reset"@)
        || text::has(s, "connection refused"@) || text::has(s, "connection error"@) || text::has(
        s,
        "temporarily unavailable"@,
    ) || text::has(s, " 500 "@) || text::has(s, " 502 "@) || text::has(s, " 503 "@) || text::has(
        s,
        " 504 "@,
    )
}

/// How a failure of the tool is to be taken. The tool exposes no structured
/// errors, so its error text decides, in whatever case it is written; a tool
/// that is missing or prints no JSON will not mend itself.
pub open spec fn fault_outcome(f: CliFault) -> Outcome {
    match f {
        CliFault::Exit { stderr_excerpt, .. } => {
            let s = ascii_lower(stderr_excerpt);
            if says_rate_limit(s) {
                Outcome::RateLimit
            } else if says_transient(s) {
                Outcome::Timeout
            } else {
                Outcome::Permanent
            }
        },
        _ => Outcome::Permanent,
    }
}

impl ErrorClassify for HfCliError {
    open spec fn outcome(&self) -> Outcome {
        fault_outcome(self@)
    }

    fn classify(&self) -> (r: Outcome) {
        match self {
            HfCliError::Spawn { .. } => Outcome::Permanent,
            HfCliError::JsonDecode { .. } => Outcome::Permanent,
            HfCliError::Exit { stderr_excerpt, .. } => {
                let lower = to_ascii_lower(stderr_excerpt.as_str());
                let s = lower.as_str();
                if contains(s, "429") || contains(s, "rate limit") || contains(s, "rate-limit")
                    || contains(s, "too many requests") {
                    Outcome::RateLimit
                } else if contains(s, "timeout") || contains(s, "timed out") || contains(
                    s,
                    "connection reset",
                ) || contains(s, "connection refused") || contains(s, "connection error")
                    || contains(s, "temporarily unavailable") || contains(s, " 500 ") || contains(
                    s,
                    " 502 ",
                ) || contains(s, " 503 ") || contains(s, " 504 ") {
                    Outcome::Timeout
                } else {
                    Outcome::Permanent
                }
            },
        }
    }
}

/// The last `STDERR_CAPTURE_LIMIT` bytes of a stream, all of it where it is
/// shorter.
pub open spec fn tail_of(s: Seq<u8>) -> Seq<u8> {
    if s.len() <= STDERR_CAPTURE_LIMIT {
        s
    } else {
        s.skip(s.len() - STDERR_CAPTURE_LIMIT)
    }
}

/// Slides the captured tail over the next chunk of the stream, dropping the
/// oldest bytes to make room.
pub fn keep_tail(buf: Vec<u8>, chunk: &[u8]) -> (r: Vec<u8>)
    requires
        buf@.len() <= STDERR_CAPTURE_LIMIT,
        chunk@.len() <= STDERR_CAPTURE_LIMIT,
    ensures
        r@ == tail_of(buf@ + chunk@),
{
    let mut out: Vec<u8> = Vec::new();
    let total: usize = buf.len() + chunk.len();
    let from: usize = if total > STDERR_CAPTURE_LIMIT { total - STDERR_CAPTURE_LIMIT } else { 0 };
    let mut i: usize = from;
    while i < buf.len()
        invariant
            from <= i,
            i <= buf@.len() || i == from,
            out@ == buf@.subrange(from as int, i as int) || (out@.len() == 0 && i == from),
            out@.len() == i - from,
        decreases buf@.len() - i,
    {
        out.push(buf[i]);
        i = i + 1;
        assert(out@ =~= buf@.subrange(from as int, i as int));
    }
    let ghost head = out@;
    let mut k: usize = 0;
    while k < chunk.len()
        invariant
            k <= chunk@.len(),
            out@ == head + chunk@.take(k as int),
        decreases chunk@.len() - k,
    {
        out.push(chunk[k]);
        k = k + 1;
        assert(out@ =~= head + chunk@.take(k as int));
    }
    assert(chunk@.take(k as int) =~= chunk@);
    assert(out@ =~= tail_of(buf@ + chunk@));
    out
}

/// Keeping the tail chunk by chunk keeps the tail of the whole stream: however
/// the stream is cut, what is kept is its last bytes.
pub proof fn tails_compose(stream: Seq<u8>, chunk: Seq<u8>)
    ensures
        tail_of(tail_of(stream) + chunk) == tail_of(stream + chunk),
        tail_of(stream).len() <= STDERR_CAPTURE_LIMIT,
{
    assert(tail_of(tail_of(stream) + chunk) =~= tail_of(stream + chunk));
}

/// The arguments in one line, for messages.
pub fn argv_for_display(args: &Vec<String>) -> (s: String)
    ensures
        s@ == text::joined(hf_url::strings(args@), " "@),
{
    join(args, " ")
}

fn with_flag(args: Vec<String>, flag: &str) -> (r: Vec<String>)
    ensures
        hf_url::strings(r@) == hf_url::strings(args@).push(flag@),
{
    let mut out = args;
    out.push(flag.to_owned());
    assert(hf_url::strings(out@) =~= hf_url::strings(args@).push(flag@));
    out
}

/// The arguments of a call whose output is read as JSON.
pub fn json_args(args: Vec<String>) -> (r: Vec<String>)
    ensures
        hf_url::strings(r@) == hf_url::strings(args@).push("--json"@),
{
    with_flag(args, "--json")
}

/// The arguments of a download that prints nothing but the resulting path.
pub fn quiet_args(args: Vec<String>) -> (r: Vec<String>)
    ensures
        hf_url::strings(r@) == hf_url::strings(args@).push("--quiet"@),
{
    with_flag(args, "--quiet")
}

/// What `String::from_utf8_lossy` of `std` makes of bytes that are no UTF-8.
pub uninterp spec fn mended_text(b: Seq<u8>) -> Seq<char>;

/// Bytes read as UTF-8, with a replacement for what is none.
pub open spec fn lossy_text(b: Seq<u8>) -> Seq<char> {
    if vstd::utf8::valid_utf8(b) {
        vstd::utf8::decode_utf8(b)
    } else {
        mended_text(b)
    }
}

/// `String::from_utf8_lossy` of `std`: the text that valid UTF-8 encodes; what
/// is no UTF-8 is replaced as `std` replaces it, decided by the bytes alone.
#[verifier::external_body]
fn text_from_lossy(b: &[u8]) -> (s: String)
    ensures
        s@ == if vstd::utf8::valid_utf8(b@) {
            vstd::utf8::decode_utf8(b@)
        } else {
            mended_text(b@)
        },
{
    String::from_utf8_lossy(b).into_owned()
}

/// What is left of a run of the tool.
#[derive(Debug)]
pub struct CliRun {
    pub success: bool,
    /// How the exit status is shown.
    pub status: String,
    pub stdout: Vec<u8>,
    /// The tail of the error stream.
    pub stderr: Vec<u8>,
}

/// The fault of a run that failed.
pub open spec fn exit_fault(args: Seq<Seq<char>>, run: CliRun) -> CliFault {
    CliFault::Exit {
        argv: text::joined(args, " "@),
        status: run.status@,
        stderr_excerpt: lossy_text(run.stderr@),
    }
}

/// What a run says that is made for its effect: only its exit counts.
pub fn run_hf(args: &Vec<String>, run: CliRun) -> (r: Result<(), HfCliError>)
    ensures
        match r {
            Ok(_) => run.success,
            Err(e) => !run.success && e@ == exit_fault(hf_url::strings(args@), run),
        },
{
    if !run.success {
        return Err(
            HfCliError::Exit {
                argv: argv_for_display(args),
                status: run.status,
                stderr_excerpt: text_from_lossy(run.stderr.as_slice()),
            },
        );
    }
    Ok(())
}

/// The output of a run that is read as JSON.
pub fn run_hf_json(args: &Vec<String>, run: CliRun) -> (r: Result<Vec<u8>, HfCliError>)
    ensures
        match r {
            Ok(b) => run.success && b@ == run.stdout@,
            Err(e) => !run.success && e@ == exit_fault(hf_url::strings(args@), run),
        },
{
    if !run.success {
        return Err(
            HfCliError::Exit {
                argv: argv_for_display(args),
                status: run.status,
                stderr_excerpt: text_from_lossy(run.stderr.as_slice()),
            },
        );
    }
    Ok(run.stdout)
}

/// The last of some lines that holds more than white space, without the white
/// space at its ends.
pub open spec fn last_line_among(lines: Seq<Seq<char>>) -> Option<Seq<char>>
    decreases lines.len(),
{
    if lines.len() == 0 {
        None
    } else if text::trimmed(lines.last()).len() > 0 {
        Some(text::trimmed(lines.last()))
    } else {
        last_line_among(lines.drop_last())
    }
}

/// The last line of a text that holds more than white space, trimmed.
pub open spec fn last_line(s: Seq<char>) -> Option<Seq<char>> {
    last_line_among(text::parts_from(s, '\n', 0))
}

/// The last line of a text that holds more than white space, trimmed.
pub fn last_nonempty_line(s: &str) -> (r: Option<String>)
    ensures
        hf_url::optional_text(r) == last_line(s@),
{
    let lines = parts(s, '\n');
    let ghost ts = lines@.map_values(|p: String| p@);
    let mut n: usize = lines.len();
    assert(ts.take(n as int) =~= ts);
    while n > 0
        invariant
            n <= lines@.len(),
            ts == lines@.map_values(|p: String| p@),
            ts == text::parts_from(s@, '\n', 0),
            last_line_among(ts.take(n as int)) == last_line(s@),
        decreases n,
    {
        let t = trim(lines[n - 1].as_str());
        assert(ts.take(n as int).last() == lines@[n - 1]@);
        if t.as_str().unicode_len() > 0 {
            return Some(t);
        }
        assert(ts.take(n as int).drop_last() =~= ts.take(n - 1));
        n = n - 1;
    }
    None
}

/// What is said of a download that printed no path.
pub open spec fn no_path_text(stderr: Seq<char>) -> Seq<char> {
    "`hf download --quiet` exited 0 but printed no path; stderr tail: "@ + stderr
}

/// The local path that a download printed: the last line of its output that is
/// not blank, so that incidental leading output does not corrupt the path.
pub fn download(args: &Vec<String>, run: CliRun) -> (r: Result<String, HfCliError>)
    ensures
        match r {
            Ok(p) => run.success && last_line(lossy_text(run.stdout@)) == Some(p@),
            Err(e) => if run.success {
                &&& last_line(lossy_text(run.stdout@)) is None
                &&& e@ == (CliFault::Exit {
                    argv: text::joined(hf_url::strings(args@), " "@),
                    status: run.status@,
                    stderr_excerpt: no_path_text(lossy_text(run.stderr@)),
                })
            } else {
                e@ == exit_fault(hf_url::strings(args@), run)
            },
        },
{
    let stderr = text_from_lossy(run.stderr.as_slice());
    if !run.success {
        return Err(
            HfCliError::Exit {
                argv: argv_for_display(args),
                status: run.status,
                stderr_excerpt: stderr,
            },
        );
    }
    let text = text_from_lossy(run.stdout.as_slice());
    match last_nonempty_line(text.as_str()) {
        Some(path) => Ok(path),
        None => Err(
            HfCliError::Exit {
                argv: argv_for_display(args),
                status: run.status,
                stderr_excerpt: "`hf download --quiet` exited 0 but printed no path; stderr tail: ".to_owned().concat(
                    stderr.as_str()),
            },
        ),
    }
}

/// The version that the tool printed.
pub fn check_hf_available(run: CliRun) -> (r: Result<String, HfCliError>)
    ensures
        match r {
            Ok(v) => run.success && v@ == text::trimmed(lossy_text(run.stdout@)),
            Err(e) => !run.success && e@ == (CliFault::Exit {
                argv: "--version"@,
                status: run.status@,
                stderr_excerpt: lossy_text(run.stderr@),
            }),
        },
{
    if !run.success {
        return Err(
            HfCliError::Exit {
                argv: "--version".to_owned(),
                status: run.status,
                stderr_excerpt: text_from_lossy(run.stderr.as_slice()),
            },
        );
    }
    Ok(trim(text_from_lossy(run.stdout.as_slice()).as_str()))
}

} // verus!
