//! Classification logging: switch, file naming and UTC timestamps.

use vstd::prelude::*;
use crate::calendar::{date_of_days, days_to_ymd};
use crate::text::{push_char, push_zero_padded, zero_padded};

verus! {

/// `secs` seconds after the Unix epoch rendered as `YYYY-MM-DDTHH:MM:SSZ`.
pub open spec fn iso8601_text(secs: nat) -> Seq<char> {
    let date = date_of_days((secs / 86400) as int);
    let time_of_day = secs % 86400;
    zero_padded(date.0 as nat, 4) + seq!['-'] + zero_padded(date.1 as nat, 2) + seq!['-']
        + zero_padded(date.2 as nat, 2) + seq!['T'] + zero_padded(time_of_day / 3600, 2)
        + seq![':'] + zero_padded((time_of_day % 3600) / 60, 2) + seq![':']
        + zero_padded(time_of_day % 60, 2) + seq!['Z']
}

/// Render `secs` seconds after the Unix epoch as an ISO 8601 UTC timestamp.
pub fn iso8601_from_unix_secs(secs: u64) -> (s: String)
    ensures
        s@ == iso8601_text(secs as nat),
{
    let days = secs / 86400;
    let time_of_day = secs % 86400;
    let hours = time_of_day / 3600;
    let minutes = (time_of_day % 3600) / 60;
    let seconds = time_of_day % 60;
    let (year, month, day) = days_to_ymd(days);
    proof {
        reveal_strlit("-");
        reveal_strlit("T");
        reveal_strlit(":");
        reveal_strlit("Z");
    }
    let mut s = String::new();
    push_zero_padded(&mut s, year, 4);
    s.append("-");
    push_zero_padded(&mut s, month, 2);
    s.append("-");
    push_zero_padded(&mut s, day, 2);
    s.append("T");
    push_zero_padded(&mut s, hours, 2);
    s.append(":");
    push_zero_padded(&mut s, minutes, 2);
    s.append(":");
    push_zero_padded(&mut s, seconds, 2);
    s.append("Z");
    proof {
        assert(s@ =~= iso8601_text(secs as nat));
    }
    s
}

/// `SystemTime::elapsed` on `UNIX_EPOCH`: how long ago the epoch was by the
/// system clock, or `None` when the clock reads a time before it. Nothing is
/// stated of the value: it is the current time.
#[verifier::external_body]
fn unix_epoch_elapsed() -> (d: Option<std::time::Duration>) {
    std::time::UNIX_EPOCH.elapsed().ok()
}

/// `Duration::as_secs`: the whole seconds of `d`. `Duration` is opaque to the
/// proofs here, so the value is not described.
#[verifier::external_body]
fn whole_seconds(d: std::time::Duration) -> (secs: u64) {
    d.as_secs()
}

/// ISO 8601 timestamp for a clock reading: the whole seconds since the Unix
/// epoch, or `None` for a clock set before the epoch, which reads as the
/// epoch itself (1970-01-01T00:00:00Z).
pub fn iso8601_from_clock(elapsed_secs: Option<u64>) -> (s: String)
    ensures
        s@ == iso8601_text(match elapsed_secs { Some(secs) => secs as nat, None => 0 }),
{
    match elapsed_secs {
        Some(secs) => iso8601_from_unix_secs(secs),
        None => iso8601_from_unix_secs(0),
    }
}

/// ISO 8601 timestamp of the current UTC time.
pub fn now_iso8601() -> (s: String)
    ensures
        exists|secs: u64| s@ == iso8601_text(secs as nat),
{
    let elapsed = match unix_epoch_elapsed() {
        Some(d) => Some(whole_seconds(d)),
        None => None,
    };
    iso8601_from_clock(elapsed)
}

} // verus!

verus! {

/// What one character of a timestamp becomes in a file name: `:` turns
/// into `-`, `T` into `_`, `Z` is dropped and every other character stays.
pub open spec fn sanitized_char(c: char) -> Seq<char> {
    if c == ':' {
        seq!['-']
    } else if c == 'T' {
        seq!['_']
    } else if c == 'Z' {
        seq![]
    } else {
        seq![c]
    }
}

/// A timestamp with the characters that are awkward in file names replaced.
pub open spec fn sanitized(s: Seq<char>) -> Seq<char>
    decreases s.len(),
{
    if s.len() == 0 {
        seq![]
    } else {
        sanitized(s.drop_last()) + sanitized_char(s.last())
    }
}

fn push_sanitized_char(out: &mut String, c: char)
    ensures
        final(out)@ == old(out)@ + sanitized_char(c),
{
    if c == ':' {
        proof { reveal_strlit("-"); }
        out.append("-");
    } else if c == 'T' {
        proof { reveal_strlit("_"); }
        out.append("_");
    } else if c == 'Z' {
        proof { assert(old(out)@ + sanitized_char(c) =~= old(out)@); }
    } else {
        push_char(out, c);
    }
}

/// Replace characters that are problematic in filenames.
pub fn sanitize_timestamp(ts: &str) -> (r: String)
    ensures
        r@ == sanitized(ts@),
{
    let mut out = String::new();
    let ghost whole = ts@;
    for c in it: ts.chars()
        invariant
            it.seq() == whole,
            out@ == sanitized(whole.take(it.index() as int)),
    {
        push_sanitized_char(&mut out, c);
        proof {
            assert(whole.take(it.index() + 1).drop_last() =~= whole.take(it.index() as int));
        }
    }
    proof {
        assert(whole.take(whole.len() as int) =~= whole);
    }
    out
}

/// A sanitized timestamp holds no `:`, `T` or `Z`.
pub proof fn lemma_sanitized_has_no_separators(s: Seq<char>)
    ensures
        forall|i: int| 0 <= i < sanitized(s).len() ==> {
            let c = #[trigger] sanitized(s)[i];
            c != ':' && c != 'T' && c != 'Z'
        },
    decreases s.len(),
{
    if s.len() > 0 {
        lemma_sanitized_has_no_separators(s.drop_last());
        let a = sanitized(s.drop_last());
        let b = sanitized_char(s.last());
        assert forall|i: int| 0 <= i < sanitized(s).len() implies {
            let c = #[trigger] sanitized(s)[i];
            c != ':' && c != 'T' && c != 'Z'
        } by {
            if i < a.len() {
                assert(sanitized(s)[i] == a[i]);
            } else {
                assert(sanitized(s)[i] == b[i - a.len()]);
            }
        }
    }
}

} // verus!

verus! {

/// Name of the environment variable that switches classification logging on.
pub const ENV_VAR: &'static str = "PLANTASTIC_LOG_CLASSIFICATIONS";

/// Directory the classification log files are written to.
pub const LOG_DIR: &'static str = "data/classification_log";

/// `c` with ASCII upper-case letters mapped to lower case.
pub open spec fn ascii_lowercase(c: char) -> char {
    if 'A' <= c && c <= 'Z' { ((c as u32) + 32) as char } else { c }
}

/// Whether the value of the logging environment variable turns logging on:
/// it is `1`, or `true` in any ASCII letter case.
pub open spec fn env_flag_on(v: Seq<char>) -> bool {
    ||| v == seq!['1']
    ||| (v.len() == 4 && ascii_lowercase(v[0]) == 't' && ascii_lowercase(v[1]) == 'r'
        && ascii_lowercase(v[2]) == 'u' && ascii_lowercase(v[3]) == 'e')
}

fn lower_ascii(c: char) -> (r: char)
    ensures
        r == ascii_lowercase(c),
{
    if 'A' <= c && c <= 'Z' {
        ((c as u8) + 32) as char
    } else {
        c
    }
}

/// Whether an environment value enables logging (`"1"` or, ignoring ASCII
/// case, `"true"`).
pub fn env_flag_enabled(v: &str) -> (on: bool)
    ensures
        on == env_flag_on(v@),
{
    let n = v.unicode_len();
    if n == 1 {
        let c = v.get_char(0);
        proof {
            if c == '1' {
                assert(v@ =~= seq!['1']);
            }
        }
        c == '1'
    } else if n == 4 {
        lower_ascii(v.get_char(0)) == 't' && lower_ascii(v.get_char(1)) == 'r'
            && lower_ascii(v.get_char(2)) == 'u' && lower_ascii(v.get_char(3)) == 'e'
    } else {
        false
    }
}

/// File name of a log for `scan_id` written at `timestamp`:
/// `{scan_id}_{sanitized timestamp}.jsonl`.
pub open spec fn log_file_name_text(scan_id: Seq<char>, timestamp: Seq<char>) -> Seq<char> {
    scan_id + seq!['_'] + sanitized(timestamp) + seq!['.', 'j', 's', 'o', 'n', 'l']
}

/// Name of the JSONL file that one logging call writes.
pub fn log_file_name(scan_id: &str, timestamp: &str) -> (r: String)
    ensures
        r@ == log_file_name_text(scan_id@, timestamp@),
{
    proof {
        reveal_strlit("_");
        reveal_strlit(".jsonl");
    }
    let mut name = String::from_str(scan_id);
    name.append("_");
    let clean = sanitize_timestamp(timestamp);
    name.append(clean.as_str());
    name.append(".jsonl");
    proof {
        assert(name@ =~= log_file_name_text(scan_id@, timestamp@));
    }
    name
}

} // verus!

verus! {

/// `std::path::PathBuf`, carried opaquely as the log directory.
#[verifier::external_type_specification]
#[verifier::external_body]
pub struct ExPathBuf(std::path::PathBuf);

/// The path that `PathBuf::from` builds from the string `s`.
pub uninterp spec fn path_buf_of(s: Seq<char>) -> std::path::PathBuf;

/// `PathBuf::from` on a string slice: the path built from the string's
/// characters, named `path_buf_of`. Its components are not described.
#[verifier::external_body]
fn path_buf_from(s: &str) -> (p: std::path::PathBuf)
    ensures
        p == path_buf_of(s@),
{
    std::path::PathBuf::from(s)
}

/// Context metadata for a classification run.
#[derive(Debug, Clone)]
pub struct ClassificationContext {
    pub address: String,
    pub climate_zone: String,
}

/// Logger of classification runs, one JSONL file per logging call.
#[derive(Debug)]
pub struct ClassificationLogger {
    scan_id: String,
    enabled: bool,
    log_dir: std::path::PathBuf,
}

impl ClassificationLogger {
    /// Identifier of the scan this logger writes for.
    pub closed spec fn spec_scan_id(&self) -> Seq<char> {
        self.scan_id@
    }

    /// Whether this logger writes anything.
    pub closed spec fn spec_enabled(&self) -> bool {
        self.enabled
    }

    /// The output directory of this logger.
    pub closed spec fn spec_log_dir(&self) -> std::path::PathBuf {
        self.log_dir
    }

    /// A logger for `scan_id` writing under the default log directory,
    /// switched on by `env_value`, the value of [`ENV_VAR`] if it is set.
    pub fn new(scan_id: String, env_value: Option<&str>) -> (r: Self)
        ensures
            r.spec_scan_id() == scan_id@,
            r.spec_log_dir() == path_buf_of(LOG_DIR@),
            r.spec_enabled() == (match env_value {
                Some(v) => env_flag_on(v@),
                None => false,
            }),
    {
        let enabled = match env_value {
            Some(v) => env_flag_enabled(v),
            None => false,
        };
        ClassificationLogger { scan_id, enabled, log_dir: path_buf_from(LOG_DIR) }
    }

    /// An enabled logger with a custom output directory.
    pub fn with_dir(scan_id: String, log_dir: std::path::PathBuf) -> (r: Self)
        ensures
            r.spec_scan_id() == scan_id@,
            r.spec_enabled(),
            r.spec_log_dir() == log_dir,
    {
        ClassificationLogger { scan_id, enabled: true, log_dir }
    }

    /// Whether logging is enabled.
    pub fn is_enabled(&self) -> (r: bool)
        ensures
            r == self.spec_enabled(),
    {
        self.enabled
    }

    /// Identifier of the scan.
    pub fn scan_id(&self) -> (r: &str)
        ensures
            r@ == self.spec_scan_id(),
    {
        self.scan_id.as_str()
    }

    /// The output directory.
    pub fn log_dir(&self) -> (r: &std::path::PathBuf)
        ensures
            *r == self.spec_log_dir(),
    {
        &self.log_dir
    }

    /// Name of the file that a logging call at `timestamp` writes, or `None`
    /// when logging is off and nothing is to be written.
    pub fn file_name_for(&self, timestamp: &str) -> (r: Option<String>)
        ensures
            match r {
                Some(name) => self.spec_enabled() && name@ == log_file_name_text(self.spec_scan_id(), timestamp@),
                None => !self.spec_enabled(),
            },
    {
        if !self.enabled {
            return None;
        }
        Some(log_file_name(self.scan_id.as_str(), timestamp))
    }
}

} // verus!
