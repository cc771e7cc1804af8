//! The record and configuration value types shared by every monitor.

use vstd::prelude::*;
use vstd::string::*;

verus! {

/// Mathematical view of a [`RequestRecord`]: every field as a plain
/// mathematical value.  All contracts in this crate speak of records
/// through this view.
pub struct RecordView {
    /// Client host the request came from.
    pub remote_host: Seq<char>,
    /// Unix timestamp of the request, in seconds.
    pub date: int,
    /// First line of the HTTP request (method, path, protocol).
    pub request: Seq<char>,
    /// HTTP status code of the response.
    pub status: int,
    /// Byte length of the response.
    pub bytes: int,
}

/// HTTP request record from input.
///
/// Records are immutable once constructed: no component of the pipeline
/// ever mutates one after creation.
pub struct RequestRecord {
    /// Client host that the request came from.
    pub remote_host: String,
    /// Unix timestamp of request.
    pub date: u32,
    /// First line of the HTTP request, with the method and path.
    pub request: String,
    /// HTTP status code of response.
    pub status: u16,
    /// Byte length of response.
    pub bytes: u64,
}

impl View for RequestRecord {
    type V = RecordView;

    open spec fn view(&self) -> RecordView {
        RecordView {
            remote_host: self.remote_host@,
            date: self.date as int,
            request: self.request@,
            status: self.status as int,
            bytes: self.bytes as int,
        }
    }
}

impl Clone for RequestRecord {
    /// Clones preserve the record's view exactly.
    fn clone(&self) -> (r: Self)
        ensures
            r@ == self@,
    {
        RequestRecord {
            remote_host: self.remote_host.clone(),
            date: self.date,
            request: self.request.clone(),
            status: self.status,
            bytes: self.bytes,
        }
    }
}

/// The views of a sequence of output lines.
pub open spec fn line_views(lines: Seq<String>) -> Seq<Seq<char>> {
    lines.map_values(|l: String| l@)
}

/// Index of the first occurrence of `c` in `s`, or `s.len()` when `c`
/// does not occur.
pub open spec fn first_index_of(s: Seq<char>, c: char) -> int
    decreases s.len(),
{
    if s.len() == 0 {
        0
    } else if s[0] == c {
        0
    } else {
        1 + first_index_of(s.drop_first(), c)
    }
}

/// `first_index_of` points at the first occurrence: everything before it
/// differs from `c`, and the index itself holds `c` unless `c` is absent.
pub proof fn lemma_first_index_of(s: Seq<char>, c: char)
    ensures
        0 <= first_index_of(s, c) <= s.len(),
        forall|k: int| 0 <= k < first_index_of(s, c) ==> s[k] != c,
        first_index_of(s, c) < s.len() ==> s[first_index_of(s, c)] == c,
    decreases s.len(),
{
    if s.len() != 0 && s[0] != c {
        lemma_first_index_of(s.drop_first(), c);
        let fi = first_index_of(s, c);
        assert forall|k: int| 0 <= k < fi implies s[k] != c by {
            if k > 0 {
                assert(s.drop_first()[k - 1] == s[k]);
            }
        }
        if fi < s.len() {
            assert(s.drop_first()[fi - 1] == s[fi]);
        }
    }
}

/// The `n`-th element of `s` split on `sep`, following the convention of
/// an iterator over separator-delimited pieces: adjacent separators give
/// empty elements, and the result is `None` once the pieces run out.
pub open spec fn split_elem(s: Seq<char>, sep: char, n: nat) -> Option<Seq<char>>
    decreases n,
{
    let i = first_index_of(s, sep);
    if n == 0 {
        Some(s.take(i))
    } else if i == s.len() {
        None
    } else {
        split_elem(s.skip(i + 1), sep, (n - 1) as nat)
    }
}

/// The section of a request line: the second piece of the path once the
/// path (the second space-separated word) is split on `/`.  A request
/// line without a path falls back to the sentinel `unknown` section.
pub open spec fn spec_section(request: Seq<char>) -> Seq<char> {
    let path = match split_elem(request, ' ', 1) {
        Some(p) => p,
        None => "/unknown"@,
    };
    match split_elem(path, '/', 1) {
        Some(sec) => sec,
        None => "unknown"@,
    }
}

/// A character scan starting at `from` that stops at the first occurrence
/// of `c` finds `first_index_of` on the suffix `s.skip(from)`.
proof fn lemma_first_index_from(s: Seq<char>, c: char, from: int, i: int)
    requires
        0 <= from <= i <= s.len(),
        forall|k: int| from <= k < i ==> s[k] != c,
        i < s.len() ==> s[i] == c,
    ensures
        first_index_of(s.skip(from), c) == i - from,
    decreases i - from,
{
    if from == i {
        if i < s.len() {
            assert(s.skip(from)[0] == s[i]);
        }
    } else {
        assert(s.skip(from)[0] == s[from]);
        lemma_first_index_from(s, c, from + 1, i);
        assert(s.skip(from).drop_first() =~= s.skip(from + 1));
    }
}

/// Finds the first occurrence of `c` in `s` at or after position `from`,
/// returning `s@.len()` when there is none.
fn find_char_from(s: &str, from: usize, c: char) -> (i: usize)
    requires
        from <= s@.len(),
    ensures
        from <= i <= s@.len(),
        forall|k: int| from <= k < i ==> s@[k] != c,
        i < s@.len() ==> s@[i as int] == c,
{
    let len = s.unicode_len();
    let mut i = from;
    while i < len
        invariant
            from <= i <= len,
            len == s@.len(),
            forall|k: int| from <= k < i ==> s@[k] != c,
        decreases len - i,
    {
        if s.get_char(i) == c {
            return i;
        }
        i = i + 1;
    }
    i
}

impl RequestRecord {
    /// Extracts the aggregation section from the request line: the piece
    /// of the URL path between its first two slashes, with `unknown` as
    /// the sentinel for malformed request lines.
    pub fn section(&self) -> (sec: &str)
        ensures
            sec@ == spec_section(self.request@),
    {
        let s: &str = self.request.as_str();
        let len = s.unicode_len();
        let i = find_char_from(s, 0, ' ');
        proof {
            lemma_first_index_from(s@, ' ', 0, i as int);
            assert(s@.skip(0) =~= s@);
        }
        let path: &str = if i == len {
            proof {
                assert(split_elem(s@, ' ', 1) is None);
            }
            "/unknown"
        } else {
            let j = find_char_from(s, i + 1, ' ');
            proof {
                lemma_first_index_from(s@, ' ', i as int + 1, j as int);
                assert(s@.skip(i as int + 1).take(j - (i as int + 1)) =~= s@.subrange(
                    i as int + 1,
                    j as int,
                ));
                assert(split_elem(s@.skip(i as int + 1), ' ', 0) == Some(
                    s@.subrange(i as int + 1, j as int),
                ));
                assert(split_elem(s@, ' ', 1) == split_elem(s@.skip(i as int + 1), ' ', 0));
            }
            s.substring_char(i + 1, j)
        };
        let plen = path.unicode_len();
        let p = find_char_from(path, 0, '/');
        proof {
            lemma_first_index_from(path@, '/', 0, p as int);
            assert(path@.skip(0) =~= path@);
        }
        if p == plen {
            proof {
                assert(split_elem(path@, '/', 1) is None);
            }
            "unknown"
        } else {
            let q = find_char_from(path, p + 1, '/');
            proof {
                lemma_first_index_from(path@, '/', p as int + 1, q as int);
                assert(path@.skip(p as int + 1).take(q - (p as int + 1)) =~= path@.subrange(
                    p as int + 1,
                    q as int,
                ));
                assert(split_elem(path@.skip(p as int + 1), '/', 0) == Some(
                    path@.subrange(p as int + 1, q as int),
                ));
                assert(split_elem(path@, '/', 1) == split_elem(path@.skip(p as int + 1), '/', 0));
            }
            path.substring_char(p + 1, q)
        }
    }
}

/// The text of a chronology-violation report.
pub open spec fn spec_chronology_message(date: int, watermark: int) -> Seq<char> {
    "chronology violation: record at "@ + crate::text::spec_decimal(date)
        + " arrived after its slot was flushed (watermark "@ + crate::text::spec_decimal(watermark)
        + ")"@
}

/// The fatal error of the core pipeline: a record arrived so far behind
/// the reordering watermark that its slot was already flushed.  The run
/// must abort rather than silently misorder or drop data.
#[derive(Clone, Copy, Debug, PartialEq, Eq, Structural)]
pub struct ChronologyError {
    /// Timestamp of the offending record.
    pub date: u32,
    /// The reordering buffer's watermark when the record arrived.
    pub watermark: u32,
}

impl ChronologyError {
    /// Renders the error as one line of text.
    pub fn message(&self) -> (s: String)
        ensures
            s@ == spec_chronology_message(self.date as int, self.watermark as int),
    {
        let mut s = String::from_str("chronology violation: record at ");
        let date_str = crate::text::u64_to_string(self.date as u64);
        s.append(date_str.as_str());
        s.append(" arrived after its slot was flushed (watermark ");
        let wm_str = crate::text::u64_to_string(self.watermark as u64);
        s.append(wm_str.as_str());
        s.append(")");
        proof {
            assert(s@ =~= spec_chronology_message(self.date as int, self.watermark as int));
        }
        s
    }
}

/// Configuration for this log monitoring program.
#[derive(Clone, Copy, PartialEq, Eq, Structural)]
pub struct Config {
    /// Number of seconds of log messages to aggregate for batch stats.
    /// This window is cleared every X seconds, each time stats are logged.
    pub stats_window: u32,
    /// Number of seconds of log messages to aggregate for alerts.
    /// This is a rolling window, with records individually dropping off X
    /// seconds after they enter.
    pub alert_window: u32,
    /// Average number of requests per second required to trigger an alert.
    pub alert_rate: u32,
    /// The margin of error on a record's timestamp, in seconds.
    pub maximum_timestamp_error: u32,
}

impl Config {
    /// A configuration is valid when every window and rate is positive;
    /// only the timestamp error margin may be zero (meaning strict
    /// ordering is required).
    pub open spec fn wf(&self) -> bool {
        &&& self.stats_window >= 1
        &&& self.alert_window >= 1
        &&& self.alert_rate >= 1
    }

    /// Seconds of buffering used by the reordering buffer: twice the
    /// permitted timestamp error.
    pub open spec fn spec_buffer_seconds(&self) -> int {
        2 * self.maximum_timestamp_error as int
    }
}

impl Default for Config {
    /// The documented default tunables: 10 s stats chunks, a 120 s alert
    /// window, a 10 req/s alert threshold and 1 s of timestamp error.
    fn default() -> (c: Self)
        ensures
            c == (Config {
                stats_window: 10,
                alert_window: 120,
                alert_rate: 10,
                maximum_timestamp_error: 1,
            }),
            c.wf(),
    {
        Config { stats_window: 10, alert_window: 120, alert_rate: 10, maximum_timestamp_error: 1 }
    }
}

} // verus!
