use chrono::{TimeZone, Utc};
use vstd::prelude::*;

use crate::history::{entries_view, window, lines_view, select_window, HistoryEntry, HistoryWindow};

verus! {

/// The calendar rendering `YYYY-MM-DD HH:MM:SS` (UTC) of a Unix timestamp, where chrono
/// can represent it.
pub uninterp spec fn calendar_text(ts: int) -> Option<Seq<char>>;

/// The human-readable rendering of a span of whole seconds, such as `2h 14m`.
pub uninterp spec fn duration_text(secs: int) -> Seq<char>;

/// Relies on chrono's `Utc.timestamp_opt(ts, 0)` and `DateTime::format` with
/// `%Y-%m-%d %H:%M:%S`: the rendering depends on the timestamp alone; `None` where chrono
/// has no single instant for it.
#[verifier::external_body]
fn calendar_time(ts: i64) -> (r: Option<String>)
    ensures
        r matches Some(t) ==> calendar_text(ts as int) == Some(t@),
        r is None ==> calendar_text(ts as int) is None,
{
    match Utc.timestamp_opt(ts, 0) {
        chrono::LocalResult::Single(t) => Some(t.format("%Y-%m-%d %H:%M:%S").to_string()),
        _ => None,
    }
}

/// Relies on humantime's `format_duration`: the rendering depends on the span alone, and
/// a zero span reads `0s`.
#[verifier::external_body]
fn format_elapsed(secs: u64) -> (r: String)
    ensures
        r@ == duration_text(secs as int),
        secs == 0 ==> r@ == "0s"@,
{
    humantime::format_duration(std::time::Duration::from_secs(secs)).to_string()
}

/// A history entry as it goes into the context bundle.
#[derive(Debug, Clone, PartialEq, Eq)]
pub struct CommandRecord {
    pub timestamp: i64,
    pub formatted_time: String,
    pub relative_time: String,
    pub exit_code: String,
    pub command: String,
}

/// The calendar label of a timestamp, or `Invalid timestamp`.
pub open spec fn time_label(ts: int) -> Seq<char> {
    match calendar_text(ts) {
        Some(t) => t,
        None => "Invalid timestamp"@,
    }
}

/// Whole seconds from `ts` to `now`; none for a timestamp in the future.
pub open spec fn elapsed(now: int, ts: int) -> int {
    if now > ts {
        now - ts
    } else {
        0
    }
}

pub open spec fn describes(r: CommandRecord, e: (int, Seq<char>, Seq<char>), now: int) -> bool {
    &&& r.timestamp == e.0
    &&& r.formatted_time@ == time_label(e.0)
    &&& r.relative_time@ == duration_text(elapsed(now, e.0))
    &&& r.exit_code@ == e.1
    &&& r.command@ == e.2
}

pub open spec fn describes_all(rs: Seq<CommandRecord>, es: Seq<(int, Seq<char>, Seq<char>)>, now: int) -> bool {
    &&& rs.len() == es.len()
    &&& forall|i: int| 0 <= i < rs.len() ==> describes(#[trigger] rs[i], es[i], now)
}

/// The record of `entry` as seen at time `now`.
pub fn describe_entry(entry: &HistoryEntry, now: i64) -> (r: CommandRecord)
    ensures
        describes(r, entry@, now as int),
{
    let formatted_time = match calendar_time(entry.timestamp) {
        Some(t) => t,
        None => String::from_str("Invalid timestamp"),
    };
    let secs: u64 = if now > entry.timestamp {
        (now as i128 - entry.timestamp as i128) as u64
    } else {
        0
    };
    CommandRecord {
        timestamp: entry.timestamp,
        formatted_time,
        relative_time: format_elapsed(secs),
        exit_code: entry.exit_code.clone(),
        command: entry.command.clone(),
    }
}

/// The records of `entries`, in order, as seen at time `now`.
pub fn describe_history(entries: &Vec<HistoryEntry>, now: i64) -> (r: Vec<CommandRecord>)
    ensures
        describes_all(r@, entries_view(entries@), now as int),
{
    let mut out: Vec<CommandRecord> = Vec::new();
    let mut i: usize = 0;
    while i < entries.len()
        invariant
            i <= entries.len(),
            describes_all(out@, entries_view(entries@.take(i as int)), now as int),
        decreases entries.len() - i,
    {
        let rec = describe_entry(&entries[i], now);
        out.push(rec);
        assert(entries_view(entries@.take(i + 1)) =~= entries_view(entries@.take(i as int)).push(entries[i as int]@));
        i = i + 1;
    }
    assert(entries@.take(i as int) =~= entries@);
    out
}

/// The records of a reverse scan over `lines` (newest first; `None` for a line that could
/// not be decoded) whose timestamps are at or after `cutoff_timestamp`, as seen at `now`
/// (seconds since the Unix epoch).
pub fn process_zsh_history(lines: &Vec<Option<String>>, cutoff_timestamp: i64, now: i64) -> (r: Vec<CommandRecord>)
    ensures
        describes_all(r@, window(lines_view(lines@), cutoff_timestamp as int), now as int),
{
    let entries = select_window(lines, cutoff_timestamp);
    describe_history(&entries, now)
}

impl HistoryWindow {
    /// The kept records, newest first, as seen at `now` (seconds since the Unix epoch).
    pub fn records(&self, now: i64) -> (r: Vec<CommandRecord>)
        requires
            self.wf(),
        ensures
            describes_all(r@, window(self.lines_seen(), self.cutoff_spec()), now as int),
    {
        describe_history(self.entries(), now)
    }
}

} // verus!
