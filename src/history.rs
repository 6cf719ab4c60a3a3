use vstd::prelude::*;

use crate::text::{
    decimal_i64, decimal_text, in_i64, lemma_decimal_text, lemma_first_index, lemma_split_first_concat, parse_i64, split_first,
    split_once_char, trim_ws, trimmed,
};

verus! {

/// Why a history line was rejected.
#[derive(Debug, Clone, Copy, PartialEq, Eq, Structural)]
pub enum LineError {
    /// The line does not start with `:`.
    NoSentinel,
    /// No second `:` closes the timestamp.
    NoTimestampEnd,
    /// The timestamp is not a decimal `i64`.
    BadTimestamp,
    /// No `;` separates the second field from the command.
    NoCommandSeparator,
}

/// One accepted history line: `:<timestamp>:<exit_code>;<command>`.
#[derive(Debug, Clone, PartialEq, Eq)]
pub struct HistoryEntry {
    pub timestamp: i64,
    pub exit_code: String,
    pub command: String,
}

impl View for HistoryEntry {
    type V = (int, Seq<char>, Seq<char>);

    open spec fn view(&self) -> (int, Seq<char>, Seq<char>) {
        (self.timestamp as int, self.exit_code@, self.command@)
    }
}

/// What a raw history line reads as: the triple, or why it is rejected.
pub open spec fn line_verdict(s: Seq<char>) -> Result<(int, Seq<char>, Seq<char>), LineError> {
    if !(s.len() > 0 && s[0] == ':') {
        Err(LineError::NoSentinel)
    } else {
        match split_first(s.drop_first(), ':') {
            None => Err(LineError::NoTimestampEnd),
            Some((ts_text, tail)) => match decimal_i64(trimmed(ts_text)) {
                None => Err(LineError::BadTimestamp),
                Some(ts) => match split_first(tail, ';') {
                    None => Err(LineError::NoCommandSeparator),
                    Some((field, cmd)) => Ok((ts, trimmed(field), trimmed(cmd))),
                },
            },
        }
    }
}

/// The triple a line reads as, if it is well formed.
pub open spec fn parse_line(s: Seq<char>) -> Option<(int, Seq<char>, Seq<char>)> {
    match line_verdict(s) {
        Ok(t) => Some(t),
        Err(_) => None,
    }
}

/// A line of the reverse scan: its text, or `None` where it could not be decoded.
pub open spec fn is_malformed(line: Option<Seq<char>>) -> bool {
    line matches Some(s) && parse_line(s) is None
}

/// The triple a line contributes to the window with the given cutoff.
pub open spec fn accepted(line: Option<Seq<char>>, cutoff: int) -> Option<(int, Seq<char>, Seq<char>)> {
    match line {
        Some(s) => match parse_line(s) {
            Some(t) => if t.0 >= cutoff {
                Some(t)
            } else {
                None
            },
            None => None,
        },
        None => None,
    }
}

/// The triples of all lines that are accepted with the cutoff, in line order.
pub open spec fn kept(lines: Seq<Option<Seq<char>>>, cutoff: int) -> Seq<(int, Seq<char>, Seq<char>)>
    decreases lines.len(),
{
    if lines.len() == 0 {
        seq![]
    } else {
        let k = kept(lines.drop_last(), cutoff);
        match accepted(lines.last(), cutoff) {
            Some(t) => k.push(t),
            None => k,
        }
    }
}

/// Index of the first malformed line, or the number of lines when there is none.
pub open spec fn stop_point(lines: Seq<Option<Seq<char>>>) -> int
    decreases lines.len(),
{
    if lines.len() == 0 {
        0
    } else {
        let p = stop_point(lines.drop_last());
        if p < lines.len() - 1 {
            p
        } else if is_malformed(lines.last()) {
            lines.len() - 1
        } else {
            lines.len() as int
        }
    }
}

/// The records that a reverse scan of `lines` yields: those accepted before the first
/// malformed line.
pub open spec fn window(lines: Seq<Option<Seq<char>>>, cutoff: int) -> Seq<(int, Seq<char>, Seq<char>)> {
    kept(lines.take(stop_point(lines)), cutoff)
}

/// The stop point is the first malformed line, or the end.
pub proof fn lemma_stop_point(lines: Seq<Option<Seq<char>>>)
    ensures
        0 <= stop_point(lines) <= lines.len(),
        forall|j: int| 0 <= j < stop_point(lines) ==> !is_malformed(#[trigger] lines[j]),
        stop_point(lines) < lines.len() ==> is_malformed(lines[stop_point(lines)]),
    decreases lines.len(),
{
    if lines.len() > 0 {
        let prev = lines.drop_last();
        lemma_stop_point(prev);
        assert forall|j: int| 0 <= j < stop_point(lines) implies !is_malformed(#[trigger] lines[j]) by {
            if j < prev.len() {
                assert(prev[j] == lines[j]);
            }
        }
        if stop_point(lines) < lines.len() {
            if stop_point(prev) < prev.len() {
                assert(prev[stop_point(prev)] == lines[stop_point(prev)]);
            }
        }
    }
}

/// A line `:<ts>:<field>;<cmd>` whose middle part reads as the integer `ts` parses to
/// `ts` with the field and the command trimmed.
pub proof fn lemma_parse_well_formed(ts_text: Seq<char>, field: Seq<char>, cmd: Seq<char>, ts: int)
    requires
        !ts_text.contains(':'),
        decimal_i64(trimmed(ts_text)) == Some(ts),
        !field.contains(';'),
    ensures
        parse_line(seq![':'] + ts_text + seq![':'] + field + seq![';'] + cmd) == Some(
            (ts, trimmed(field), trimmed(cmd)),
        ),
{
    let tail = field + seq![';'] + cmd;
    let line = seq![':'] + ts_text + seq![':'] + tail;
    assert(line =~= seq![':'] + ts_text + seq![':'] + field + seq![';'] + cmd);
    assert(line.drop_first() =~= ts_text + seq![':'] + tail);
    lemma_split_first_concat(ts_text, ':', tail);
    lemma_split_first_concat(field, ';', cmd);
}

/// The line `:<ts>:<field>;<cmd>`, with `ts` written in decimal and a field without `;`,
/// parses to `ts` with the field and the command trimmed.
pub proof fn lemma_parse_rendered(ts: int, field: Seq<char>, cmd: Seq<char>)
    requires
        in_i64(ts),
        !field.contains(';'),
    ensures
        parse_line(seq![':'] + decimal_text(ts) + seq![':'] + field + seq![';'] + cmd) == Some(
            (ts, trimmed(field), trimmed(cmd)),
        ),
{
    lemma_decimal_text(ts);
    lemma_parse_well_formed(decimal_text(ts), field, cmd, ts);
}

/// A line that does not start with `:` is rejected, whatever follows.
pub proof fn lemma_no_sentinel_rejected(s: Seq<char>)
    requires
        !(s.len() > 0 && s[0] == ':'),
    ensures
        parse_line(s) is None,
{
}

/// When line `n` is the first malformed one, the scan yields exactly the records of the
/// lines before it that meet the cutoff, in order, whatever comes after it.
pub proof fn lemma_stops_at_first_malformed(lines: Seq<Option<Seq<char>>>, n: int, cutoff: int)
    requires
        0 <= n < lines.len(),
        is_malformed(lines[n]),
        forall|j: int| 0 <= j < n ==> !is_malformed(#[trigger] lines[j]),
    ensures
        window(lines, cutoff) == kept(lines.take(n), cutoff),
{
    lemma_stop_point(lines);
    let p = stop_point(lines);
    if p < n {
        assert(is_malformed(lines[p]));
    }
    if p > n {
        assert(!is_malformed(lines[n]));
    }
}

proof fn lemma_kept_contains(lines: Seq<Option<Seq<char>>>, i: int, cutoff: int, e: (int, Seq<char>, Seq<char>))
    requires
        0 <= i < lines.len(),
        accepted(lines[i], cutoff) == Some(e),
    ensures
        kept(lines, cutoff).contains(e),
    decreases lines.len(),
{
    let k = kept(lines.drop_last(), cutoff);
    if i == lines.len() - 1 {
        assert(kept(lines, cutoff) == k.push(e));
        assert(kept(lines, cutoff)[k.len() as int] == e);
    } else {
        assert(lines.drop_last()[i] == lines[i]);
        lemma_kept_contains(lines.drop_last(), i, cutoff, e);
        let j = choose|j: int| 0 <= j < k.len() && k[j] == e;
        match accepted(lines.last(), cutoff) {
            Some(t) => {
                assert(kept(lines, cutoff)[j] == e);
            },
            None => {},
        }
    }
}

/// The cutoff is inclusive: a record before the first malformed line whose timestamp
/// equals the cutoff is in the window.
pub proof fn lemma_cutoff_inclusive(
    lines: Seq<Option<Seq<char>>>,
    i: int,
    text: Seq<char>,
    e: (int, Seq<char>, Seq<char>),
)
    requires
        0 <= i < lines.len(),
        forall|j: int| 0 <= j <= i ==> !is_malformed(#[trigger] lines[j]),
        lines[i] == Some(text),
        parse_line(text) == Some(e),
    ensures
        window(lines, e.0).contains(e),
{
    lemma_stop_point(lines);
    let p = stop_point(lines);
    if p <= i {
        assert(is_malformed(lines[p]));
    }
    assert(lines.take(p)[i] == lines[i]);
    lemma_kept_contains(lines.take(p), i, e.0, e);
}

pub open spec fn line_view(line: Option<&str>) -> Option<Seq<char>> {
    match line {
        Some(s) => Some(s@),
        None => None,
    }
}

pub open spec fn lines_view(lines: Seq<Option<String>>) -> Seq<Option<Seq<char>>> {
    lines.map_values(|l: Option<String>| match l {
        Some(s) => Some(s@),
        None => None,
    })
}

pub open spec fn entries_view(entries: Seq<HistoryEntry>) -> Seq<(int, Seq<char>, Seq<char>)> {
    entries.map_values(|e: HistoryEntry| e@)
}

/// Reads one history line, saying why it is rejected when it is.
pub fn parse_history_line(entry: &str) -> (r: Result<HistoryEntry, LineError>)
    ensures
        r matches Ok(e) ==> line_verdict(entry@) == Ok::<_, LineError>(e@),
        r matches Err(err) ==> line_verdict(entry@) == Err::<(int, Seq<char>, Seq<char>), _>(err),
{
    let (head, rest) = match split_once_char(entry, ':') {
        None => {
            return Err(LineError::NoSentinel);
        },
        Some(p) => p,
    };
    proof {
        lemma_first_index(entry@, ':');
    }
    if !head.is_empty() {
        return Err(LineError::NoSentinel);
    }
    assert(rest@ =~= entry@.drop_first());
    let (ts_text, tail) = match split_once_char(rest, ':') {
        None => {
            return Err(LineError::NoTimestampEnd);
        },
        Some(p) => p,
    };
    let timestamp = match parse_i64(trim_ws(ts_text)) {
        None => {
            return Err(LineError::BadTimestamp);
        },
        Some(t) => t,
    };
    let (field, cmd) = match split_once_char(tail, ';') {
        None => {
            return Err(LineError::NoCommandSeparator);
        },
        Some(p) => p,
    };
    Ok(HistoryEntry { timestamp, exit_code: trim_ws(field).to_owned(), command: trim_ws(cmd).to_owned() })
}

/// Reads one history line as `(timestamp, exit_code, command)`, or `None` when it is
/// rejected.
pub fn parse_zsh_history(entry: &str) -> (r: Option<(i64, String, String)>)
    ensures
        r matches Some(t) ==> parse_line(entry@) == Some((t.0 as int, t.1@, t.2@)),
        r is None ==> parse_line(entry@) is None,
{
    match parse_history_line(entry) {
        Ok(e) => Some((e.timestamp, e.exit_code, e.command)),
        Err(_) => None,
    }
}

/// What feeding one line to a [`HistoryWindow`] did.
#[derive(Debug, Clone, Copy, PartialEq, Eq, Structural)]
pub enum FeedOutcome {
    /// The line was recorded.
    Recorded,
    /// The line parsed, but its timestamp lies before the cutoff.
    BeforeCutoff,
    /// The line could not be decoded as text and was skipped.
    Undecodable,
    /// The line was rejected; the scan is now stopped.
    Rejected(LineError),
    /// The scan had already stopped; the line was not read.
    AfterStop,
}

pub open spec fn feed_outcome(stopped: bool, line: Option<Seq<char>>, cutoff: int) -> FeedOutcome {
    if stopped {
        FeedOutcome::AfterStop
    } else {
        match line {
            None => FeedOutcome::Undecodable,
            Some(s) => match line_verdict(s) {
                Err(e) => FeedOutcome::Rejected(e),
                Ok(t) => if t.0 >= cutoff {
                    FeedOutcome::Recorded
                } else {
                    FeedOutcome::BeforeCutoff
                },
            },
        }
    }
}

/// A reverse scan of a history log, newest line first. It is scanning until a line is
/// rejected, and stopped from then on.
pub struct HistoryWindow {
    cutoff: i64,
    stopped: bool,
    entries: Vec<HistoryEntry>,
    seen: Ghost<Seq<Option<Seq<char>>>>,
}

impl HistoryWindow {
    /// The lines fed so far, in order.
    pub closed spec fn lines_seen(&self) -> Seq<Option<Seq<char>>> {
        self.seen@
    }

    pub closed spec fn cutoff_spec(&self) -> int {
        self.cutoff as int
    }

    pub closed spec fn wf(&self) -> bool {
        &&& entries_view(self.entries@) == window(self.seen@, self.cutoff as int)
        &&& self.stopped == (stop_point(self.seen@) < self.seen@.len())
    }

    /// A scan that has seen no line yet.
    pub fn new(cutoff: i64) -> (r: Self)
        ensures
            r.wf(),
            r.lines_seen() == Seq::<Option<Seq<char>>>::empty(),
            r.cutoff_spec() == cutoff,
    {
        let ghost none_seen = Seq::<Option<Seq<char>>>::empty();
        let r = HistoryWindow { cutoff, stopped: false, entries: Vec::new(), seen: Ghost(none_seen) };
        assert(entries_view(r.entries@) =~= window(r.seen@, cutoff as int));
        r
    }

    pub fn cutoff(&self) -> (r: i64)
        ensures
            r == self.cutoff_spec(),
    {
        self.cutoff
    }

    /// Whether a rejected line has ended the scan.
    pub fn is_stopped(&self) -> (r: bool)
        requires
            self.wf(),
        ensures
            r == (stop_point(self.lines_seen()) < self.lines_seen().len()),
    {
        self.stopped
    }

    /// The records kept so far, newest first.
    pub fn entries(&self) -> (r: &Vec<HistoryEntry>)
        requires
            self.wf(),
        ensures
            entries_view(r@) == window(self.lines_seen(), self.cutoff_spec()),
    {
        &self.entries
    }

    /// Takes the next line of the scan (`None`: it could not be decoded).
    pub fn feed(&mut self, line: Option<&str>) -> (r: FeedOutcome)
        requires
            old(self).wf(),
        ensures
            final(self).wf(),
            final(self).lines_seen() == old(self).lines_seen().push(line_view(line)),
            final(self).cutoff_spec() == old(self).cutoff_spec(),
            r == feed_outcome(
                stop_point(old(self).lines_seen()) < old(self).lines_seen().len(),
                line_view(line),
                old(self).cutoff_spec(),
            ),
    {
        let ghost before = self.seen@;
        let ghost after = before.push(line_view(line));
        let ghost cutoff = self.cutoff as int;
        assert(after.drop_last() =~= before);
        proof {
            lemma_stop_point(before);
        }
        if self.stopped {
            assert(stop_point(after) == stop_point(before));
            assert(after.take(stop_point(after)) =~= before.take(stop_point(before)));
            self.seen = Ghost(after);
            return FeedOutcome::AfterStop;
        }
        assert(before.take(stop_point(before)) =~= before);
        let outcome = match line {
            None => {
                assert(after.take(stop_point(after)) =~= after);
                FeedOutcome::Undecodable
            },
            Some(text) => match parse_history_line(text) {
                Err(e) => {
                    assert(after.take(stop_point(after)) =~= before);
                    self.stopped = true;
                    FeedOutcome::Rejected(e)
                },
                Ok(entry) => {
                    assert(after.take(stop_point(after)) =~= after);
                    if entry.timestamp >= self.cutoff {
                        self.entries.push(entry);
                        assert(entries_view(self.entries@) =~= window(after, cutoff));
                        FeedOutcome::Recorded
                    } else {
                        FeedOutcome::BeforeCutoff
                    }
                },
            },
        };
        self.seen = Ghost(after);
        outcome
    }

    /// The kept records, newest first.
    pub fn into_entries(self) -> (r: Vec<HistoryEntry>)
        requires
            self.wf(),
        ensures
            entries_view(r@) == window(self.lines_seen(), self.cutoff_spec()),
    {
        self.entries
    }
}

/// The records of a reverse scan over `lines` (newest first; `None` for a line that could
/// not be decoded), with timestamps at or after `cutoff`.
pub fn select_window(lines: &Vec<Option<String>>, cutoff: i64) -> (r: Vec<HistoryEntry>)
    ensures
        entries_view(r@) == window(lines_view(lines@), cutoff as int),
{
    let mut scan = HistoryWindow::new(cutoff);
    let mut i: usize = 0;
    while i < lines.len()
        invariant
            i <= lines.len(),
            scan.wf(),
            scan.cutoff_spec() == cutoff,
            scan.lines_seen() == lines_view(lines@.take(i as int)),
        decreases lines.len() - i,
    {
        let ghost prev = lines_view(lines@.take(i as int));
        match &lines[i] {
            Some(text) => {
                scan.feed(Some(text.as_str()));
            },
            None => {
                scan.feed(None);
            },
        }
        assert(lines_view(lines@.take(i + 1)) =~= scan.lines_seen());
        i = i + 1;
    }
    assert(lines@.take(i as int) =~= lines@);
    scan.into_entries()
}

} // verus!
