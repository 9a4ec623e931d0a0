//! The local diagnostics log: a bounded in-memory list of recent entries, the
//! line each entry is written as, and the rollover that keeps the file small.

use vstd::prelude::*;
use crate::text::{lines_of, join_with, views, string_views, to_chars, from_chars, push_str_chars, push_all, lines_chars, join_chars};
use crate::tabs::copy_string;

verus! {

/// Entries kept in memory for Settings.
pub const MAX_ENTRIES: usize = 400;

/// The log file is cut to its newest half once it passes this many bytes.
pub const MAX_LOG_BYTES: u64 = 524288;

#[derive(Clone, Copy, Debug, PartialEq, Eq, Structural)]
pub enum DiagnosticLevel {
    Info,
    Warn,
    Error,
}

pub open spec fn level_text(l: DiagnosticLevel) -> Seq<char> {
    match l {
        DiagnosticLevel::Info => "info"@,
        DiagnosticLevel::Warn => "warn"@,
        DiagnosticLevel::Error => "error"@,
    }
}

impl DiagnosticLevel {
    pub fn as_str(self) -> (r: &'static str)
        ensures
            r@ == level_text(self),
    {
        match self {
            DiagnosticLevel::Info => "info",
            DiagnosticLevel::Warn => "warn",
            DiagnosticLevel::Error => "error",
        }
    }
}

pub struct DiagnosticEntry {
    pub at: String,
    pub level: DiagnosticLevel,
    pub message: String,
}

pub open spec fn entry_view(e: DiagnosticEntry) -> (Seq<char>, DiagnosticLevel, Seq<char>) {
    (e.at@, e.level, e.message@)
}

pub open spec fn entry_views(es: Seq<DiagnosticEntry>) -> Seq<(Seq<char>, DiagnosticLevel, Seq<char>)> {
    es.map_values(|e: DiagnosticEntry| entry_view(e))
}

/// The line an entry is appended to the log file as.
pub open spec fn log_line(e: (Seq<char>, DiagnosticLevel, Seq<char>)) -> Seq<char> {
    e.0 + " ["@ + level_text(e.1) + "] "@ + e.2 + "\n"@
}

pub fn format_entry(entry: &DiagnosticEntry) -> (r: String)
    ensures
        r@ == log_line(entry_view(*entry)),
{
    let mut v = to_chars(entry.at.as_str());
    push_str_chars(&mut v, " [");
    push_str_chars(&mut v, entry.level.as_str());
    push_str_chars(&mut v, "] ");
    push_str_chars(&mut v, entry.message.as_str());
    push_str_chars(&mut v, "\n");
    from_chars(v.as_slice())
}

/// Whether the log file is due for rollover before the next write.
pub fn needs_rollover(file_len: u64) -> (r: bool)
    ensures
        r == (file_len > MAX_LOG_BYTES),
{
    file_len > MAX_LOG_BYTES
}

/// The newest half of the log's lines (the older half of an odd count is the
/// smaller), each followed by a line break.
pub open spec fn newest_half(existing: Seq<char>) -> Seq<char> {
    let lines = lines_of(existing);
    join_with(lines.skip((lines.len() / 2) as int), "\n"@) + "\n"@
}

pub fn truncate_to_newest_half(existing: &str) -> (r: String)
    ensures
        r@ == newest_half(existing@),
{
    let v = to_chars(existing);
    let lines = lines_chars(v.as_slice());
    let n = lines.len();
    let half = n / 2;
    let mut kept: Vec<Vec<char>> = Vec::new();
    let mut rest = lines;
    let mut i: usize = 0;
    let ghost ls = views(rest@);
    while i < half
        invariant
            i <= half,
            half <= n,
            n == ls.len(),
            half == n / 2,
            views(rest@) == ls.skip(i as int),
        decreases half - i,
    {
        assert(views(rest@).len() == rest@.len());
        let ghost prev = rest@;
        rest.remove(0);
        assert(rest@ =~= prev.drop_first());
        assert forall|j: int| 0 <= j < rest@.len() implies views(rest@)[j] == ls.skip(i + 1)[j] by {
            assert(views(prev)[j + 1] == prev[j + 1]@);
            assert(views(prev)[j + 1] == ls.skip(i as int)[j + 1]);
        }
        assert(views(rest@) =~= ls.skip(i + 1));
        i += 1;
    }
    let mut joined = join_chars(&rest, to_chars("\n").as_slice());
    push_str_chars(&mut joined, "\n");
    from_chars(joined.as_slice())
}

/// Recent entries, newest last, never more than `MAX_ENTRIES`.
pub struct DiagnosticBuffer {
    pub entries: Vec<DiagnosticEntry>,
}

/// The entries after `e` is recorded: the oldest is dropped when full.
pub open spec fn recorded(
    es: Seq<(Seq<char>, DiagnosticLevel, Seq<char>)>,
    e: (Seq<char>, DiagnosticLevel, Seq<char>),
) -> Seq<(Seq<char>, DiagnosticLevel, Seq<char>)> {
    if es.len() == MAX_ENTRIES {
        es.drop_first().push(e)
    } else {
        es.push(e)
    }
}

impl DiagnosticBuffer {
    pub open spec fn wf(&self) -> bool {
        self.entries@.len() <= MAX_ENTRIES
    }

    pub open spec fn view_entries(&self) -> Seq<(Seq<char>, DiagnosticLevel, Seq<char>)> {
        entry_views(self.entries@)
    }

    pub fn new() -> (r: DiagnosticBuffer)
        ensures
            r.wf(),
            r.view_entries() == Seq::<(Seq<char>, DiagnosticLevel, Seq<char>)>::empty(),
    {
        let b = DiagnosticBuffer { entries: Vec::new() };
        assert(b.view_entries() =~= Seq::<(Seq<char>, DiagnosticLevel, Seq<char>)>::empty());
        b
    }

    /// Keeps an entry, dropping the oldest when the buffer is full.
    pub fn record(&mut self, entry: DiagnosticEntry)
        requires
            old(self).wf(),
        ensures
            final(self).wf(),
            final(self).view_entries() == recorded(old(self).view_entries(), entry_view(entry)),
    {
        let ghost before = self.view_entries();
        let ghost ev = entry_view(entry);
        if self.entries.len() == MAX_ENTRIES {
            self.entries.remove(0);
            assert(self.view_entries() =~= before.drop_first());
        }
        let ghost mid = self.view_entries();
        self.entries.push(entry);
        assert(self.view_entries() =~= mid.push(ev));
    }

    /// Copies of the entries, newest first.
    pub fn recent(&self) -> (r: Vec<DiagnosticEntry>)
        ensures
            entry_views(r@) == self.view_entries().reverse(),
    {
        let n = self.entries.len();
        let mut out: Vec<DiagnosticEntry> = Vec::new();
        let mut k: usize = n;
        let ghost es = self.view_entries();
        while k > 0
            invariant
                k <= n,
                n == self.entries@.len(),
                es == self.view_entries(),
                entry_views(out@) =~= es.reverse().take(n - k),
            decreases k,
        {
            let e = &self.entries[k - 1];
            let ghost before = entry_views(out@);
            out.push(DiagnosticEntry { at: copy_string(&e.at), level: e.level, message: copy_string(&e.message) });
            assert(es.reverse()[n - k] == es[k - 1]);
            assert(entry_views(out@) =~= before.push(es[k - 1]));
            assert(es.reverse().take(n - k + 1) =~= es.reverse().take(n - k).push(es.reverse()[n - k]));
            k -= 1;
        }
        assert(es.reverse().take(n as int) =~= es.reverse());
        out
    }
}

/// After recording, the newest entry reported is the one just recorded, and
/// the buffer stays within its bound.
pub proof fn lemma_record_then_recent(
    es: Seq<(Seq<char>, DiagnosticLevel, Seq<char>)>,
    e: (Seq<char>, DiagnosticLevel, Seq<char>),
)
    requires
        es.len() <= MAX_ENTRIES,
    ensures
        recorded(es, e).reverse()[0] == e,
        recorded(es, e).len() <= MAX_ENTRIES,
        recorded(es, e).len() == if es.len() == MAX_ENTRIES {
            es.len()
        } else {
            es.len() + 1
        },
{
}

} // verus!
