//! The chunked statistics aggregator.
//!
//! It partitions the ordered record stream into back-to-back time chunks
//! of `stats_window` seconds, anchored to the first record's timestamp,
//! and emits one summary line per closed chunk — including a distinct
//! "no requests" line for every silent chunk — plus a final flush of the
//! still-open chunk at stream end.

use vstd::prelude::*;
use vstd::string::*;

use crate::models::{line_views, spec_section, Config, RecordView, RequestRecord};
use crate::text::{
    spec_decimal, spec_lex_lt, spec_pad3, spec_tenths, str_lt, tenths_to_string, u128_to_string,
    u64_to_string, u64_to_string_pad3,
};
use crate::time::{clock_display, datetime_display, render_clock, render_datetime};

verus! {

/// Mathematical state of the stats aggregator.
pub struct StatsModel {
    /// Seconds of requests in each stats chunk.
    pub chunk_seconds: int,
    /// Whether a chunk has been opened (it happens on the first record).
    pub has_chunk: bool,
    /// Start of the open chunk's half-open time range.
    pub start: int,
    /// End of the open chunk's half-open time range.
    pub end: int,
    /// The records of the open chunk.
    pub records: Seq<RecordView>,
    /// Request count per status code, in first-seen order.
    pub by_status: Seq<(int, int)>,
    /// Request count per section (prefixed with `/`), in first-seen order.
    pub by_section: Seq<(Seq<char>, int)>,
    /// Every chunk range flushed so far, oldest first.
    pub flushed: Seq<(int, int)>,
}

/// Index of the entry with status `k`, or `tab.len()` when absent.
pub open spec fn status_key_idx(tab: Seq<(int, int)>, k: int) -> int
    decreases tab.len(),
{
    if tab.len() == 0 {
        0
    } else if tab[0].0 == k {
        0
    } else {
        1 + status_key_idx(tab.drop_first(), k)
    }
}

pub proof fn lemma_status_key_idx(tab: Seq<(int, int)>, k: int)
    ensures
        0 <= status_key_idx(tab, k) <= tab.len(),
        forall|j: int| 0 <= j < status_key_idx(tab, k) ==> (#[trigger] tab[j]).0 != k,
        status_key_idx(tab, k) < tab.len() ==> tab[status_key_idx(tab, k)].0 == k,
    decreases tab.len(),
{
    if tab.len() != 0 && tab[0].0 != k {
        lemma_status_key_idx(tab.drop_first(), k);
        let i = status_key_idx(tab, k);
        assert forall|j: int| 0 <= j < i implies (#[trigger] tab[j]).0 != k by {
            if j > 0 {
                assert(tab.drop_first()[j - 1] == tab[j]);
            }
        }
        if i < tab.len() {
            assert(tab.drop_first()[i - 1] == tab[i]);
        }
    }
}

/// Adds one request with status `k` to the table: the existing entry is
/// incremented, or a fresh entry is appended in first-seen order.
pub open spec fn bump_status(tab: Seq<(int, int)>, k: int) -> Seq<(int, int)> {
    let i = status_key_idx(tab, k);
    if i == tab.len() {
        tab.push((k, 1))
    } else {
        tab.update(i, (k, tab[i].1 + 1))
    }
}

/// Index of the entry with section key `k`, or `tab.len()` when absent.
pub open spec fn section_key_idx(tab: Seq<(Seq<char>, int)>, k: Seq<char>) -> int
    decreases tab.len(),
{
    if tab.len() == 0 {
        0
    } else if tab[0].0 == k {
        0
    } else {
        1 + section_key_idx(tab.drop_first(), k)
    }
}

pub proof fn lemma_section_key_idx(tab: Seq<(Seq<char>, int)>, k: Seq<char>)
    ensures
        0 <= section_key_idx(tab, k) <= tab.len(),
        forall|j: int| 0 <= j < section_key_idx(tab, k) ==> (#[trigger] tab[j]).0 != k,
        section_key_idx(tab, k) < tab.len() ==> tab[section_key_idx(tab, k)].0 == k,
    decreases tab.len(),
{
    if tab.len() != 0 && tab[0].0 != k {
        lemma_section_key_idx(tab.drop_first(), k);
        let i = section_key_idx(tab, k);
        assert forall|j: int| 0 <= j < i implies (#[trigger] tab[j]).0 != k by {
            if j > 0 {
                assert(tab.drop_first()[j - 1] == tab[j]);
            }
        }
        if i < tab.len() {
            assert(tab.drop_first()[i - 1] == tab[i]);
        }
    }
}

/// Adds one request with section key `k` to the table.
pub open spec fn bump_section(tab: Seq<(Seq<char>, int)>, k: Seq<char>) -> Seq<(Seq<char>, int)> {
    let i = section_key_idx(tab, k);
    if i == tab.len() {
        tab.push((k, 1))
    } else {
        tab.update(i, (k, tab[i].1 + 1))
    }
}

/// Strict preference between status entries: higher count first, lower
/// status code on ties (for deterministic output).
pub open spec fn better_status(a: (int, int), b: (int, int)) -> bool {
    a.1 > b.1 || (a.1 == b.1 && a.0 < b.0)
}

/// Index of the most preferred status entry; on a tie the earliest such
/// entry wins (they cannot tie under unique keys).
pub open spec fn best_status_idx(tab: Seq<(int, int)>) -> int
    decreases tab.len(),
{
    if tab.len() <= 1 {
        0
    } else {
        let p = best_status_idx(tab.drop_last());
        if better_status(tab.last(), tab[p]) {
            tab.len() - 1
        } else {
            p
        }
    }
}

pub proof fn lemma_best_status_idx_bounds(tab: Seq<(int, int)>)
    requires
        tab.len() >= 1,
    ensures
        0 <= best_status_idx(tab) < tab.len(),
    decreases tab.len(),
{
    if tab.len() > 1 {
        lemma_best_status_idx_bounds(tab.drop_last());
    }
}

/// The selection really picks a most frequent entry: no entry of the
/// table is preferred over the one at `best_status_idx`.
pub proof fn lemma_best_status_idx_max(tab: Seq<(int, int)>)
    requires
        tab.len() >= 1,
    ensures
        0 <= best_status_idx(tab) < tab.len(),
        forall|j: int|
            0 <= j < tab.len() ==> !better_status(#[trigger] tab[j], tab[best_status_idx(tab)]),
    decreases tab.len(),
{
    if tab.len() > 1 {
        lemma_best_status_idx_max(tab.drop_last());
        let p = best_status_idx(tab.drop_last());
        assert(tab.drop_last()[p] == tab[p]);
        let b = best_status_idx(tab);
        assert forall|j: int| 0 <= j < tab.len() implies !better_status(
            #[trigger] tab[j],
            tab[b],
        ) by {
            if j < tab.len() - 1 {
                assert(tab.drop_last()[j] == tab[j]);
                assert(!better_status(tab[j], tab[p]));
            } else {
                assert(tab[j] == tab.last());
            }
        }
    }
}

/// The up-to-`k` most frequent status entries, most frequent first.
pub open spec fn top_statuses(tab: Seq<(int, int)>, k: int) -> Seq<(int, int)>
    decreases k,
{
    if k <= 0 || tab.len() == 0 {
        Seq::empty()
    } else {
        let i = best_status_idx(tab);
        seq![tab[i]] + top_statuses(tab.remove(i), k - 1)
    }
}

/// Strict preference between section entries: higher count first,
/// lexicographically smaller section key on ties.
pub open spec fn better_section(a: (Seq<char>, int), b: (Seq<char>, int)) -> bool {
    a.1 > b.1 || (a.1 == b.1 && spec_lex_lt(a.0, b.0))
}

/// Index of the most preferred section entry.
pub open spec fn best_section_idx(tab: Seq<(Seq<char>, int)>) -> int
    decreases tab.len(),
{
    if tab.len() <= 1 {
        0
    } else {
        let p = best_section_idx(tab.drop_last());
        if better_section(tab.last(), tab[p]) {
            tab.len() - 1
        } else {
            p
        }
    }
}

pub proof fn lemma_best_section_idx_bounds(tab: Seq<(Seq<char>, int)>)
    requires
        tab.len() >= 1,
    ensures
        0 <= best_section_idx(tab) < tab.len(),
    decreases tab.len(),
{
    if tab.len() > 1 {
        lemma_best_section_idx_bounds(tab.drop_last());
    }
}

/// The selection really picks a most frequent entry: no entry of the
/// table is preferred over the one at `best_section_idx`.
pub proof fn lemma_best_section_idx_max(tab: Seq<(Seq<char>, int)>)
    requires
        tab.len() >= 1,
    ensures
        0 <= best_section_idx(tab) < tab.len(),
        forall|j: int|
            0 <= j < tab.len() ==> !better_section(#[trigger] tab[j], tab[best_section_idx(tab)]),
    decreases tab.len(),
{
    if tab.len() == 1 {
        crate::text::lemma_lex_lt_irrefl(tab[0].0);
    }
    if tab.len() > 1 {
        lemma_best_section_idx_max(tab.drop_last());
        let p = best_section_idx(tab.drop_last());
        assert(tab.drop_last()[p] == tab[p]);
        let b = best_section_idx(tab);
        assert forall|j: int| 0 <= j < tab.len() implies !better_section(
            #[trigger] tab[j],
            tab[b],
        ) by {
            if j < tab.len() - 1 {
                assert(tab.drop_last()[j] == tab[j]);
                assert(!better_section(tab[j], tab[p]));
                if b == tab.len() - 1 && better_section(tab[j], tab[b]) {
                    if tab[j].1 == tab[b].1 && tab[b].1 == tab[p].1 {
                        crate::text::lemma_lex_lt_trans(tab[j].0, tab[b].0, tab[p].0);
                    }
                }
            } else {
                assert(tab[j] == tab.last());
                crate::text::lemma_lex_lt_irrefl(tab[j].0);
            }
        }
    }
}

/// One status entry as text: its share of the chunk's requests and the
/// zero-padded status code.
pub open spec fn status_entry_text(e: (int, int), total: int) -> Seq<char> {
    spec_decimal(100 * e.1 / total) + "% "@ + spec_pad3(e.0)
}

/// The selected status entries joined with commas.
pub open spec fn statuses_text(sel: Seq<(int, int)>, total: int) -> Seq<char>
    decreases sel.len(),
{
    if sel.len() == 0 {
        Seq::empty()
    } else if sel.len() == 1 {
        status_entry_text(sel[0], total)
    } else {
        statuses_text(sel.drop_last(), total) + ", "@ + status_entry_text(sel.last(), total)
    }
}

/// The most frequent section with its share of the chunk's requests.
pub open spec fn section_text(tab: Seq<(Seq<char>, int)>, total: int) -> Seq<char> {
    if tab.len() == 0 {
        Seq::empty()
    } else {
        let e = tab[best_section_idx(tab)];
        spec_decimal(100 * e.1 / total) + "% in "@ + e.0
    }
}

/// The summary line for the currently open chunk.
pub open spec fn spec_pending_line(m: StatsModel) -> Seq<char> {
    let head = datetime_display(m.start as u64) + "-"@ + clock_display(m.end as u64) + "  |  "@;
    let total = m.records.len() as int;
    if total > 0 {
        head + spec_decimal(total) + " requests at "@ + spec_tenths(total * 10 / m.chunk_seconds)
            + "rps  |  "@ + section_text(m.by_section, total) + "  |  "@ + statuses_text(
            top_statuses(m.by_status, 3),
            total,
        )
    } else {
        head + "no requests"@
    }
}

/// The model after flushing the open chunk: counts reset, the chunk
/// range recorded, and the boundaries advanced by one chunk width.
pub open spec fn stats_flushed(m: StatsModel) -> StatsModel {
    StatsModel {
        chunk_seconds: m.chunk_seconds,
        has_chunk: true,
        start: m.end,
        end: m.end + m.chunk_seconds,
        records: Seq::empty(),
        by_status: Seq::empty(),
        by_section: Seq::empty(),
        flushed: m.flushed.push((m.start, m.end)),
    }
}

/// Flushes chunks (emitting one line each) until the open chunk contains
/// `date`.
pub open spec fn stats_flush_loop(m: StatsModel, date: int) -> (StatsModel, Seq<Seq<char>>)
    decreases date - m.start,
{
    if m.chunk_seconds < 1 || m.end <= m.start || date < m.end {
        (m, Seq::empty())
    } else {
        let line = spec_pending_line(m);
        let rest = stats_flush_loop(stats_flushed(m), date);
        (rest.0, seq![line] + rest.1)
    }
}

/// Opens the first chunk at the first record's timestamp.
pub open spec fn stats_open(m: StatsModel, date: int) -> StatsModel {
    if m.has_chunk {
        m
    } else {
        StatsModel {
            chunk_seconds: m.chunk_seconds,
            has_chunk: true,
            start: date,
            end: date + m.chunk_seconds,
            records: m.records,
            by_status: m.by_status,
            by_section: m.by_section,
            flushed: m.flushed,
        }
    }
}

/// Books one record into the open chunk.
pub open spec fn stats_insert(m: StatsModel, r: RecordView) -> StatsModel {
    StatsModel {
        chunk_seconds: m.chunk_seconds,
        has_chunk: m.has_chunk,
        start: m.start,
        end: m.end,
        records: m.records.push(r),
        by_status: bump_status(m.by_status, r.status),
        by_section: bump_section(m.by_section, "/"@ + spec_section(r.request)),
        flushed: m.flushed,
    }
}

/// One step of the aggregator: open the first chunk if none is open yet,
/// flush every chunk that closed before `r`, then book `r`.
pub open spec fn stats_step(m: StatsModel, r: RecordView) -> (StatsModel, Seq<Seq<char>>) {
    let opened = stats_open(m, r.date);
    let flushed = stats_flush_loop(opened, r.date);
    (stats_insert(flushed.0, r), flushed.1)
}

/// The lines owed at stream end: the open chunk's summary, if a chunk
/// was ever opened.
pub open spec fn spec_stats_pending(m: StatsModel) -> Seq<Seq<char>> {
    if m.has_chunk {
        seq![spec_pending_line(m)]
    } else {
        Seq::empty()
    }
}

/// The anchoring half of the chunk coverage law: the first record ever
/// pushed opens — without flushing anything — the chunk that starts at
/// its own timestamp.
pub proof fn lemma_first_chunk_anchored(m: StatsModel, r: RecordView)
    requires
        stats_wf(m),
        !m.has_chunk,
    ensures
        stats_step(m, r).0.start == r.date,
        stats_step(m, r).0.end == r.date + m.chunk_seconds,
        stats_step(m, r).1 == Seq::<Seq<char>>::empty(),
{
    let opened = stats_open(m, r.date);
    assert(stats_flush_loop(opened, r.date) == (opened, Seq::<Seq<char>>::empty()));
}

/// The mathematical value of a status count table.
pub open spec fn status_table_view(tab: Seq<(u16, u64)>) -> Seq<(int, int)> {
    tab.map_values(|e: (u16, u64)| (e.0 as int, e.1 as int))
}

/// The mathematical value of a section count table.
pub open spec fn section_table_view(tab: Seq<(String, u64)>) -> Seq<(Seq<char>, int)> {
    tab.map_values(|e: (String, u64)| (e.0@, e.1 as int))
}

/// Counts one more request with status `k`.
fn bump_status_table(tab: &mut Vec<(u16, u64)>, k: u16)
    requires
        forall|i: int| 0 <= i < old(tab)@.len() ==> (#[trigger] old(tab)@[i]).1 < u64::MAX,
    ensures
        status_table_view(final(tab)@) == bump_status(status_table_view(old(tab)@), k as int),
{
    let ghost v0 = status_table_view(tab@);
    proof {
        lemma_status_key_idx(v0, k as int);
    }
    let n = tab.len();
    let mut i: usize = 0;
    while i < n
        invariant
            0 <= i <= n,
            n == tab@.len(),
            tab@ == old(tab)@,
            v0 == status_table_view(tab@),
            forall|j: int| 0 <= j < old(tab)@.len() ==> (#[trigger] old(tab)@[j]).1 < u64::MAX,
            forall|j: int| 0 <= j < i ==> (#[trigger] v0[j]).0 != k as int,
        decreases n - i,
    {
        proof {
            lemma_status_key_idx(v0, k as int);
            assert(v0[i as int] == (tab@[i as int].0 as int, tab@[i as int].1 as int));
        }
        if tab[i].0 == k {
            proof {
                assert(old(tab)@[i as int].1 < u64::MAX);
                let idx = status_key_idx(v0, k as int);
                if idx < i as int {
                    assert(v0[idx].0 != k as int);
                    assert(false);
                }
                if idx > i as int {
                    assert(v0[i as int].0 != k as int);
                    assert(false);
                }
            }
            let c = tab[i].1;
            tab.set(i, (k, c + 1));
            proof {
                assert(status_table_view(tab@) =~= v0.update(
                    i as int,
                    (k as int, v0[i as int].1 + 1),
                ));
            }
            return ;
        }
        i = i + 1;
    }
    tab.push((k, 1));
    proof {
        let idx = status_key_idx(v0, k as int);
        if idx < v0.len() {
            assert(v0[idx].0 != k as int);
            assert(false);
        }
        assert(status_table_view(tab@) =~= v0.push((k as int, 1)));
    }
}

/// Counts one more request with section key `k`.
fn bump_section_table(tab: &mut Vec<(String, u64)>, k: &String)
    requires
        forall|i: int| 0 <= i < old(tab)@.len() ==> (#[trigger] old(tab)@[i]).1 < u64::MAX,
    ensures
        section_table_view(final(tab)@) == bump_section(section_table_view(old(tab)@), k@),
{
    let ghost v0 = section_table_view(tab@);
    proof {
        lemma_section_key_idx(v0, k@);
    }
    let n = tab.len();
    let mut i: usize = 0;
    while i < n
        invariant
            0 <= i <= n,
            n == tab@.len(),
            tab@ == old(tab)@,
            v0 == section_table_view(tab@),
            forall|j: int| 0 <= j < old(tab)@.len() ==> (#[trigger] old(tab)@[j]).1 < u64::MAX,
            forall|j: int| 0 <= j < i ==> (#[trigger] v0[j]).0 != k@,
        decreases n - i,
    {
        proof {
            lemma_section_key_idx(v0, k@);
            assert(v0[i as int] == (tab@[i as int].0@, tab@[i as int].1 as int));
        }
        if tab[i].0 == *k {
            proof {
                assert(old(tab)@[i as int].1 < u64::MAX);
                let idx = section_key_idx(v0, k@);
                if idx < i as int {
                    assert(v0[idx].0 != k@);
                    assert(false);
                }
                if idx > i as int {
                    assert(v0[i as int].0 != k@);
                    assert(false);
                }
            }
            let c = tab[i].1;
            tab.set(i, (k.clone(), c + 1));
            proof {
                assert(section_table_view(tab@) =~= v0.update(i as int, (k@, v0[i as int].1 + 1)));
            }
            return ;
        }
        i = i + 1;
    }
    tab.push((k.clone(), 1));
    proof {
        let idx = section_key_idx(v0, k@);
        if idx < v0.len() {
            assert(v0[idx].0 != k@);
            assert(false);
        }
        assert(section_table_view(tab@) =~= v0.push((k@, 1)));
    }
}

/// Index of the most frequent status entry (lowest code on ties).
fn best_status_index(tab: &Vec<(u16, u64)>) -> (best: usize)
    requires
        tab@.len() >= 1,
    ensures
        best < tab@.len(),
        best as int == best_status_idx(status_table_view(tab@)),
{
    let ghost v = status_table_view(tab@);
    let n = tab.len();
    let mut best: usize = 0;
    let mut i: usize = 1;
    proof {
        assert(v.take(1) =~= seq![v[0]]);
    }
    while i < n
        invariant
            1 <= i <= n,
            best < i,
            n == tab@.len(),
            v == status_table_view(tab@),
            best as int == best_status_idx(v.take(i as int)),
        decreases n - i,
    {
        proof {
            assert(v.take(i as int + 1).drop_last() =~= v.take(i as int));
            assert(v.take(i as int + 1).last() == v[i as int]);
            lemma_best_status_idx_bounds(v.take(i as int));
        }
        let is_better = tab[i].1 > tab[best].1 || (tab[i].1 == tab[best].1 && tab[i].0
            < tab[best].0);
        if is_better {
            best = i;
        }
        i = i + 1;
    }
    proof {
        assert(v.take(n as int) =~= v);
    }
    best
}

/// Index of the most frequent section entry (lexicographically smallest
/// key on ties).
fn best_section_index(tab: &Vec<(String, u64)>) -> (best: usize)
    requires
        tab@.len() >= 1,
    ensures
        best < tab@.len(),
        best as int == best_section_idx(section_table_view(tab@)),
{
    let ghost v = section_table_view(tab@);
    let n = tab.len();
    let mut best: usize = 0;
    let mut i: usize = 1;
    proof {
        assert(v.take(1) =~= seq![v[0]]);
    }
    while i < n
        invariant
            1 <= i <= n,
            best < i,
            n == tab@.len(),
            v == section_table_view(tab@),
            best as int == best_section_idx(v.take(i as int)),
        decreases n - i,
    {
        proof {
            assert(v.take(i as int + 1).drop_last() =~= v.take(i as int));
            assert(v.take(i as int + 1).last() == v[i as int]);
            lemma_best_section_idx_bounds(v.take(i as int));
        }
        let is_better = tab[i].1 > tab[best].1 || (tab[i].1 == tab[best].1 && str_lt(
            tab[i].0.as_str(),
            tab[best].0.as_str(),
        ));
        if is_better {
            best = i;
        }
        i = i + 1;
    }
    proof {
        assert(v.take(n as int) =~= v);
    }
    best
}

/// Selects the up-to-three most frequent status entries.
fn top_status_entries(tab: &Vec<(u16, u64)>) -> (sel: Vec<(u16, u64)>)
    ensures
        status_table_view(sel@) == top_statuses(status_table_view(tab@), 3),
{
    let mut work: Vec<(u16, u64)> = Vec::new();
    let n = tab.len();
    let mut i: usize = 0;
    while i < n
        invariant
            i <= n,
            n == tab@.len(),
            work@ == tab@.take(i as int),
        decreases n - i,
    {
        work.push(tab[i]);
        i = i + 1;
        proof {
            assert(work@ =~= tab@.take(i as int));
        }
    }
    proof {
        assert(tab@.take(n as int) =~= tab@);
    }
    let mut sel: Vec<(u16, u64)> = Vec::new();
    let mut n_taken: usize = 0;
    while n_taken < 3 && work.len() > 0
        invariant
            n_taken <= 3,
            top_statuses(status_table_view(tab@), 3) == status_table_view(sel@) + top_statuses(
                status_table_view(work@),
                3 - n_taken as int,
            ),
        decreases 3 - n_taken,
    {
        let ghost wv = status_table_view(work@);
        let ghost sv = status_table_view(sel@);
        let i = best_status_index(&work);
        let e = work[i];
        sel.push(e);
        work.remove(i);
        n_taken = n_taken + 1;
        proof {
            assert(status_table_view(work@) =~= wv.remove(i as int));
            assert(status_table_view(sel@) =~= sv + seq![wv[i as int]]);
            assert(top_statuses(wv, 3 - (n_taken - 1) as int) == seq![wv[i as int]] + top_statuses(
                wv.remove(i as int),
                3 - n_taken as int,
            ));
            assert(status_table_view(sel@) + top_statuses(status_table_view(work@), 3 - n_taken as int)
                =~= sv + top_statuses(wv, 3 - (n_taken - 1) as int));
        }
    }
    proof {
        if work.len() == 0 {
            assert(status_table_view(work@) =~= Seq::<(int, int)>::empty());
        }
        assert(status_table_view(sel@) + Seq::<(int, int)>::empty() =~= status_table_view(sel@));
    }
    sel
}

/// How many of the records have status `k`.
pub open spec fn count_status(records: Seq<RecordView>, k: int) -> int {
    records.filter(|r: RecordView| r.status == k).len() as int
}

/// How many of the records have section key `k` (their section,
/// prefixed with `/`).
pub open spec fn count_section(records: Seq<RecordView>, k: Seq<char>) -> int {
    records.filter(|r: RecordView| "/"@ + spec_section(r.request) == k).len() as int
}

/// Whether some entry of the status table has key `k`.
pub open spec fn has_status_key(tab: Seq<(int, int)>, k: int) -> bool {
    exists|i: int| 0 <= i < tab.len() && (#[trigger] tab[i]).0 == k
}

/// Whether some entry of the section table has key `k`.
pub open spec fn has_section_key(tab: Seq<(Seq<char>, int)>, k: Seq<char>) -> bool {
    exists|i: int| 0 <= i < tab.len() && (#[trigger] tab[i]).0 == k
}

/// The count tables mean what they say of the records: every entry
/// counts exactly the records with its key, and every key occurring
/// among the records has an entry.
pub open spec fn counts_accurate(m: StatsModel) -> bool {
    &&& forall|i: int|
        0 <= i < m.by_status.len() ==> (#[trigger] m.by_status[i]).1 == count_status(
            m.records,
            m.by_status[i].0,
        )
    &&& forall|i: int|
        0 <= i < m.by_section.len() ==> (#[trigger] m.by_section[i]).1 == count_section(
            m.records,
            m.by_section[i].0,
        )
    &&& forall|j: int|
        0 <= j < m.records.len() ==> has_status_key(m.by_status, (#[trigger] m.records[j]).status)
    &&& forall|j: int|
        0 <= j < m.records.len() ==> has_section_key(
            m.by_section,
            "/"@ + spec_section((#[trigger] m.records[j]).request),
        )
}

proof fn lemma_count_status_push(records: Seq<RecordView>, r: RecordView, k: int)
    ensures
        count_status(records.push(r), k) == count_status(records, k) + if r.status == k {
            1int
        } else {
            0int
        },
{
    reveal(Seq::filter);
    assert(records.push(r).drop_last() =~= records);
    assert(records.push(r).last() == r);
}

proof fn lemma_count_section_push(records: Seq<RecordView>, r: RecordView, k: Seq<char>)
    ensures
        count_section(records.push(r), k) == count_section(records, k) + if "/"@ + spec_section(
            r.request,
        ) == k {
            1int
        } else {
            0int
        },
{
    reveal(Seq::filter);
    assert(records.push(r).drop_last() =~= records);
    assert(records.push(r).last() == r);
}

proof fn lemma_count_status_zero(records: Seq<RecordView>, k: int)
    requires
        forall|j: int| 0 <= j < records.len() ==> (#[trigger] records[j]).status != k,
    ensures
        count_status(records, k) == 0,
    decreases records.len(),
{
    reveal(Seq::filter);
    if records.len() > 0 {
        assert forall|j: int| 0 <= j < records.drop_last().len() implies (
        #[trigger] records.drop_last()[j]).status != k by {
            assert(records.drop_last()[j] == records[j]);
        }
        lemma_count_status_zero(records.drop_last(), k);
        assert(records[records.len() - 1] == records.last());
    }
}

proof fn lemma_count_section_zero(records: Seq<RecordView>, k: Seq<char>)
    requires
        forall|j: int|
            0 <= j < records.len() ==> "/"@ + spec_section((#[trigger] records[j]).request) != k,
    ensures
        count_section(records, k) == 0,
    decreases records.len(),
{
    reveal(Seq::filter);
    if records.len() > 0 {
        assert forall|j: int| 0 <= j < records.drop_last().len() implies "/"@ + spec_section(
            (#[trigger] records.drop_last()[j]).request,
        ) != k by {
            assert(records.drop_last()[j] == records[j]);
        }
        lemma_count_section_zero(records.drop_last(), k);
        assert(records[records.len() - 1] == records.last());
    }
}

/// Well-formed aggregator state: a positive chunk width, chunk bounds
/// exactly one width apart, count tables with unique keys whose counts
/// count exactly the chunk's records per key, and a flushed-chunk
/// history that forms a contiguous partition ending where the open
/// chunk starts.
pub open spec fn stats_wf(m: StatsModel) -> bool {
    &&& 1 <= m.chunk_seconds <= u32::MAX
    &&& m.has_chunk ==> m.end == m.start + m.chunk_seconds && 0 <= m.start <= u32::MAX
    &&& !m.has_chunk ==> m.records.len() == 0 && m.by_status.len() == 0 && m.by_section.len() == 0
        && m.flushed.len() == 0
    &&& m.records.len() > 0 ==> m.by_status.len() > 0 && m.by_section.len() > 0
    &&& forall|i: int|
        0 <= i < m.by_status.len() ==> 1 <= (#[trigger] m.by_status[i]).1 <= m.records.len()
    &&& forall|i: int|
        0 <= i < m.by_section.len() ==> 1 <= (#[trigger] m.by_section[i]).1 <= m.records.len()
    &&& forall|i: int, j: int|
        0 <= i < j < m.by_status.len() ==> (#[trigger] m.by_status[i]).0 != (
        #[trigger] m.by_status[j]).0
    &&& forall|i: int, j: int|
        0 <= i < j < m.by_section.len() ==> (#[trigger] m.by_section[i]).0 != (
        #[trigger] m.by_section[j]).0
    &&& counts_accurate(m)
    &&& forall|i: int|
        0 <= i < m.flushed.len() ==> (#[trigger] m.flushed[i]).1 == m.flushed[i].0
            + m.chunk_seconds
    &&& forall|i: int|
        0 <= i && i + 1 < m.flushed.len() ==> (#[trigger] m.flushed[i + 1]).0 == m.flushed[i].1
    &&& m.flushed.len() > 0 ==> m.has_chunk && m.start == m.flushed.last().1
}

/// Flushing the open chunk preserves well-formedness.
proof fn lemma_flushed_wf(m: StatsModel)
    requires
        stats_wf(m),
        m.has_chunk,
        m.end <= u32::MAX,
    ensures
        stats_wf(stats_flushed(m)),
{
    let m2 = stats_flushed(m);
    assert(m2.flushed.last() == (m.start, m.end));
    assert forall|i: int| 0 <= i < m2.flushed.len() implies (#[trigger] m2.flushed[i]).1
        == m2.flushed[i].0 + m2.chunk_seconds by {
        if i < m.flushed.len() {
            assert(m2.flushed[i] == m.flushed[i]);
        }
    }
    assert forall|i: int| 0 <= i && i + 1 < m2.flushed.len() implies (#[trigger] m2.flushed[i
        + 1]).0 == m2.flushed[i].1 by {
        assert(m2.flushed[i] == m.flushed[i]);
        if i + 1 < m.flushed.len() {
            assert(m2.flushed[i + 1] == m.flushed[i + 1]);
        } else {
            assert(m2.flushed[i + 1] == (m.start, m.end));
            assert(m.flushed.last() == m.flushed[i]);
        }
    }
}

/// Booking a record into the open chunk preserves well-formedness.
proof fn lemma_insert_wf(m: StatsModel, r: RecordView)
    requires
        stats_wf(m),
        m.has_chunk,
    ensures
        stats_wf(stats_insert(m, r)),
{
    let m2 = stats_insert(m, r);
    let st = r.status;
    let key = "/"@ + spec_section(r.request);
    lemma_status_key_idx(m.by_status, st);
    lemma_section_key_idx(m.by_section, key);
    let si = status_key_idx(m.by_status, st);
    let ci = section_key_idx(m.by_section, key);
    assert forall|i: int| 0 <= i < m2.by_status.len() implies 1 <= (#[trigger] m2.by_status[i]).1
        <= m2.records.len() by {
        if si < m.by_status.len() {
            if i != si {
                assert(m2.by_status[i] == m.by_status[i]);
            }
        } else {
            if i < m.by_status.len() {
                assert(m2.by_status[i] == m.by_status[i]);
            }
        }
    }
    assert forall|i: int| 0 <= i < m2.by_section.len() implies 1 <= (#[trigger] m2.by_section[i]).1
        <= m2.records.len() by {
        if ci < m.by_section.len() {
            if i != ci {
                assert(m2.by_section[i] == m.by_section[i]);
            }
        } else {
            if i < m.by_section.len() {
                assert(m2.by_section[i] == m.by_section[i]);
            }
        }
    }
    assert forall|i: int, j: int| 0 <= i < j < m2.by_status.len() implies (
    #[trigger] m2.by_status[i]).0 != (#[trigger] m2.by_status[j]).0 by {
        if si == m.by_status.len() {
            if i < m.by_status.len() {
                assert(m2.by_status[i] == m.by_status[i]);
            }
            if j < m.by_status.len() {
                assert(m2.by_status[j] == m.by_status[j]);
            } else {
                assert(m2.by_status[j].0 == st);
                assert(m.by_status[i].0 != st);
            }
        } else {
            assert(m2.by_status[i].0 == m.by_status[i].0);
            assert(m2.by_status[j].0 == m.by_status[j].0);
        }
    }
    assert forall|i: int, j: int| 0 <= i < j < m2.by_section.len() implies (
    #[trigger] m2.by_section[i]).0 != (#[trigger] m2.by_section[j]).0 by {
        if ci == m.by_section.len() {
            if i < m.by_section.len() {
                assert(m2.by_section[i] == m.by_section[i]);
            }
            if j < m.by_section.len() {
                assert(m2.by_section[j] == m.by_section[j]);
            } else {
                assert(m2.by_section[j].0 == key);
                assert(m.by_section[i].0 != key);
            }
        } else {
            assert(m2.by_section[i].0 == m.by_section[i].0);
            assert(m2.by_section[j].0 == m.by_section[j].0);
        }
    }
    assert forall|i: int| 0 <= i < m2.by_status.len() implies (#[trigger] m2.by_status[i]).1
        == count_status(m2.records, m2.by_status[i].0) by {
        lemma_count_status_push(m.records, r, m2.by_status[i].0);
        if si == m.by_status.len() {
            if i < m.by_status.len() {
                assert(m2.by_status[i] == m.by_status[i]);
                assert(m.by_status[i].0 != st);
            } else {
                assert(m2.by_status[i] == (st, 1int));
                assert forall|j: int| 0 <= j < m.records.len() implies (
                #[trigger] m.records[j]).status != st by {
                    if m.records[j].status == st {
                        let w = choose|w: int|
                            0 <= w < m.by_status.len() && (#[trigger] m.by_status[w]).0 == st;
                        assert(false);
                    }
                }
                lemma_count_status_zero(m.records, st);
            }
        } else {
            if i == si {
                assert(m2.by_status[i] == (st, m.by_status[si].1 + 1));
                assert(m.by_status[si].0 == st);
            } else {
                assert(m2.by_status[i] == m.by_status[i]);
                assert(m.by_status[i].0 != m.by_status[si].0);
            }
        }
    }
    assert forall|i: int| 0 <= i < m2.by_section.len() implies (#[trigger] m2.by_section[i]).1
        == count_section(m2.records, m2.by_section[i].0) by {
        lemma_count_section_push(m.records, r, m2.by_section[i].0);
        if ci == m.by_section.len() {
            if i < m.by_section.len() {
                assert(m2.by_section[i] == m.by_section[i]);
                assert(m.by_section[i].0 != key);
            } else {
                assert(m2.by_section[i] == (key, 1int));
                assert forall|j: int| 0 <= j < m.records.len() implies "/"@ + spec_section(
                    (#[trigger] m.records[j]).request,
                ) != key by {
                    if "/"@ + spec_section(m.records[j].request) == key {
                        let w = choose|w: int|
                            0 <= w < m.by_section.len() && (#[trigger] m.by_section[w]).0 == key;
                        assert(false);
                    }
                }
                lemma_count_section_zero(m.records, key);
            }
        } else {
            if i == ci {
                assert(m2.by_section[i] == (key, m.by_section[ci].1 + 1));
                assert(m.by_section[ci].0 == key);
            } else {
                assert(m2.by_section[i] == m.by_section[i]);
                assert(m.by_section[i].0 != m.by_section[ci].0);
            }
        }
    }
    assert forall|j: int| 0 <= j < m2.records.len() implies has_status_key(
        m2.by_status,
        (#[trigger] m2.records[j]).status,
    ) by {
        if j < m.records.len() {
            assert(m2.records[j] == m.records[j]);
            let w = choose|w: int|
                0 <= w < m.by_status.len() && (#[trigger] m.by_status[w]).0 == m.records[j].status;
            assert(m2.by_status[w].0 == m.records[j].status);
        } else {
            assert(m2.records[j] == r);
            assert(m2.by_status[si].0 == st);
        }
    }
    assert forall|j: int| 0 <= j < m2.records.len() implies has_section_key(
        m2.by_section,
        "/"@ + spec_section((#[trigger] m2.records[j]).request),
    ) by {
        if j < m.records.len() {
            assert(m2.records[j] == m.records[j]);
            let w = choose|w: int|
                0 <= w < m.by_section.len() && (#[trigger] m.by_section[w]).0 == "/"@
                    + spec_section(m.records[j].request);
            assert(m2.by_section[w].0 == "/"@ + spec_section(m.records[j].request));
        } else {
            assert(m2.records[j] == r);
            assert(m2.by_section[ci].0 == key);
        }
    }
}

/// Buckets an ordered record stream into fixed-width time chunks and
/// renders one summary line per closed chunk.
pub struct ChunkedStatsMonitor {
    /// The number of seconds of requests to include in each stats chunk.
    chunk_seconds: u32,
    /// Whether the first record has opened a chunk yet.
    has_chunk: bool,
    /// Start of the open chunk's half-open time range.
    chunk_start: u64,
    /// End of the open chunk's half-open time range.
    chunk_end: u64,
    /// Requests that are in the chunk currently being aggregated.
    requests: Vec<RequestRecord>,
    /// Request counts by status code for the current chunk.
    by_status: Vec<(u16, u64)>,
    /// Request counts by section for the current chunk.
    by_section: Vec<(String, u64)>,
    /// The chunk ranges flushed so far, for stating the coverage law.
    flushed: Ghost<Seq<(int, int)>>,
}

impl View for ChunkedStatsMonitor {
    type V = StatsModel;

    closed spec fn view(&self) -> StatsModel {
        StatsModel {
            chunk_seconds: self.chunk_seconds as int,
            has_chunk: self.has_chunk,
            start: self.chunk_start as int,
            end: self.chunk_end as int,
            records: self.requests@.map_values(|r: RequestRecord| r@),
            by_status: status_table_view(self.by_status@),
            by_section: section_table_view(self.by_section@),
            flushed: self.flushed@,
        }
    }
}

impl ChunkedStatsMonitor {
    /// Well-formed aggregator.
    pub open spec fn wf(&self) -> bool {
        stats_wf(self@)
    }

    /// Creates an aggregator for the given configuration; the first
    /// chunk opens on the first record pushed.
    pub fn from_config(config: &Config) -> (m: Self)
        requires
            config.wf(),
        ensures
            m.wf(),
            m@.chunk_seconds == config.stats_window,
            !m@.has_chunk,
            m@.start == 0,
            m@.end == 0,
            m@.records == Seq::<RecordView>::empty(),
            m@.by_status == Seq::<(int, int)>::empty(),
            m@.by_section == Seq::<(Seq<char>, int)>::empty(),
            m@.flushed == Seq::<(int, int)>::empty(),
    {
        let m = ChunkedStatsMonitor {
            chunk_seconds: config.stats_window,
            has_chunk: false,
            chunk_start: 0,
            chunk_end: 0,
            requests: Vec::new(),
            by_status: Vec::new(),
            by_section: Vec::new(),
            flushed: Ghost(Seq::empty()),
        };
        proof {
            assert(m@.records =~= Seq::<RecordView>::empty());
            assert(m@.by_status =~= Seq::<(int, int)>::empty());
            assert(m@.by_section =~= Seq::<(Seq<char>, int)>::empty());
        }
        m
    }

    /// Renders the summary line for the currently open chunk.
    fn render_pending_line(&self) -> (s: String)
        requires
            self.wf(),
            self@.has_chunk,
        ensures
            s@ == spec_pending_line(self@),
    {
        let mut s = render_datetime(self.chunk_start);
        s.append("-");
        let clock = render_clock(self.chunk_end);
        s.append(clock.as_str());
        s.append("  |  ");
        let total = self.requests.len();
        if total > 0 {
            let count_str = u64_to_string(total as u64);
            s.append(count_str.as_str());
            s.append(" requests at ");
            let rate = tenths_to_string((total as u128) * 10 / (self.chunk_seconds as u128));
            s.append(rate.as_str());
            s.append("rps  |  ");
            if self.by_section.len() > 0 {
                let bi = best_section_index(&self.by_section);
                let pct = u128_to_string(
                    100u128 * (self.by_section[bi].1 as u128) / (total as u128),
                );
                s.append(pct.as_str());
                s.append("% in ");
                s.append(self.by_section[bi].0.as_str());
            }
            s.append("  |  ");
            let sel = top_status_entries(&self.by_status);
            let st = render_statuses(&sel, total as u64);
            s.append(st.as_str());
            proof {
                assert(s@ =~= spec_pending_line(self@));
            }
        } else {
            s.append("no requests");
            proof {
                assert(s@ =~= spec_pending_line(self@));
            }
        }
        s
    }

    /// Pushes the next (time-ordered) record.  Every chunk that closed
    /// before the record is flushed as one summary line — silent chunks
    /// as "no requests" lines — and the record is booked into the chunk
    /// that contains its timestamp.
    pub fn push(&mut self, record: &RequestRecord) -> (lines: Vec<String>)
        requires
            old(self).wf(),
            old(self)@.has_chunk ==> old(self)@.start <= record@.date,
        ensures
            final(self).wf(),
            final(self)@ == stats_step(old(self)@, record@).0,
            line_views(lines@) == stats_step(old(self)@, record@).1,
            final(self)@.has_chunk,
            final(self)@.start <= record@.date < final(self)@.end,
            final(self)@.chunk_seconds == old(self)@.chunk_seconds,
    {
        let ghost m0 = self@;
        let ghost d = record@.date;
        if !self.has_chunk {
            self.has_chunk = true;
            self.chunk_start = record.date as u64;
            self.chunk_end = (record.date as u64) + (self.chunk_seconds as u64);
        }
        let ghost opened = stats_open(m0, d);
        proof {
            assert(self@ == opened);
        }
        let mut lines: Vec<String> = Vec::new();
        proof {
            assert(line_views(lines@) =~= Seq::<Seq<char>>::empty());
            assert(line_views(lines@) + stats_flush_loop(self@, d).1 =~= stats_flush_loop(
                self@,
                d,
            ).1);
        }
        while self.chunk_end <= record.date as u64
            invariant
                stats_wf(self@),
                self@.has_chunk,
                self@.chunk_seconds == m0.chunk_seconds,
                self@.start <= d,
                d == record@.date,
                stats_flush_loop(opened, d).0 == stats_flush_loop(self@, d).0,
                stats_flush_loop(opened, d).1 == line_views(lines@) + stats_flush_loop(
                    self@,
                    d,
                ).1,
            decreases d - self@.start,
        {
            let ghost prev = self@;
            let ghost lines0 = line_views(lines@);
            let line = self.render_pending_line();
            lines.push(line);
            proof {
                self.flushed@ = self.flushed@.push((self@.start, self@.end));
            }
            self.requests.clear();
            self.by_status.clear();
            self.by_section.clear();
            self.chunk_start = self.chunk_end;
            self.chunk_end = self.chunk_start + (self.chunk_seconds as u64);
            proof {
                assert(self@.records =~= Seq::<RecordView>::empty());
                assert(self@.by_status =~= Seq::<(int, int)>::empty());
                assert(self@.by_section =~= Seq::<(Seq<char>, int)>::empty());
                assert(self@ == stats_flushed(prev));
                lemma_flushed_wf(prev);
                assert(stats_flush_loop(prev, d) == (
                    stats_flush_loop(stats_flushed(prev), d).0,
                    seq![spec_pending_line(prev)] + stats_flush_loop(stats_flushed(prev), d).1,
                ));
                assert(line_views(lines@) =~= lines0.push(line@));
                assert(line_views(lines@) + stats_flush_loop(self@, d).1 =~= lines0 + (seq![
                    spec_pending_line(prev),
                ] + stats_flush_loop(self@, d).1));
            }
        }
        proof {
            assert(stats_flush_loop(self@, d) == (self@, Seq::<Seq<char>>::empty()));
            assert(line_views(lines@) + Seq::<Seq<char>>::empty() =~= line_views(lines@));
            assert(stats_flush_loop(opened, d).1 == line_views(lines@));
        }
        let ghost before_insert = self@;
        self.requests.push(record.clone());
        let len_now = self.requests.len();
        proof {
            assert(self@.records =~= before_insert.records.push(record@));
            assert(len_now == before_insert.records.len() + 1);
        }
        proof {
            assert forall|i: int| 0 <= i < self.by_status@.len() implies (
            #[trigger] self.by_status@[i]).1 < u64::MAX by {
                assert(before_insert.by_status[i] == (
                    self.by_status@[i].0 as int,
                    self.by_status@[i].1 as int,
                ));
                assert(before_insert.by_status[i].1 <= before_insert.records.len());
            }
        }
        bump_status_table(&mut self.by_status, record.status);
        let sec = record.section();
        let mut key = String::from_str("/");
        key.append(sec);
        proof {
            assert forall|i: int| 0 <= i < self.by_section@.len() implies (
            #[trigger] self.by_section@[i]).1 < u64::MAX by {
                assert(before_insert.by_section[i] == (
                    self.by_section@[i].0@,
                    self.by_section@[i].1 as int,
                ));
                assert(before_insert.by_section[i].1 <= before_insert.records.len());
            }
        }
        bump_section_table(&mut self.by_section, &key);
        proof {
            assert(self@ == stats_insert(before_insert, record@));
            lemma_insert_wf(before_insert, record@);
            assert(final(self)@ == stats_step(m0, record@).0);
            assert(line_views(lines@) == stats_step(m0, record@).1);
        }
        lines
    }

    /// The output owed at stream end: the open chunk's summary, exactly
    /// once, if a chunk was ever opened.
    pub fn pending(&self) -> (lines: Vec<String>)
        requires
            self.wf(),
        ensures
            line_views(lines@) == spec_stats_pending(self@),
    {
        let mut lines: Vec<String> = Vec::new();
        if self.has_chunk {
            let line = self.render_pending_line();
            lines.push(line);
        }
        proof {
            assert(line_views(lines@) =~= spec_stats_pending(self@));
        }
        lines
    }
}

/// The chunk coverage law: the flushed chunk ranges all have width
/// `stats_window`, they abut with no gap and no overlap, and the still
/// open chunk continues the partition exactly where the last flushed
/// chunk ended.
pub proof fn lemma_chunk_coverage(m: &ChunkedStatsMonitor)
    requires
        m.wf(),
    ensures
        forall|i: int|
            0 <= i < m@.flushed.len() ==> (#[trigger] m@.flushed[i]).1 == m@.flushed[i].0
                + m@.chunk_seconds,
        forall|i: int|
            0 <= i && i + 1 < m@.flushed.len() ==> (#[trigger] m@.flushed[i + 1]).0
                == m@.flushed[i].1,
        m@.flushed.len() > 0 ==> m@.has_chunk && m@.start == m@.flushed.last().1,
{
}

/// Renders the selected status entries joined with commas.
fn render_statuses(sel: &Vec<(u16, u64)>, total: u64) -> (s: String)
    requires
        total >= 1,
    ensures
        s@ == statuses_text(status_table_view(sel@), total as int),
{
    let mut s = String::new();
    let n = sel.len();
    let mut i: usize = 0;
    while i < n
        invariant
            i <= n,
            n == sel@.len(),
            total >= 1,
            s@ == statuses_text(status_table_view(sel@).take(i as int), total as int),
        decreases n - i,
    {
        if i > 0 {
            s.append(", ");
        }
        let pct = u128_to_string(100u128 * (sel[i].1 as u128) / (total as u128));
        s.append(pct.as_str());
        s.append("% ");
        let code = u64_to_string_pad3(sel[i].0 as u64);
        s.append(code.as_str());
        i = i + 1;
        proof {
            let sv = status_table_view(sel@);
            assert(sv.take(i as int).drop_last() =~= sv.take(i as int - 1));
            assert(sv.take(i as int).last() == sv[i as int - 1]);
            assert(s@ =~= statuses_text(sv.take(i as int), total as int));
        }
    }
    proof {
        assert(status_table_view(sel@).take(n as int) =~= status_table_view(sel@));
    }
    s
}

} // verus!
