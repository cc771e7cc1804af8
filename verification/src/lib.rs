//! Streaming HTTP access-log monitor.
//!
//! The pipeline consumes decoded request records whose timestamps may be
//! mildly out of order, restores non-decreasing timestamp order with a
//! bounded-delay reordering buffer, and fans the ordered stream out to two
//! monitors: a chunked statistics aggregator and a rolling-window alert
//! monitor.  All I/O (CSV decoding, terminal handling) lives outside this
//! crate; the library works on plain values and is verified.

pub mod chunked_stats_monitor;
pub mod models;
pub mod rolling_alerts_monitor;
pub mod sorted_request_iterator;
pub mod text;
pub mod time;

pub use crate::chunked_stats_monitor::ChunkedStatsMonitor;
pub use crate::models::{ChronologyError, Config, RequestRecord};
pub use crate::rolling_alerts_monitor::RollingAlertsMonitor;
pub use crate::sorted_request_iterator::SortedRequestIterator;

use vstd::prelude::*;

use crate::chunked_stats_monitor::{spec_stats_pending, stats_step, StatsModel};
use crate::models::{line_views, RecordView};
use crate::rolling_alerts_monitor::{alert_step, AlertModel};
use crate::sorted_request_iterator::{lemma_stable_sorted_sorted, max_date, stable_sorted};

verus! {

/// The views of a sequence of records.
pub open spec fn record_views(records: Seq<RequestRecord>) -> Seq<RecordView> {
    records.map_values(|r: RequestRecord| r@)
}

/// The aggregator's state before the first record.
pub open spec fn initial_stats(config: Config) -> StatsModel {
    StatsModel {
        chunk_seconds: config.stats_window as int,
        has_chunk: false,
        start: 0,
        end: 0,
        records: Seq::empty(),
        by_status: Seq::empty(),
        by_section: Seq::empty(),
        flushed: Seq::empty(),
    }
}

/// The alert monitor's state before the first record.
pub open spec fn initial_alerts(config: Config) -> AlertModel {
    AlertModel {
        window_seconds: config.alert_window as int,
        alert_rate: config.alert_rate as int,
        triggered: false,
        dates: Seq::empty(),
        events: Seq::empty(),
    }
}

/// One dispatch step: the record goes to the aggregator first, then to
/// the alert monitor, and their lines are emitted in that order.
pub open spec fn run_step(st: (StatsModel, AlertModel), r: RecordView) -> (
    (StatsModel, AlertModel),
    Seq<Seq<char>>,
) {
    let s = stats_step(st.0, r);
    let a = alert_step(st.1, r.date as u32);
    (((s.0, a.0)), s.1 + a.1)
}

/// The monitors' states after consuming an ordered record sequence.
pub open spec fn run_states(ordered: Seq<RecordView>, config: Config) -> (StatsModel, AlertModel)
    decreases ordered.len(),
{
    if ordered.len() == 0 {
        (initial_stats(config), initial_alerts(config))
    } else {
        run_step(run_states(ordered.drop_last(), config), ordered.last()).0
    }
}

/// Every line emitted while consuming an ordered record sequence, in
/// emission order.
pub open spec fn run_lines(ordered: Seq<RecordView>, config: Config) -> Seq<Seq<char>>
    decreases ordered.len(),
{
    if ordered.len() == 0 {
        Seq::empty()
    } else {
        run_lines(ordered.drop_last(), config) + run_step(
            run_states(ordered.drop_last(), config),
            ordered.last(),
        ).1
    }
}

/// Every line the whole pipeline emits for a raw record sequence: the
/// records are stably sorted by the reordering buffer, dispatched one by
/// one, and the still-open stats chunk is flushed at stream end.
pub open spec fn spec_monitor_lines(raw: Seq<RecordView>, config: Config) -> Seq<Seq<char>> {
    let ordered = stable_sorted(raw);
    run_lines(ordered, config) + spec_stats_pending(run_states(ordered, config).0)
}

/// The reordering buffer accepts a raw sequence exactly when no record
/// precedes a later record by more than the buffered seconds.
pub open spec fn accepts_all(raw: Seq<RecordView>, buffer: int) -> bool {
    forall|j: int, i: int|
        0 <= j < i < raw.len() ==> (#[trigger] raw[j]).date <= (#[trigger] raw[i]).date + buffer
}

/// Every timestamp is bounded by the sequence's maximum.
proof fn lemma_max_date_ge(s: Seq<RecordView>, j: int)
    requires
        0 <= j < s.len(),
    ensures
        s[j].date <= max_date(s),
    decreases s.len(),
{
    if j < s.len() - 1 {
        lemma_max_date_ge(s.drop_last(), j);
        assert(s.drop_last()[j] == s[j]);
    } else {
        assert(s[j] == s.last());
    }
}

/// A non-empty sequence of non-negative timestamps attains its maximum.
proof fn lemma_max_date_attained(s: Seq<RecordView>)
    requires
        s.len() > 0,
        forall|j: int| 0 <= j < s.len() ==> (#[trigger] s[j]).date >= 0,
    ensures
        exists|j: int| 0 <= j < s.len() && (#[trigger] s[j]).date == max_date(s),
    decreases s.len(),
{
    if s.last().date >= max_date(s.drop_last()) {
        assert(s[s.len() - 1] == s.last());
    } else {
        assert forall|j: int| 0 <= j < s.drop_last().len() implies (
        #[trigger] s.drop_last()[j]).date >= 0 by {
            assert(s.drop_last()[j] == s[j]);
        }
        lemma_max_date_attained(s.drop_last());
        let j = choose|j: int|
            0 <= j < s.drop_last().len() && (#[trigger] s.drop_last()[j]).date == max_date(
                s.drop_last(),
            );
        assert(s[j] == s.drop_last()[j]);
    }
}

/// The single-pass monitoring pipeline: reordering buffer in front, the
/// stats aggregator and the alert monitor behind it.
pub struct Pipeline {
    /// The reordering buffer in front of the monitors.
    pub buffer: SortedRequestIterator,
    /// The chunked statistics aggregator.
    pub stats: ChunkedStatsMonitor,
    /// The rolling alert monitor.
    pub alerts: RollingAlertsMonitor,
    /// The configuration the pipeline was built with.
    pub config: Config,
}

impl Pipeline {
    /// The records released to the monitors so far, in release order.
    pub open spec fn processed(&self) -> Seq<RecordView> {
        self.buffer@.emitted
    }

    /// The monitors are exactly the fold of the dispatch step over the
    /// released records, and the buffer is well-formed.
    pub open spec fn in_sync(&self) -> bool {
        &&& self.config.wf()
        &&& self.buffer.wf()
        &&& self.buffer@.buffer_seconds == self.config.spec_buffer_seconds()
        &&& self.stats.wf()
        &&& self.alerts.wf()
        &&& self.stats@ == run_states(self.processed(), self.config).0
        &&& self.alerts@ == run_states(self.processed(), self.config).1
        &&& self.stats@.has_chunk <==> self.processed().len() > 0
        &&& self.stats@.has_chunk ==> self.stats@.start <= self.processed().last().date
        &&& self.processed().len() > 0 ==> self.alerts@.dates.len() > 0
            && self.alerts@.dates.last() == self.processed().last().date
    }

    /// Well-formed pipeline, between pushes: monitors in sync with the
    /// buffer, no settled record still waiting, and the source not yet
    /// exhausted.
    pub open spec fn wf(&self) -> bool {
        &&& self.in_sync()
        &&& self.buffer.settled()
        &&& !self.buffer@.finished
        &&& self.buffer@.ready.len() == 0
    }

    /// Creates a pipeline with no records seen yet.
    pub fn new(config: &Config) -> (p: Self)
        requires
            config.wf(),
        ensures
            p.wf(),
            p.config == *config,
            p.buffer@.pushed.len() == 0,
            p.processed().len() == 0,
    {
        let p = Pipeline {
            buffer: SortedRequestIterator::new(config),
            stats: ChunkedStatsMonitor::from_config(config),
            alerts: RollingAlertsMonitor::from_config(config),
            config: *config,
        };
        proof {
            assert(p.stats@ == initial_stats(*config));
            assert(p.alerts@ == initial_alerts(*config));
        }
        p
    }

    /// Releases every settled record to the monitors, collecting their
    /// lines in dispatch order.
    #[verifier::rlimit(90)]
    fn drain_ready(&mut self) -> (lines: Vec<String>)
        requires
            old(self).in_sync(),
        ensures
            final(self).in_sync(),
            final(self).buffer@.ready.len() == 0,
            final(self).buffer@.pushed == old(self).buffer@.pushed,
            final(self).buffer@.pending == old(self).buffer@.pending,
            final(self).buffer@.finished == old(self).buffer@.finished,
            final(self).buffer@.largest == old(self).buffer@.largest,
            final(self).buffer@.buffer_seconds == old(self).buffer@.buffer_seconds,
            final(self).config == old(self).config,
            final(self).processed() == old(self).processed() + old(self).buffer@.ready,
            run_lines(old(self).processed(), old(self).config) + line_views(lines@) == run_lines(
                final(self).processed(),
                final(self).config,
            ),
    {
        let mut lines: Vec<String> = Vec::new();
        let ghost m0 = self.buffer@;
        proof {
            assert(line_views(lines@) =~= Seq::<Seq<char>>::empty());
            assert(run_lines(self.processed(), self.config) + line_views(lines@) =~= run_lines(
                self.processed(),
                self.config,
            ));
            assert(m0.emitted + m0.ready.take(0) =~= m0.emitted);
        }
        while self.buffer.has_ready()
            invariant
                self.in_sync(),
                self.config == old(self).config,
                self.buffer@.pushed == m0.pushed,
                self.buffer@.pending == m0.pending,
                self.buffer@.finished == m0.finished,
                self.buffer@.buffer_seconds == m0.buffer_seconds,
                self.buffer@.largest == m0.largest,
                self.processed().len() >= m0.emitted.len(),
                self.processed().len() - m0.emitted.len() <= m0.ready.len(),
                self.processed() == m0.emitted + m0.ready.take(
                    self.processed().len() - m0.emitted.len(),
                ),
                self.buffer@.ready == m0.ready.skip(self.processed().len() - m0.emitted.len()),
                run_lines(m0.emitted, self.config) + line_views(lines@) == run_lines(
                    self.processed(),
                    self.config,
                ),
            decreases self.buffer@.ready.len(),
        {
            let ghost processed0 = self.processed();
            let ghost ready0 = self.buffer@.ready;
            let ghost lines0 = line_views(lines@);
            let ghost k = self.processed().len() - m0.emitted.len();
            let popped = self.buffer.pop();
            let rec = popped.unwrap();
            proof {
                assert(rec@ == ready0[0]);
                assert(self.processed() =~= processed0.push(rec@));
                assert(m0.ready.skip(k)[0] == m0.ready[k]);
                assert(m0.ready.take(k + 1) =~= m0.ready.take(k).push(m0.ready[k]));
                assert(self.processed() =~= m0.emitted + m0.ready.take(k + 1));
                assert(m0.ready.skip(k).drop_first() =~= m0.ready.skip(k + 1));
                // the released record is not older than anything already processed
                lemma_stable_sorted_sorted(self.buffer@.pushed);
                let all = self.buffer@.emitted + self.buffer@.ready + self.buffer@.pending;
                assert(all == stable_sorted(self.buffer@.pushed));
                if processed0.len() > 0 {
                    assert(processed0.last() == all[processed0.len() - 1]);
                    assert(rec@ == all[processed0.len() as int]);
                    assert(all[processed0.len() - 1].date <= all[processed0.len() as int].date);
                }
            }
            let mut stats_lines = self.stats.push(&rec);
            let ghost sv = line_views(stats_lines@);
            let mut alert_lines = self.alerts.push(&rec);
            let ghost av = line_views(alert_lines@);
            lines.append(&mut stats_lines);
            lines.append(&mut alert_lines);
            proof {
                let cfg = self.config;
                assert(self.processed().drop_last() =~= processed0);
                assert(self.processed().last() == rec@);
                assert((rec@.date as u32) == rec.date);
                assert(self.stats@ == run_states(self.processed(), cfg).0);
                assert(self.alerts@ == run_states(self.processed(), cfg).1);
                assert(line_views(lines@) =~= (lines0 + sv) + av);
                assert(line_views(lines@) =~= lines0 + run_step(
                    run_states(processed0, cfg),
                    rec@,
                ).1);
                assert(run_lines(m0.emitted, cfg) + line_views(lines@) =~= (run_lines(
                    m0.emitted,
                    cfg,
                ) + lines0) + run_step(run_states(processed0, cfg), rec@).1);
                assert(run_lines(self.processed(), cfg) == run_lines(processed0, cfg) + run_step(
                    run_states(processed0, cfg),
                    rec@,
                ).1);
            }
        }
        proof {
            let k = self.processed().len() - m0.emitted.len();
            assert(self.buffer@.ready.len() == 0);
            assert(m0.ready.skip(k).len() == 0);
            assert(k == m0.ready.len());
            assert(m0.ready.take(m0.ready.len() as int) =~= m0.ready);
        }
        lines
    }

    /// Accepts the next raw record.  On success, every record this
    /// settles is dispatched and the new output lines are returned; a
    /// record behind the buffered window is a fatal chronology violation
    /// and leaves the pipeline unchanged.
    pub fn push(&mut self, record: &RequestRecord) -> (r: Result<Vec<String>, ChronologyError>)
        requires
            old(self).wf(),
        ensures
            final(self).wf(),
            final(self).config == old(self).config,
            r is Ok <==> record@.date + old(self).config.spec_buffer_seconds() >= max_date(
                old(self).buffer@.pushed,
            ),
            r is Err ==> final(self).buffer@ == old(self).buffer@ && final(self).stats == old(
                self,
            ).stats && final(self).alerts == old(self).alerts && r == Err::<
                Vec<String>,
                ChronologyError,
            >(
                ChronologyError {
                    date: record.date,
                    watermark: max_date(old(self).buffer@.pushed) as u32,
                },
            ),
            r is Ok ==> final(self).buffer@.pushed == old(self).buffer@.pushed.push(record@),
            r is Err ==> final(self).buffer@.pushed == old(self).buffer@.pushed,
            r matches Ok(lines) ==> run_lines(old(self).processed(), old(self).config)
                + line_views(lines@) == run_lines(final(self).processed(), final(self).config),
    {
        match self.buffer.push(record) {
            Err(e) => Err(e),
            Ok(()) => {
                let lines = self.drain_ready();
                Ok(lines)
            },
        }
    }

    /// Declares the raw source exhausted: the buffer drains in timestamp
    /// order, the remaining records are dispatched, and the still-open
    /// stats chunk is flushed.  Together with the lines already returned
    /// by `push`, the output is exactly the pipeline's output for the
    /// pushed records.
    pub fn finish(&mut self) -> (lines: Vec<String>)
        requires
            old(self).wf(),
        ensures
            run_lines(old(self).processed(), old(self).config) + line_views(lines@)
                == spec_monitor_lines(old(self).buffer@.pushed, old(self).config),
    {
        let ghost processed0 = self.processed();
        let ghost cfg = self.config;
        let ghost pushed = self.buffer@.pushed;
        self.buffer.finish();
        let mut lines = self.drain_ready();
        let ghost drained = line_views(lines@);
        proof {
            assert(self.buffer@.emitted + self.buffer@.ready + self.buffer@.pending
                =~= self.buffer@.emitted);
            assert(self.processed() == stable_sorted(pushed));
        }
        let mut tail = self.stats.pending();
        let ghost tail_views = line_views(tail@);
        lines.append(&mut tail);
        proof {
            assert(line_views(lines@) =~= drained + tail_views);
            assert(run_lines(processed0, cfg) + line_views(lines@) =~= (run_lines(processed0, cfg)
                + drained) + tail_views);
            assert(run_lines(processed0, cfg) + line_views(lines@) =~= run_lines(
                stable_sorted(pushed),
                cfg,
            ) + spec_stats_pending(run_states(stable_sorted(pushed), cfg).0));
        }
        lines
    }
}

/// Runs the whole pipeline over a decoded record stream: the records are
/// reordered into non-decreasing timestamp order, dispatched to the
/// stats aggregator and the alert monitor, and the pending chunk is
/// flushed at stream end.  The run fails, with no output, exactly when
/// some record is more than `2 × maximum_timestamp_error` seconds older
/// than an earlier record.
pub fn monitor_stream(records: &Vec<RequestRecord>, config: &Config) -> (r: Result<
    Vec<String>,
    ChronologyError,
>)
    requires
        config.wf(),
    ensures
        r is Ok <==> accepts_all(record_views(records@), config.spec_buffer_seconds()),
        r matches Ok(lines) ==> line_views(lines@) == spec_monitor_lines(
            record_views(records@),
            *config,
        ),
        r matches Err(e) ==> exists|i: int|
            0 <= i < records@.len() && (#[trigger] records@[i])@.date == e.date && max_date(
                record_views(records@).take(i),
            ) == e.watermark && e.date + config.spec_buffer_seconds() < e.watermark,
{
    let ghost raw = record_views(records@);
    let ghost buffer = config.spec_buffer_seconds();
    let mut pipeline = Pipeline::new(config);
    let mut lines: Vec<String> = Vec::new();
    let mut idx: usize = 0;
    let n = records.len();
    proof {
        assert(raw.take(0) =~= Seq::<RecordView>::empty());
        assert(line_views(lines@) =~= Seq::<Seq<char>>::empty());
    }
    while idx < n
        invariant
            pipeline.wf(),
            pipeline.config == *config,
            n == records@.len(),
            0 <= idx <= n,
            raw == record_views(records@),
            buffer == config.spec_buffer_seconds(),
            pipeline.buffer@.pushed == raw.take(idx as int),
            accepts_all(raw.take(idx as int), buffer),
            run_lines(pipeline.processed(), *config) == line_views(lines@),
        decreases n - idx,
    {
        let ghost pushed0 = pipeline.buffer@.pushed;
        let ghost processed0 = pipeline.processed();
        let ghost lines0 = line_views(lines@);
        let record = &records[idx];
        proof {
            assert(raw[idx as int] == record@);
        }
        let result = pipeline.push(record);
        match result {
            Err(e) => {
                proof {
                    assert(record@.date + buffer < max_date(pushed0));
                    assert forall|j: int| 0 <= j < pushed0.len() implies (
                    #[trigger] pushed0[j]).date >= 0 by {
                        assert(pushed0[j] == raw[j]);
                        assert(raw[j] == records@[j]@);
                    }
                    lemma_max_date_attained(pushed0);
                    let j = choose|j: int|
                        0 <= j < pushed0.len() && (#[trigger] pushed0[j]).date == max_date(
                            pushed0,
                        );
                    assert(raw[j] == pushed0[j]);
                    assert(raw[j].date > raw[idx as int].date + buffer);
                    assert(!accepts_all(raw, buffer));
                    assert(records@[idx as int]@.date == e.date);
                    assert(max_date(record_views(records@).take(idx as int)) == e.watermark);
                    assert(e.date + config.spec_buffer_seconds() < e.watermark);
                }
                return Err(e);
            },
            Ok(mut new_lines) => {
                let ghost nv = line_views(new_lines@);
                lines.append(&mut new_lines);
                proof {
                    assert(line_views(lines@) =~= lines0 + nv);
                    assert(pipeline.buffer@.pushed =~= raw.take(idx as int + 1));
                    assert forall|j: int, i: int|
                        0 <= j < i < raw.take(idx as int + 1).len() implies (#[trigger] raw.take(
                        idx as int + 1,
                    )[j]).date <= (#[trigger] raw.take(idx as int + 1)[i]).date + buffer by {
                        if i < idx as int {
                            assert(raw.take(idx as int)[j] == raw[j]);
                            assert(raw.take(idx as int)[i] == raw[i]);
                        } else {
                            assert(raw[j] == pushed0[j]);
                            lemma_max_date_ge(pushed0, j);
                        }
                    }
                }
            },
        }
        idx = idx + 1;
    }
    proof {
        assert(raw.take(n as int) =~= raw);
    }
    let mut tail = pipeline.finish();
    lines.append(&mut tail);
    proof {
        assert(line_views(lines@) =~= spec_monitor_lines(raw, *config));
    }
    Ok(lines)
}

/// The replay-idempotence law: the pipeline's output is a function of
/// the raw records and the configuration alone, so re-running it on the
/// same input and configuration produces identical output.
pub proof fn lemma_replay_idempotent(
    raw: Seq<RecordView>,
    config: Config,
    out1: Seq<Seq<char>>,
    out2: Seq<Seq<char>>,
)
    requires
        out1 == spec_monitor_lines(raw, config),
        out2 == spec_monitor_lines(raw, config),
    ensures
        out1 == out2,
{
}

} // verus!
