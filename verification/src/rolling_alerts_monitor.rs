//! The rolling-window alert monitor.
//!
//! It keeps the records of the last `alert_window` seconds, computes the
//! instantaneous request rate after every record, and emits exactly one
//! line per threshold crossing: an ALERT line when the rate reaches the
//! threshold, a RECOVERY line when it falls back below.  The signal is
//! edge-triggered: no line is emitted while the flag is unchanged.

use std::collections::VecDeque;

use vstd::prelude::*;
use vstd::string::*;

use crate::models::{Config, RequestRecord};
use crate::text::{spec_decimal, spec_tenths, tenths_to_string, u64_to_string};
use crate::time::{datetime_display, render_datetime};

verus! {

/// Mathematical state of the alert monitor.
pub struct AlertModel {
    /// Seconds of traffic the rolling window covers.
    pub window_seconds: int,
    /// Requests per second required to trigger an alert.
    pub alert_rate: int,
    /// Whether the alert is currently triggered.
    pub triggered: bool,
    /// Timestamps of the records in the window, oldest first.
    pub dates: Seq<int>,
    /// Every emitted transition so far: `true` per ALERT line, `false`
    /// per RECOVERY line.
    pub events: Seq<bool>,
}

/// How many records fall off the front of the window once `now` is the
/// newest timestamp: the longest prefix whose age reaches `window`.
pub open spec fn evict_count(dates: Seq<int>, window: int, now: int) -> int
    decreases dates.len(),
{
    if dates.len() > 0 && dates[0] + window <= now {
        1 + evict_count(dates.drop_first(), window, now)
    } else {
        0
    }
}

pub proof fn lemma_evict_count_bounds(dates: Seq<int>, window: int, now: int)
    ensures
        0 <= evict_count(dates, window, now) <= dates.len(),
    decreases dates.len(),
{
    if dates.len() > 0 && dates[0] + window <= now {
        lemma_evict_count_bounds(dates.drop_first(), window, now);
    }
}

/// A window whose newest record is younger than `window` never empties.
pub proof fn lemma_evict_count_keeps_last(dates: Seq<int>, window: int, now: int)
    requires
        dates.len() > 0,
        dates.last() + window > now,
    ensures
        evict_count(dates, window, now) < dates.len(),
    decreases dates.len(),
{
    if dates.len() > 0 && dates[0] + window <= now {
        lemma_evict_count_keeps_last(dates.drop_first(), window, now);
    }
}

/// On a time-ordered window the eviction boundary is exact: everything
/// evicted had aged at least `window` seconds, and everything kept is
/// younger than that.
pub proof fn lemma_evict_boundary(dates: Seq<int>, window: int, now: int)
    requires
        forall|i: int, j: int| 0 <= i <= j < dates.len() ==> #[trigger] dates[i] <= #[trigger] dates[j],
    ensures
        forall|i: int| 0 <= i < evict_count(dates, window, now) ==> #[trigger] dates[i] + window
            <= now,
        forall|i: int|
            evict_count(dates, window, now) <= i < dates.len() ==> #[trigger] dates[i] + window
                > now,
    decreases dates.len(),
{
    lemma_evict_count_bounds(dates, window, now);
    if dates.len() > 0 && dates[0] + window <= now {
        assert forall|i: int, j: int|
            0 <= i <= j < dates.drop_first().len() implies #[trigger] dates.drop_first()[i]
            <= #[trigger] dates.drop_first()[j] by {
            assert(dates.drop_first()[i] == dates[i + 1]);
            assert(dates.drop_first()[j] == dates[j + 1]);
        }
        lemma_evict_boundary(dates.drop_first(), window, now);
        let k = evict_count(dates, window, now);
        assert forall|i: int| 0 <= i < k implies #[trigger] dates[i] + window <= now by {
            if i > 0 {
                assert(dates.drop_first()[i - 1] == dates[i]);
            }
        }
        assert forall|i: int| k <= i < dates.len() implies #[trigger] dates[i] + window > now by {
            assert(dates.drop_first()[i - 1] == dates[i]);
        }
    }
}

/// The average rate over the window, in tenths of a request per second.
pub open spec fn spec_rate_tenths(count: int, window: int) -> int {
    count * 10 / window
}

/// The ALERT line for a crossing at `date` with `count` records in the
/// window.
pub open spec fn spec_alert_line(date: u32, count: int, window: int, rate: int) -> Seq<char> {
    datetime_display(date as u64) + " ALERT: average of "@ + spec_tenths(spec_rate_tenths(count, window))
        + "rps over last "@ + spec_decimal(window) + " seconds exceeds threshold of "@
        + spec_tenths(rate * 10) + "rps"@
}

/// The RECOVERY line for a crossing back below the threshold.
pub open spec fn spec_recovery_line(date: u32, count: int, window: int, rate: int) -> Seq<char> {
    datetime_display(date as u64) + " RECOVERY: average of "@ + spec_tenths(
        spec_rate_tenths(count, window),
    ) + "rps over last "@ + spec_decimal(window) + " seconds is below threshold of "@
        + spec_tenths(rate * 10) + "rps"@
}

/// One step of the alert monitor: append the record, evict everything
/// that has aged out, recompute the rate, and emit one line exactly when
/// the triggered flag flips.
pub open spec fn alert_step(m: AlertModel, date: u32) -> (AlertModel, Seq<Seq<char>>) {
    let w1 = m.dates.push(date as int);
    let kept = w1.skip(evict_count(w1, m.window_seconds, date as int));
    let trig = kept.len() >= m.alert_rate * m.window_seconds;
    let m2 = AlertModel {
        window_seconds: m.window_seconds,
        alert_rate: m.alert_rate,
        triggered: trig,
        dates: kept,
        events: if trig != m.triggered {
            m.events.push(trig)
        } else {
            m.events
        },
    };
    if trig != m.triggered {
        if trig {
            (m2, seq![spec_alert_line(date, kept.len() as int, m.window_seconds, m.alert_rate)])
        } else {
            (m2, seq![spec_recovery_line(date, kept.len() as int, m.window_seconds, m.alert_rate)])
        }
    } else {
        (m2, Seq::empty())
    }
}

/// Emitted transitions always alternate, starting with an alert.
pub open spec fn events_alternating(ev: Seq<bool>) -> bool {
    forall|i: int| 0 <= i && i + 1 < ev.len() ==> ev[i + 1] != #[trigger] ev[i]
}

/// Follows a stream of requests and raises edge-triggered alert and
/// recovery lines on threshold crossings.
pub struct RollingAlertsMonitor {
    /// The number of seconds of requests to include in the rolling window.
    window_seconds: u32,
    /// The average number of requests per second through the window
    /// required to trigger an alert.
    alert_rate: u32,
    /// Whether the alert is currently triggered.
    alert_triggered: bool,
    /// Requests that are in the current alerting window.
    requests: VecDeque<RequestRecord>,
    /// The emitted transitions, for stating the hysteresis law.
    events: Ghost<Seq<bool>>,
}

impl View for RollingAlertsMonitor {
    type V = AlertModel;

    closed spec fn view(&self) -> AlertModel {
        AlertModel {
            window_seconds: self.window_seconds as int,
            alert_rate: self.alert_rate as int,
            triggered: self.alert_triggered,
            dates: self.requests@.map_values(|r: RequestRecord| r@.date),
            events: self.events@,
        }
    }
}

impl RollingAlertsMonitor {
    /// Well-formed monitor state: positive tunables, a time-ordered
    /// window, and an alternating transition history that ends in the
    /// current flag value.
    pub open spec fn wf(&self) -> bool {
        &&& self@.window_seconds >= 1
        &&& self@.alert_rate >= 1
        &&& forall|i: int, j: int|
            0 <= i <= j < self@.dates.len() ==> #[trigger] self@.dates[i] <= #[trigger] self@.dates[j]
        &&& events_alternating(self@.events)
        &&& self@.events.len() == 0 ==> self@.triggered == false
        &&& self@.events.len() > 0 ==> self@.events[0] == true && self@.events.last()
            == self@.triggered
    }

    /// Creates a monitor for the given configuration: an empty window,
    /// the alert not triggered.
    pub fn from_config(config: &Config) -> (m: Self)
        requires
            config.wf(),
        ensures
            m.wf(),
            m@.window_seconds == config.alert_window,
            m@.alert_rate == config.alert_rate,
            m@.triggered == false,
            m@.dates == Seq::<int>::empty(),
            m@.events == Seq::<bool>::empty(),
    {
        let m = RollingAlertsMonitor {
            window_seconds: config.alert_window,
            alert_rate: config.alert_rate,
            alert_triggered: false,
            requests: VecDeque::new(),
            events: Ghost(Seq::empty()),
        };
        proof {
            assert(m@.dates =~= Seq::<int>::empty());
        }
        m
    }

    /// Pushes the next (time-ordered) record: the window slides, and one
    /// line is emitted exactly when the rate crosses the threshold.  The
    /// number of lines ever emitted equals the number of flag
    /// transitions.
    pub fn push(&mut self, record: &RequestRecord) -> (lines: Vec<String>)
        requires
            old(self).wf(),
            old(self)@.dates.len() > 0 ==> old(self)@.dates.last() <= record@.date,
        ensures
            final(self).wf(),
            final(self)@ == alert_step(old(self)@, record.date).0,
            lines@.map_values(|l: String| l@) == alert_step(old(self)@, record.date).1,
            lines@.len() == final(self)@.events.len() - old(self)@.events.len(),
            final(self)@.dates.len() > 0,
            final(self)@.dates.last() == record@.date,
    {
        let ghost m0 = self@;
        let ghost now = record@.date;
        let ghost win = self@.window_seconds;
        self.requests.push_back(record.clone());
        let ghost w1 = self@.dates;
        proof {
            assert(w1 =~= m0.dates.push(now));
            assert(w1.skip(0) =~= w1);
            lemma_evict_count_bounds(w1, win, now);
            lemma_evict_count_keeps_last(w1, win, now);
        }
        let ghost total = evict_count(w1, win, now);
        let ghost mut k: int = 0;
        while self.requests.len() > 0 && (self.requests[0].date as u64) + (
        self.window_seconds as u64) <= (record.date as u64)
            invariant
                0 <= k <= w1.len(),
                self.window_seconds == m0.window_seconds,
                self.alert_rate == m0.alert_rate,
                self.alert_triggered == m0.triggered,
                self.events@ == m0.events,
                self@.dates =~= w1.skip(k),
                evict_count(w1, win, now) == k + evict_count(w1.skip(k), win, now),
                win == self.window_seconds as int,
                now == record@.date,
            decreases self.requests@.len(),
        {
            proof {
                assert(w1.skip(k)[0] == self@.dates[0]);
                assert(w1.skip(k).drop_first() =~= w1.skip(k + 1));
                assert(evict_count(w1.skip(k), win, now) == 1 + evict_count(
                    w1.skip(k + 1),
                    win,
                    now,
                ));
            }
            self.requests.pop_front();
            proof {
                k = k + 1;
                assert(self@.dates =~= w1.skip(k));
            }
        }
        proof {
            assert(evict_count(w1.skip(k), win, now) == 0);
            assert(k == total);
            assert(self@.dates =~= w1.skip(total));
        }
        let count = self.requests.len();
        let rate128 = self.alert_rate as u128;
        let win128 = self.window_seconds as u128;
        proof {
            assert(rate128 * win128 <= 0xffff_ffff * 0xffff_ffff) by (nonlinear_arith)
                requires
                    rate128 <= 0xffff_ffff,
                    win128 <= 0xffff_ffff,
            ;
        }
        let triggered = (count as u128) >= rate128 * win128;
        let mut lines: Vec<String> = Vec::new();
        if triggered != self.alert_triggered {
            self.alert_triggered = triggered;
            proof {
                self.events@ = self.events@.push(triggered);
            }
            let line = self.build_transition_line(record.date, count as u64, triggered);
            lines.push(line);
        }
        proof {
            let step = alert_step(m0, record.date);
            assert(final(self)@ == step.0);
            assert(lines@.map_values(|l: String| l@) =~= step.1);
        }
        lines
    }

    /// Builds the ALERT or RECOVERY line for a crossing at `date` with
    /// `count` records in the window.
    fn build_transition_line(&self, date: u32, count: u64, alerting: bool) -> (s: String)
        requires
            self.window_seconds >= 1,
        ensures
            alerting ==> s@ == spec_alert_line(
                date,
                count as int,
                self.window_seconds as int,
                self.alert_rate as int,
            ),
            !alerting ==> s@ == spec_recovery_line(
                date,
                count as int,
                self.window_seconds as int,
                self.alert_rate as int,
            ),
    {
        let avg = tenths_to_string((count as u128) * 10 / (self.window_seconds as u128));
        let window = u64_to_string(self.window_seconds as u64);
        let threshold = tenths_to_string((self.alert_rate as u128) * 10);
        let mut s = render_datetime(date as u64);
        if alerting {
            s.append(" ALERT: average of ");
        } else {
            s.append(" RECOVERY: average of ");
        }
        s.append(avg.as_str());
        s.append("rps over last ");
        s.append(window.as_str());
        if alerting {
            s.append(" seconds exceeds threshold of ");
        } else {
            s.append(" seconds is below threshold of ");
        }
        s.append(threshold.as_str());
        s.append("rps");
        proof {
            if alerting {
                assert(s@ =~= spec_alert_line(
                    date,
                    count as int,
                    self.window_seconds as int,
                    self.alert_rate as int,
                ));
            } else {
                assert(s@ =~= spec_recovery_line(
                    date,
                    count as int,
                    self.window_seconds as int,
                    self.alert_rate as int,
                ));
            }
        }
        s
    }
}

/// The alert hysteresis law: the monitor never emits two ALERT lines
/// without an intervening RECOVERY line, and vice versa — the emitted
/// transitions strictly alternate, starting with an alert.
pub proof fn lemma_alert_hysteresis(m: &RollingAlertsMonitor)
    requires
        m.wf(),
    ensures
        events_alternating(m@.events),
        m@.events.len() > 0 ==> m@.events[0] == true,
{
}

} // verus!
