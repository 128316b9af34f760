//! The events of a run under one type, and the alerts repeated at a fixed step.
use crate::alert::{alert_views, AlertView};
use crate::message::{MessageView, Nanos};
use vstd::prelude::*;

pub use crate::alert::{find_missing_can_messages, Alert, AlertStatus};
pub use crate::message::CANMessage;
pub use crate::reader::read_can_messages;

verus! {

/// The step at which alerts are repeated, in nanoseconds.
pub const ALERT_STEP: Nanos = 100_000_000;

/// A video frame, known here only by its time.
#[derive(Clone, Copy, Debug)]
pub struct SourceFrame {
    pub ts_ns: Nanos,
}

/// Any event of a run.
///
/// Two events are equal, or one is before the other, by their times alone: two
/// different events of the same time are equal. Equality is therefore no means
/// of telling events apart.
#[derive(Debug)]
pub enum LogInput {
    CAN(CANMessage),
    Frame(SourceFrame),
    Alert(Alert),
}

/// What a [`LogInput`] holds, as plain values.
pub ghost enum LogInputView {
    CAN(MessageView),
    Frame(SourceFrame),
    Alert(AlertView),
}

impl View for LogInput {
    type V = LogInputView;

    open spec fn view(&self) -> LogInputView {
        match self {
            LogInput::CAN(m) => LogInputView::CAN(m@),
            LogInput::Frame(f) => LogInputView::Frame(*f),
            LogInput::Alert(a) => LogInputView::Alert(a@),
        }
    }
}

impl LogInputView {
    /// The event's time in nanoseconds.
    pub open spec fn timestamp(self) -> Nanos {
        match self {
            LogInputView::CAN(m) => m.timestamp,
            LogInputView::Frame(f) => f.ts_ns,
            LogInputView::Alert(a) => a.timestamp,
        }
    }
}

/// The events of `s`, each as plain values.
pub open spec fn input_views(s: Seq<LogInput>) -> Seq<LogInputView> {
    Seq::new(s.len(), |i: int| s[i]@)
}

impl LogInput {
    /// The event's time in nanoseconds.
    pub fn timestamp(&self) -> (t: Nanos)
        ensures
            t == self@.timestamp(),
    {
        match self {
            LogInput::CAN(m) => m.timestamp,
            LogInput::Frame(s) => s.ts_ns,
            LogInput::Alert(s) => s.timestamp,
        }
    }
}

impl From<CANMessage> for LogInput {
    fn from(value: CANMessage) -> (r: Self)
    {
        LogInput::CAN(value)
    }
}

impl vstd::std_specs::convert::FromSpecImpl<CANMessage> for LogInput {
    open spec fn obeys_from_spec() -> bool {
        true
    }

    open spec fn from_spec(value: CANMessage) -> Self {
        LogInput::CAN(value)
    }
}

impl From<SourceFrame> for LogInput {
    fn from(value: SourceFrame) -> (r: Self)
    {
        LogInput::Frame(value)
    }
}

impl vstd::std_specs::convert::FromSpecImpl<SourceFrame> for LogInput {
    open spec fn obeys_from_spec() -> bool {
        true
    }

    open spec fn from_spec(value: SourceFrame) -> Self {
        LogInput::Frame(value)
    }
}

/// The time at which the first alert stands, and zero where there is none.
pub open spec fn first_time(alerts: Seq<AlertView>) -> int {
    if alerts.len() == 0 {
        0
    } else {
        alerts[0].timestamp as int
    }
}

/// The time up to which alert `k` holds: the time of the alert after it, and for
/// the last alert its own.
pub open spec fn holds_until(alerts: Seq<AlertView>, k: int) -> int {
    if k + 1 < alerts.len() {
        alerts[k + 1].timestamp as int
    } else {
        alerts.last().timestamp as int
    }
}

/// How many steps, counted from `cursor`, begin before `until`.
pub open spec fn steps_before(cursor: int, until: int) -> nat {
    if cursor < until {
        ((until - cursor + ALERT_STEP - 1) / (ALERT_STEP as int)) as nat
    } else {
        0
    }
}

/// Where the stepping time stands when the first `k` alerts are done. It starts at
/// the first alert and only ever moves on, by whole steps.
pub open spec fn cursor_after(alerts: Seq<AlertView>, k: nat) -> int
    decreases k,
{
    if k == 0 {
        first_time(alerts)
    } else {
        let before = cursor_after(alerts, (k - 1) as nat);
        before + steps_before(before, holds_until(alerts, k - 1)) * ALERT_STEP
    }
}

/// `count` copies of `alert`, one step apart, the first at `from`.
pub open spec fn repeated(alert: AlertView, from: int, count: nat) -> Seq<LogInputView> {
    Seq::new(
        count,
        |j: int|
            LogInputView::Alert(
                AlertView {
                    timestamp: (from + j * ALERT_STEP) as i64,
                    status: alert.status,
                    message: alert.message,
                },
            ),
    )
}

/// What the first `k` alerts give: each is repeated, step by step from where
/// the stepping time stands, for as long as that time is before the next alert.
pub open spec fn expanded(alerts: Seq<AlertView>, k: nat) -> Seq<LogInputView>
    decreases k,
{
    if k == 0 {
        Seq::empty()
    } else {
        let before = cursor_after(alerts, (k - 1) as nat);
        expanded(alerts, (k - 1) as nat) + repeated(
            alerts[k - 1],
            before,
            steps_before(before, holds_until(alerts, k - 1)),
        )
    }
}

/// Repeats each alert every [`ALERT_STEP`] until the next one sets in, so that
/// whoever looks for the latest alert at or before some time finds one nearby.
///
/// The stepping time starts at the first alert and is never set back. Each alert
/// in turn is written at the stepping time, which then moves on one step, for as
/// long as it is before the time of the alert that follows, or, for the last
/// alert, before that alert's own time. So the last alert is never written, and a
/// single alert gives nothing.
pub fn expand_alerts(alerts: Vec<Alert>) -> (out: Vec<LogInput>)
    ensures
        input_views(out@) == expanded(alert_views(alerts@), alerts@.len()),
{
    let ghost views = alert_views(alerts@);
    let mut result: Vec<LogInput> = Vec::new();
    let n: usize = alerts.len();
    if n == 0 {
        assert(input_views(result@) =~= expanded(views, 0));
        return result;
    }
    let last_ts: Nanos = alerts[n - 1].timestamp;
    let mut ts: i128 = alerts[0].timestamp as i128;
    let mut i: usize = 0;
    assert(input_views(result@) =~= expanded(views, 0));
    while i < n
        invariant
            i <= n,
            n == alerts@.len(),
            n > 0,
            views == alert_views(alerts@),
            last_ts == views.last().timestamp,
            ts == cursor_after(views, i as nat),
            i64::MIN <= ts <= i64::MAX + ALERT_STEP,
            input_views(result@) == expanded(views, i as nat),
        decreases n - i,
    {
        let next_at: Nanos = if i + 1 < n { alerts[i + 1].timestamp } else { last_ts };
        assert(next_at == holds_until(views, i as int));
        let ghost from: int = ts as int;
        let ghost before = input_views(result@);
        let ghost count: nat = 0;
        assert(before + repeated(views[i as int], from, 0) =~= before);
        while ts < next_at as i128
            invariant
                i < n,
                n == alerts@.len(),
                views == alert_views(alerts@),
                ts == from + count * ALERT_STEP,
                i64::MIN <= from,
                i64::MIN <= ts <= i64::MAX + ALERT_STEP,
                count > 0 ==> ts - ALERT_STEP < next_at,
                input_views(result@) == before + repeated(views[i as int], from, count),
            decreases (if ts < next_at { next_at - ts } else { 0 }),
        {
            let message: Option<String> = match &alerts[i].message {
                Some(text) => Some(text.clone()),
                None => None,
            };
            let copy = Alert { timestamp: ts as i64, status: alerts[i].status, message };
            let ghost so_far = input_views(result@);
            let ghost more = repeated(views[i as int], from, (count + 1) as nat);
            assert(views[i as int] == alerts@[i as int]@);
            assert(more[count as int] == LogInputView::Alert(copy@));
            result.push(LogInput::Alert(copy));
            assert(input_views(result@) =~= so_far.push(LogInputView::Alert(copy@)));
            assert(repeated(views[i as int], from, count).push(more[count as int]) =~= more);
            assert(input_views(result@) =~= before + more);
            ts = ts + ALERT_STEP as i128;
            proof {
                count = count + 1;
            }
        }
        assert(count == steps_before(from, next_at as int));
        i += 1;
    }
    result
}

/// Whether `entry` is alert `k` of `alerts` written at a time at which that alert
/// holds: not before it sets in, and before the time up to which it holds.
pub open spec fn written_for(alerts: Seq<AlertView>, k: int, entry: LogInputView) -> bool {
    &&& 0 <= k < alerts.len()
    &&& entry is Alert
    &&& entry->Alert_0.status == alerts[k].status
    &&& entry->Alert_0.message == alerts[k].message
    &&& alerts[k].timestamp <= entry.timestamp() < holds_until(alerts, k)
}

/// Whether `entry` is one of the first `k` alerts, written at a time at which it
/// holds.
pub open spec fn written_among(alerts: Seq<AlertView>, k: int, entry: LogInputView) -> bool {
    exists|i: int| 0 <= i < k && #[trigger] written_for(alerts, i, entry)
}

/// The stepping time is never before the alert that is next in turn.
proof fn lemma_cursor_reaches(alerts: Seq<AlertView>, k: nat)
    requires
        k < alerts.len(),
    ensures
        first_time(alerts) <= cursor_after(alerts, k),
        alerts[k as int].timestamp <= cursor_after(alerts, k),
        cursor_after(alerts, k) <= cursor_after(alerts, k + 1),
        holds_until(alerts, k as int) <= cursor_after(alerts, k + 1) < i64::MAX + ALERT_STEP,
    decreases k,
{
    let cursor = cursor_after(alerts, k);
    let until = holds_until(alerts, k as int);
    if k > 0 {
        lemma_cursor_reaches(alerts, (k - 1) as nat);
        assert(holds_until(alerts, k - 1) == alerts[k as int].timestamp);
    }
    lemma_steps(cursor, until);
}

/// The steps that begin before `until` are just enough to reach it.
proof fn lemma_steps(cursor: int, until: int)
    ensures
        cursor + steps_before(cursor, until) * ALERT_STEP >= until,
        cursor < until ==> cursor + (steps_before(cursor, until) - 1) * ALERT_STEP < until,
        cursor >= until ==> steps_before(cursor, until) == 0,
{
}

/// What is written stands one step apart, from the time of the first alert on,
/// and each entry is an alert written at a time at which it holds.
pub proof fn lemma_expanded_cadence(alerts: Seq<AlertView>, k: nat)
    requires
        k <= alerts.len(),
    ensures
        cursor_after(alerts, k) == first_time(alerts) + expanded(alerts, k).len() * ALERT_STEP,
        forall|j: int|
            0 <= j < expanded(alerts, k).len() ==> (#[trigger] expanded(alerts, k)[j]).timestamp()
                == first_time(alerts) + j * ALERT_STEP,
        forall|j: int|
            0 <= j < expanded(alerts, k).len() ==> written_among(
                alerts,
                k as int,
                #[trigger] expanded(alerts, k)[j],
            ),
    decreases k,
{
    if k > 0 {
        let prev = (k - 1) as nat;
        lemma_expanded_cadence(alerts, prev);
        lemma_cursor_reaches(alerts, prev);
        let before = expanded(alerts, prev);
        let cursor = cursor_after(alerts, prev);
        let until = holds_until(alerts, prev as int);
        let count = steps_before(cursor, until);
        let added = repeated(alerts[prev as int], cursor, count);
        let all = expanded(alerts, k);
        lemma_steps(cursor, until);
        assert(all == before + added);
        assert(cursor == first_time(alerts) + before.len() * ALERT_STEP);
        assert forall|j: int| 0 <= j < all.len() implies (#[trigger] all[j]).timestamp()
            == first_time(alerts) + j * ALERT_STEP && written_among(alerts, k as int, all[j]) by {
            if j < before.len() {
                assert(all[j] == before[j]);
                assert(written_among(alerts, prev as int, before[j]));
                let i = choose|i: int| 0 <= i < prev && #[trigger] written_for(alerts, i, before[j]);
                assert(0 <= i < k && written_for(alerts, i, all[j]));
            } else {
                let step = j - before.len();
                assert(all[j] == added[step]);
                assert(cursor + step * ALERT_STEP <= cursor + (count - 1) * ALERT_STEP);
                assert(i64::MIN <= cursor + step * ALERT_STEP <= i64::MAX);
                assert(written_for(alerts, prev as int, all[j]));
            }
        }
    }
}

} // verus!
