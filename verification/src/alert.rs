//! Alerts, and the search of the bus traffic for silences that suggest lost frames.
use crate::message::{CANMessage, Nanos};
use crate::order::{in_time_order, Timed};
use crate::text::{decimal_text, digit_char, digit_text, push_decimal};
use vstd::prelude::*;
use vstd::string::StringExecFns;

verus! {

/// A silence on the bus that lasts longer than this, in nanoseconds, raises an alert.
pub const MISSING_THRESHOLD: Nanos = 500_000_000;

/// How urgent an alert is.
#[derive(Clone, Copy, Debug, PartialEq, Eq, Structural)]
pub enum AlertStatus {
    Normal,
    UserPrompt,
    Critical,
}

/// A change of the alert state at a point in time. The message is there where an
/// alert sets in; the entry that clears it is `Normal` and has none.
#[derive(Clone, Debug, PartialEq, Eq)]
pub struct Alert {
    pub timestamp: Nanos,
    pub status: AlertStatus,
    pub message: Option<String>,
}

/// What an [`Alert`] holds, as plain values.
pub ghost struct AlertView {
    pub timestamp: Nanos,
    pub status: AlertStatus,
    pub message: Option<Seq<char>>,
}

impl View for Alert {
    type V = AlertView;

    open spec fn view(&self) -> AlertView {
        AlertView {
            timestamp: self.timestamp,
            status: self.status,
            message: match self.message {
                Some(text) => Some(text@),
                None => None,
            },
        }
    }
}

/// The alerts of `s`, each as plain values.
pub open spec fn alert_views(s: Seq<Alert>) -> Seq<AlertView> {
    Seq::new(s.len(), |i: int| s[i]@)
}

/// The times of the frames of `s`.
pub open spec fn message_times(s: Seq<CANMessage>) -> Seq<Nanos> {
    Seq::new(s.len(), |i: int| s[i].timestamp)
}

/// A silence of `gap_ns` nanoseconds in thousandths of a second, the nearest
/// number of them and the greater where two are equally near.
pub open spec fn gap_millis(gap_ns: int) -> int {
    (gap_ns + 500_000) / 1_000_000
}

/// The message of the alert that reports a silence of `gap_ns` nanoseconds: it
/// gives the silence in seconds with three decimal places.
pub open spec fn gap_message(gap_ns: int) -> Seq<char> {
    let whole = gap_millis(gap_ns) / 1000;
    let part = gap_millis(gap_ns) % 1000;
    "Possible lost CAN messages.\nGap of "@ + decimal_text(whole as nat) + "."@ + seq![
        digit_char(part / 100),
        digit_char(part / 10 % 10),
        digit_char(part % 10),
    ] + "s with no message"@
}

/// The alerts for what lies between two frames that follow each other: none
/// where the second comes within the threshold, else a critical alert at the
/// first frame's time and the all-clear at the second's.
pub open spec fn gap_between(earlier: Nanos, later: Nanos) -> Seq<AlertView> {
    if later - earlier > MISSING_THRESHOLD {
        seq![
            AlertView {
                timestamp: earlier,
                status: AlertStatus::Critical,
                message: Some(gap_message(later - earlier)),
            },
            AlertView { timestamp: later, status: AlertStatus::Normal, message: None },
        ]
    } else {
        Seq::empty()
    }
}

/// The alerts for all the silences in a run of frames with the times `times`.
pub open spec fn gap_alerts(times: Seq<Nanos>) -> Seq<AlertView>
    decreases times.len(),
{
    if times.len() < 2 {
        Seq::empty()
    } else {
        gap_alerts(times.drop_last()) + gap_between(times[times.len() - 2], times.last())
    }
}

/// Writes the message for a silence of `gap_ns` nanoseconds.
pub fn gap_text(gap_ns: u64) -> (text: String)
    ensures
        text@ == gap_message(gap_ns as int),
{
    let millis: u64 = if gap_ns > u64::MAX - 500_000 {
        // beyond the last value that can be rounded in 64 bits
        (gap_ns / 2 + 250_000) / 500_000
    } else {
        (gap_ns + 500_000) / 1_000_000
    };
    assert(millis == gap_millis(gap_ns as int));
    let whole: u64 = millis / 1000;
    let part: u64 = millis % 1000;
    let mut text = String::from_str("Possible lost CAN messages.\nGap of ");
    push_decimal(&mut text, whole);
    text.append(".");
    let ghost head = text@;
    text.append(digit_text((part / 100) as u8));
    text.append(digit_text((part / 10 % 10) as u8));
    text.append(digit_text((part % 10) as u8));
    assert(text@ =~= head + seq![
        digit_char(part as int / 100),
        digit_char(part as int / 10 % 10),
        digit_char(part as int % 10),
    ]);
    text.append("s with no message");
    text
}

/// Scans frames for silences longer than [`MISSING_THRESHOLD`].
///
/// For each frame that comes more than the threshold after the one before it,
/// the result holds a critical alert at the earlier frame's time, whose message
/// states how long the silence was, and a normal one without a message at the
/// later frame's time.
pub fn find_missing_can_messages(messages: &[CANMessage]) -> (alerts: Vec<Alert>)
    ensures
        alert_views(alerts@) == gap_alerts(message_times(messages@)),
{
    let ghost times = message_times(messages@);
    let mut result: Vec<Alert> = Vec::new();
    let n: usize = messages.len();
    if n == 0 {
        assert(alert_views(result@) =~= gap_alerts(times));
        return result;
    }
    let mut last_timestamp: Nanos = messages[0].timestamp();
    let mut i: usize = 1;
    assert(times.take(1).len() == 1);
    assert(alert_views(result@) =~= gap_alerts(times.take(1)));
    while i < n
        invariant
            1 <= i <= n,
            n == messages@.len(),
            times == message_times(messages@),
            last_timestamp == times[i - 1],
            alert_views(result@) == gap_alerts(times.take(i as int)),
        decreases n - i,
    {
        let now: Nanos = messages[i].timestamp();
        let gap: i128 = (now as i128) - (last_timestamp as i128);
        let ghost before = alert_views(result@);
        proof {
            let upto = times.take(i + 1);
            assert(upto.drop_last() =~= times.take(i as int));
            assert(upto[upto.len() - 2] == last_timestamp);
            assert(upto.last() == now);
        }
        if gap > MISSING_THRESHOLD as i128 {
            let text = gap_text(gap as u64);
            result.push(
                Alert {
                    timestamp: last_timestamp,
                    status: AlertStatus::Critical,
                    message: Some(text),
                },
            );
            result.push(Alert { timestamp: now, status: AlertStatus::Normal, message: None });
            assert(alert_views(result@) =~= before + gap_between(last_timestamp, now));
        }
        last_timestamp = now;
        i += 1;
    }
    assert(times.take(n as int) =~= times);
    result
}

/// Where no frame comes more than the threshold after the one before it, there
/// is no alert.
pub proof fn lemma_no_gap_no_alert(times: Seq<Nanos>)
    requires
        forall|i: int|
            0 < i < times.len() ==> (#[trigger] times[i]) - times[i - 1] <= MISSING_THRESHOLD,
    ensures
        gap_alerts(times) == Seq::<AlertView>::empty(),
    decreases times.len(),
{
    if times.len() >= 2 {
        lemma_no_gap_no_alert(times.drop_last());
        assert(times[times.len() - 1] - times[times.len() - 2] <= MISSING_THRESHOLD);
        assert(gap_alerts(times) =~= Seq::<AlertView>::empty());
    }
}

/// The alerts for frames that come in time order are in time order themselves,
/// and none of them is later than the last frame.
pub proof fn lemma_gap_alerts_ordered(times: Seq<Nanos>)
    requires
        forall|i: int, j: int| 0 <= i <= j < times.len() ==> times[i] <= times[j],
    ensures
        in_time_order(gap_alerts(times)),
        forall|k: int|
            0 <= k < gap_alerts(times).len() ==> (#[trigger] gap_alerts(times)[k]).timestamp
                <= times.last(),
    decreases times.len(),
{
    if times.len() >= 2 {
        let head = times.drop_last();
        lemma_gap_alerts_ordered(head);
        let before = gap_alerts(head);
        let added = gap_between(times[times.len() - 2], times.last());
        let all = gap_alerts(times);
        assert(head.last() == times[times.len() - 2]);
        assert(times[times.len() - 2] <= times[times.len() - 1]);
        assert forall|k: int| 0 <= k < all.len() implies (#[trigger] all[k]).timestamp
            <= times.last() by {
            if k < before.len() {
                assert(all[k] == before[k]);
            }
        }
        assert forall|i: int, j: int| 0 <= i <= j < all.len() implies all[i].time() <= all[j].time() by {
            if i < before.len() {
                assert(all[i] == before[i]);
            }
            if j < before.len() {
                assert(all[j] == before[j]);
            }
        }
    }
}

} // verus!
