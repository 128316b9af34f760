//! Events are compared by their times and by nothing else.
use crate::alert::{Alert, AlertView};
use crate::input::{LogInput, LogInputView};
use crate::message::{CANMessage, MessageView, Nanos};
use crate::order::{Timed, Timestamped};
use std::cmp::Ordering;
use vstd::prelude::*;
use vstd::std_specs::cmp::{PartialEqSpecImpl, PartialOrdSpecImpl};

verus! {

/// How the time `a` stands to the time `b`.
pub open spec fn time_order(a: Nanos, b: Nanos) -> Ordering {
    if a < b {
        Ordering::Less
    } else if a == b {
        Ordering::Equal
    } else {
        Ordering::Greater
    }
}

/// How the time `a` stands to the time `b`.
pub fn order_of_times(a: Nanos, b: Nanos) -> (o: Ordering)
    ensures
        o == time_order(a, b),
{
    if a < b {
        Ordering::Less
    } else if a == b {
        Ordering::Equal
    } else {
        Ordering::Greater
    }
}

impl Timed for CANMessage {
    open spec fn time(&self) -> int {
        self.timestamp as int
    }
}

impl Timestamped for CANMessage {
    fn time_ns(&self) -> (t: Nanos) {
        self.timestamp
    }
}

impl Timed for MessageView {
    open spec fn time(&self) -> int {
        self.timestamp as int
    }
}

impl Timed for Alert {
    open spec fn time(&self) -> int {
        self.timestamp as int
    }
}

impl Timestamped for Alert {
    fn time_ns(&self) -> (t: Nanos) {
        self.timestamp
    }
}

impl Timed for AlertView {
    open spec fn time(&self) -> int {
        self.timestamp as int
    }
}

impl Timed for LogInput {
    open spec fn time(&self) -> int {
        self@.timestamp() as int
    }
}

impl Timestamped for LogInput {
    fn time_ns(&self) -> (t: Nanos) {
        self.timestamp()
    }
}

impl Timed for LogInputView {
    open spec fn time(&self) -> int {
        self.timestamp() as int
    }
}

impl PartialEq for CANMessage {
    /// Two frames are equal where their times are, whatever else they hold.
    fn eq(&self, other: &Self) -> (same: bool) {
        self.timestamp == other.timestamp
    }
}

impl PartialEqSpecImpl for CANMessage {
    open spec fn obeys_eq_spec() -> bool {
        true
    }

    open spec fn eq_spec(&self, other: &Self) -> bool {
        self.timestamp == other.timestamp
    }
}

impl Eq for CANMessage {

}

impl PartialOrd for CANMessage {
    /// The earlier frame is the lesser.
    fn partial_cmp(&self, other: &Self) -> (o: Option<Ordering>) {
        Some(order_of_times(self.timestamp, other.timestamp))
    }
}

impl PartialOrdSpecImpl for CANMessage {
    open spec fn obeys_partial_cmp_spec() -> bool {
        true
    }

    open spec fn partial_cmp_spec(&self, other: &Self) -> Option<Ordering> {
        Some(time_order(self.timestamp, other.timestamp))
    }
}

impl PartialEq for LogInput {
    /// Two events are equal where their times are, whatever else they hold.
    fn eq(&self, other: &Self) -> (same: bool) {
        self.timestamp() == other.timestamp()
    }
}

impl PartialEqSpecImpl for LogInput {
    open spec fn obeys_eq_spec() -> bool {
        true
    }

    open spec fn eq_spec(&self, other: &Self) -> bool {
        self@.timestamp() == other@.timestamp()
    }
}

impl Eq for LogInput {

}

impl PartialOrd for LogInput {
    /// The earlier event is the lesser.
    fn partial_cmp(&self, other: &Self) -> (o: Option<Ordering>) {
        Some(order_of_times(self.timestamp(), other.timestamp()))
    }
}

impl PartialOrdSpecImpl for LogInput {
    open spec fn obeys_partial_cmp_spec() -> bool {
        true
    }

    open spec fn partial_cmp_spec(&self, other: &Self) -> Option<Ordering> {
        Some(time_order(self@.timestamp(), other@.timestamp()))
    }
}

} // verus!
