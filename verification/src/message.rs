//! One bus-traffic frame, and how a row of the tabular log is read into one.
use crate::number::{
    decimal_i64, decimal_u8, hex_u32, hex_u8, parse_decimal_i64, parse_decimal_u8, parse_hex_u32,
    parse_hex_u8,
};
use crate::text::text_equals;
use vstd::prelude::*;

verus! {

/// A point in time, in nanoseconds.
pub type Nanos = i64;

/// The most bytes that one frame carries.
pub const MAX_PAYLOAD: usize = 8;

/// One frame seen on the bus.
#[derive(Debug)]
pub struct CANMessage {
    pub timestamp: Nanos,
    pub can_id: u32,
    pub is_extended_id: bool,
    pub bus_no: u8,
    pub data: Vec<u8>,
}

/// What a [`CANMessage`] holds, as plain values.
pub ghost struct MessageView {
    pub timestamp: Nanos,
    pub can_id: u32,
    pub is_extended_id: bool,
    pub bus_no: u8,
    pub data: Seq<u8>,
}

impl View for CANMessage {
    type V = MessageView;

    open spec fn view(&self) -> MessageView {
        MessageView {
            timestamp: self.timestamp,
            can_id: self.can_id,
            is_extended_id: self.is_extended_id,
            bus_no: self.bus_no,
            data: self.data@,
        }
    }
}

impl MessageView {
    /// A frame carries at most eight bytes.
    pub open spec fn wf(self) -> bool {
        self.data.len() <= MAX_PAYLOAD
    }
}

/// Why a row could not be read as a frame. Each variant names the field at fault.
#[derive(Clone, Copy, Debug, PartialEq, Eq, Structural)]
pub enum ParseError {
    /// The row has no field at all.
    MissingTimestamp,
    /// The first field is not a decimal integer of 64 bits.
    InvalidTimestamp,
    /// The row ends before the identifier.
    MissingCanId,
    /// The identifier is not a hexadecimal number of 32 bits.
    InvalidCanId,
    /// The row ends before the extended-identifier flag.
    MissingExtendedFlag,
    /// The row ends before the bus number.
    MissingBus,
    /// The bus number is not a decimal integer of 8 bits.
    InvalidBus,
    /// One of the payload fields is not a hexadecimal byte.
    InvalidData,
    /// The timestamp, in nanoseconds and taken from the origin, does not fit in 64 bits.
    TimestampOutOfRange,
}

impl ParseError {
    /// What the error says, naming the field at fault.
    pub open spec fn text(self) -> Seq<char> {
        match self {
            ParseError::MissingTimestamp => "Missing ts field"@,
            ParseError::InvalidTimestamp => "Invalid ts field"@,
            ParseError::MissingCanId => "Missing can id field"@,
            ParseError::InvalidCanId => "Invalid can id field"@,
            ParseError::MissingExtendedFlag => "Missing is_extended_id field"@,
            ParseError::MissingBus => "Missing bus field"@,
            ParseError::InvalidBus => "Invalid bus field"@,
            ParseError::InvalidData => "Error parsing CSV data field"@,
            ParseError::TimestampOutOfRange => "Timestamp out of range"@,
        }
    }

    /// What the error says, naming the field at fault.
    pub fn message(&self) -> (s: &'static str)
        ensures
            s@ == self.text(),
    {
        match self {
            ParseError::MissingTimestamp => "Missing ts field",
            ParseError::InvalidTimestamp => "Invalid ts field",
            ParseError::MissingCanId => "Missing can id field",
            ParseError::InvalidCanId => "Invalid can id field",
            ParseError::MissingExtendedFlag => "Missing is_extended_id field",
            ParseError::MissingBus => "Missing bus field",
            ParseError::InvalidBus => "Invalid bus field",
            ParseError::InvalidData => "Error parsing CSV data field",
            ParseError::TimestampOutOfRange => "Timestamp out of range",
        }
    }
}

/// Whether a field is the direction marker that one dialect of the log writes
/// after the extended-identifier flag.
pub open spec fn is_direction_marker(field: Seq<char>) -> bool {
    field == "Tx"@ || field == "Rx"@
}

/// Where the bus number stands: behind the direction marker where there is one.
pub open spec fn bus_index(fields: Seq<Seq<char>>) -> int {
    if fields.len() > 3 && is_direction_marker(fields[3]) {
        4
    } else {
        3
    }
}

/// The fields that hold the payload: those behind the bus number and the declared
/// length, eight at most.
pub open spec fn payload_fields(fields: Seq<Seq<char>>) -> Seq<Seq<char>> {
    let first = bus_index(fields) + 2;
    if fields.len() <= first {
        Seq::empty()
    } else if fields.len() <= first + MAX_PAYLOAD {
        fields.subrange(first, fields.len() as int)
    } else {
        fields.subrange(first, first + MAX_PAYLOAD)
    }
}

/// Every one of `fields` is a hexadecimal byte.
pub open spec fn all_hex_bytes(fields: Seq<Seq<char>>) -> bool {
    forall|i: int| 0 <= i < fields.len() ==> (#[trigger] hex_u8(fields[i])) is Some
}

/// The bytes that `fields` spell, one per field and in their order.
pub open spec fn hex_bytes(fields: Seq<Seq<char>>) -> Seq<u8> {
    Seq::new(fields.len(), |i: int| hex_u8(fields[i]).unwrap())
}

/// The time of a frame whose row says `raw_us` microseconds, counted from `origin`.
pub open spec fn frame_time(raw_us: i64, origin: Nanos) -> int {
    raw_us * 1000 - origin
}

/// What a row means: the frame it describes, or the first thing wrong with it.
///
/// The fields are, in order: the time in microseconds, the identifier in
/// hexadecimal, the extended-identifier flag (`true` or anything else), an
/// optional direction marker, the bus number, the declared length (which is not
/// looked at) and the payload bytes in hexadecimal.
pub open spec fn parse_fields(fields: Seq<Seq<char>>, origin: Nanos) -> Result<
    MessageView,
    ParseError,
> {
    let bus = bus_index(fields);
    if fields.len() < 1 {
        Err(ParseError::MissingTimestamp)
    } else if decimal_i64(fields[0]) is None {
        Err(ParseError::InvalidTimestamp)
    } else if fields.len() < 2 {
        Err(ParseError::MissingCanId)
    } else if hex_u32(fields[1]) is None {
        Err(ParseError::InvalidCanId)
    } else if fields.len() < 3 {
        Err(ParseError::MissingExtendedFlag)
    } else if fields.len() <= bus {
        Err(ParseError::MissingBus)
    } else if decimal_u8(fields[bus]) is None {
        Err(ParseError::InvalidBus)
    } else if !all_hex_bytes(payload_fields(fields)) {
        Err(ParseError::InvalidData)
    } else if !(i64::MIN <= frame_time(decimal_i64(fields[0]).unwrap(), origin) <= i64::MAX) {
        Err(ParseError::TimestampOutOfRange)
    } else {
        Ok(
            MessageView {
                timestamp: frame_time(decimal_i64(fields[0]).unwrap(), origin) as i64,
                can_id: hex_u32(fields[1]).unwrap(),
                is_extended_id: fields[2] == "true"@,
                bus_no: decimal_u8(fields[bus]).unwrap(),
                data: hex_bytes(payload_fields(fields)),
            },
        )
    }
}

/// Whether `got` is the frame or the error that `want` describes.
pub open spec fn parsed_as(
    got: Result<CANMessage, ParseError>,
    want: Result<MessageView, ParseError>,
) -> bool {
    match (got, want) {
        (Ok(m), Ok(v)) => m@ == v,
        (Err(e), Err(w)) => e == w,
        _ => false,
    }
}

/// `csv::StringRecord`: one row of a log as the `csv` crate hands it out. Of a
/// value nothing is known here but its fields, which [`record_fields`] names.
#[verifier::external_type_specification]
#[verifier::external_body]
pub struct ExStringRecord(csv::StringRecord);

/// The fields of a record of the `csv` crate, in their order.
pub uninterp spec fn record_fields(record: csv::StringRecord) -> Seq<Seq<char>>;

/// `csv::StringRecord::get`: the field at index `i`, and `None` exactly where the
/// record has no such field. Taken on trust from the `csv` crate.
pub assume_specification[ csv::StringRecord::get ](record: &csv::StringRecord, i: usize) -> (field:
    Option<&str>)
    ensures
        field is Some <==> i < record_fields(*record).len(),
        field matches Some(s) ==> s@ == record_fields(*record)[i as int],
;

impl CANMessage {
    /// Reads one row of the log as a frame whose time is counted from `ts_offs`.
    ///
    /// The result is what [`parse_fields`] says of the row's fields: the frame, or
    /// the error for the first field that is missing or malformed.
    #[verifier::loop_isolation(false)]
    pub fn parse_from(record: &csv::StringRecord, ts_offs: Nanos) -> (r: Result<
        CANMessage,
        ParseError,
    >)
        ensures
            parsed_as(r, parse_fields(record_fields(*record), ts_offs)),
            r matches Ok(m) ==> m@.wf(),
            r matches Ok(m) ==> decimal_i64(record_fields(*record)[0]) matches Some(raw_us)
                && m.timestamp == raw_us * 1000 - ts_offs,
    {
        let ghost fields = record_fields(*record);
        let ts_us: i64 = match record.get(0) {
            None => { return Err(ParseError::MissingTimestamp); },
            Some(s) => match parse_decimal_i64(s) {
                None => { return Err(ParseError::InvalidTimestamp); },
                Some(v) => v,
            },
        };
        let can_id: u32 = match record.get(1) {
            None => { return Err(ParseError::MissingCanId); },
            Some(s) => match parse_hex_u32(s) {
                None => { return Err(ParseError::InvalidCanId); },
                Some(v) => v,
            },
        };
        let is_extended_id: bool = match record.get(2) {
            None => { return Err(ParseError::MissingExtendedFlag); },
            Some(s) => text_equals(s, "true"),
        };
        let bus_at: usize = match record.get(3) {
            None => 3,
            Some(s) => if text_equals(s, "Tx") || text_equals(s, "Rx") { 4 } else { 3 },
        };
        assert(bus_at == bus_index(fields));
        let bus_no: u8 = match record.get(bus_at) {
            None => { return Err(ParseError::MissingBus); },
            Some(s) => match parse_decimal_u8(s) {
                None => { return Err(ParseError::InvalidBus); },
                Some(v) => v,
            },
        };
        let first: usize = bus_at + 2;
        let ghost payload = payload_fields(fields);
        let mut data: Vec<u8> = Vec::new();
        let mut k: usize = 0;
        let mut more: bool = true;
        while more && k < MAX_PAYLOAD
            invariant
                k <= MAX_PAYLOAD,
                k <= payload.len(),
                !more ==> k == payload.len(),
                data@.len() == k,
                forall|j: int| 0 <= j < k ==> (#[trigger] hex_u8(payload[j])) == Some(data@[j]),
            decreases MAX_PAYLOAD - k + if more { 1int } else { 0int },
        {
            match record.get(first + k) {
                None => {
                    more = false;
                },
                Some(s) => {
                    assert(payload[k as int] == fields[first + k]);
                    match parse_hex_u8(s) {
                        None => {
                            assert(hex_u8(payload[k as int]) is None);
                            return Err(ParseError::InvalidData);
                        },
                        Some(b) => {
                            data.push(b);
                            k += 1;
                        },
                    }
                },
            }
        }
        assert(data@ =~= hex_bytes(payload));
        let ns: i128 = (ts_us as i128) * 1000 - (ts_offs as i128);
        if ns < i64::MIN as i128 || ns > i64::MAX as i128 {
            return Err(ParseError::TimestampOutOfRange);
        }
        Ok(CANMessage { timestamp: ns as i64, can_id, is_extended_id, bus_no, data })
    }

    /// The frame's time in nanoseconds.
    pub fn timestamp(&self) -> (t: Nanos)
        ensures
            t == self.timestamp,
    {
        self.timestamp
    }
}

/// `fields` with `marker` put in behind the extended-identifier flag.
pub open spec fn with_marker(fields: Seq<Seq<char>>, marker: Seq<char>) -> Seq<Seq<char>> {
    fields.take(3).push(marker) + fields.skip(3)
}

/// A row means the same with a direction marker as without one.
///
/// `fields` is a row of the dialect without the marker: it has its first three
/// fields, and the field behind them is not itself a marker.
pub proof fn lemma_marker_is_skipped(fields: Seq<Seq<char>>, marker: Seq<char>, origin: Nanos)
    requires
        fields.len() >= 3,
        is_direction_marker(marker),
        fields.len() > 3 ==> !is_direction_marker(fields[3]),
    ensures
        parse_fields(with_marker(fields, marker), origin) == parse_fields(fields, origin),
{
    let marked = with_marker(fields, marker);
    assert(marked.len() == fields.len() + 1);
    assert(marked[3] == marker);
    assert(bus_index(marked) == 4);
    assert(bus_index(fields) == 3);
    assert(forall|i: int| 0 <= i < 3 ==> marked[i] == fields[i]);
    assert(forall|i: int| 3 <= i < fields.len() ==> marked[i + 1] == fields[i]);
    assert(payload_fields(marked) =~= payload_fields(fields));
}

/// The time of a frame that was read from a row is the row's time in
/// microseconds, taken to nanoseconds, less the origin.
pub proof fn lemma_parsed_time(fields: Seq<Seq<char>>, origin: Nanos)
    requires
        parse_fields(fields, origin) is Ok,
    ensures
        fields.len() > 0,
        decimal_i64(fields[0]) is Some,
        parse_fields(fields, origin).unwrap().timestamp == decimal_i64(fields[0]).unwrap() * 1000
            - origin,
{
}

/// A frame that was read from a row carries at most eight bytes, however many
/// fields the row has and whatever length it declares.
pub proof fn lemma_parsed_payload_bounded(fields: Seq<Seq<char>>, origin: Nanos)
    requires
        parse_fields(fields, origin) is Ok,
    ensures
        parse_fields(fields, origin).unwrap().wf(),
        parse_fields(fields, origin).unwrap().data.len() <= 8,
{
}

} // verus!
