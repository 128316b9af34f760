//! Reading a whole log: every row becomes a frame, frames from before the origin
//! are left out, and the rest is put in time order.
use crate::message::{parse_fields, record_fields, CANMessage, MessageView, Nanos, ParseError};
use crate::order::{
    in_time_order, lemma_sort_of_views, lemma_sorted_by_time, sort_by_time, sorted_by_time,
};
use vstd::prelude::*;

verus! {

/// Why a log could not be read. Rows are counted from one, the header left out.
#[derive(Clone, Copy, Debug, PartialEq, Eq, Structural)]
pub enum ReadError {
    /// The row is not a record of text fields.
    InvalidRecord { row: usize },
    /// The row is a record, but not one that describes a frame.
    InvalidMessage { row: usize, error: ParseError },
}

/// The fields of one row, or `None` for a row that is no record.
pub type Row = Option<Seq<Seq<char>>>;

/// `csv::Error`: what the `csv` crate hands out in place of a row that it could
/// not read. Nothing is known here of what it holds.
#[verifier::external_type_specification]
#[verifier::external_body]
pub struct ExCsvError(csv::Error);

/// The rows that the `csv` crate finds in the bytes of a log whose first row is a
/// header and whose rows may differ in length: for each row after the header
/// its fields, or `None` where the crate reports an error for it.
pub uninterp spec fn csv_rows(data: Seq<u8>) -> Seq<Row>;

/// What a row that the `csv` crate handed out holds.
pub open spec fn row_of(read: Result<csv::StringRecord, csv::Error>) -> Row {
    match read {
        Ok(record) => Some(record_fields(record)),
        Err(_) => None,
    }
}

/// What the rows that the `csv` crate handed out hold.
pub open spec fn rows_of(read: Seq<Result<csv::StringRecord, csv::Error>>) -> Seq<Row> {
    Seq::new(read.len(), |i: int| row_of(read[i]))
}

/// Looking at a frame as plain values.
pub open spec fn message_view() -> spec_fn(CANMessage) -> MessageView {
    |m: CANMessage| m@
}

/// The frames of `s`, each as plain values.
pub open spec fn message_views(s: Seq<CANMessage>) -> Seq<MessageView> {
    s.map_values(message_view())
}

/// The origin from which times are counted: the one given, else the time of the
/// first row read from zero, else zero where there is no first row or it
/// describes no frame.
pub open spec fn resolve_origin(rows: Seq<Row>, given: Option<Nanos>) -> Nanos {
    match given {
        Some(origin) => origin,
        None => if rows.len() > 0 && row_is_frame(rows[0], 0) {
            parse_fields(rows[0].unwrap(), 0).unwrap().timestamp
        } else {
            0
        },
    }
}

/// Whether a row describes a frame.
pub open spec fn row_is_frame(row: Row, origin: Nanos) -> bool {
    row is Some && parse_fields(row.unwrap(), origin) is Ok
}

/// What is wrong with the row at `index`, which describes no frame.
pub open spec fn row_error(row: Row, index: int, origin: Nanos) -> ReadError {
    match row {
        None => ReadError::InvalidRecord { row: (index + 1) as usize },
        Some(fields) => ReadError::InvalidMessage {
            row: (index + 1) as usize,
            error: parse_fields(fields, origin)->Err_0,
        },
    }
}

/// Whether the row at `index` is the first that describes no frame.
pub open spec fn is_first_bad_row(rows: Seq<Row>, origin: Nanos, index: int) -> bool {
    &&& 0 <= index < rows.len()
    &&& !row_is_frame(rows[index], origin)
    &&& forall|j: int| 0 <= j < index ==> row_is_frame(#[trigger] rows[j], origin)
}

/// The frames that rows describe, in the order of the rows, without those whose
/// time is before the origin. A row that describes no frame gives none.
pub open spec fn kept_frames(rows: Seq<Row>, origin: Nanos) -> Seq<MessageView>
    decreases rows.len(),
{
    if rows.len() == 0 {
        Seq::empty()
    } else {
        let before = kept_frames(rows.drop_last(), origin);
        let frame = parse_fields(rows.last().unwrap(), origin).unwrap();
        if row_is_frame(rows.last(), origin) && frame.timestamp >= 0 {
            before.push(frame)
        } else {
            before
        }
    }
}

/// Whether `got` is what reading `rows` with the origin `given` must give: the
/// error of the first row that describes no frame, and where every row describes
/// one, the frames from the origin on in time order, those of equal time in the
/// order of their rows.
pub open spec fn read_as(
    got: Result<Vec<CANMessage>, ReadError>,
    rows: Seq<Row>,
    given: Option<Nanos>,
) -> bool {
    let origin = resolve_origin(rows, given);
    match got {
        Ok(frames) => {
            &&& forall|j: int| 0 <= j < rows.len() ==> row_is_frame(#[trigger] rows[j], origin)
            &&& message_views(frames@) == sorted_by_time(kept_frames(rows, origin))
        },
        Err(e) => exists|index: int| #[trigger]
            is_first_bad_row(rows, origin, index) && e == row_error(rows[index], index, origin),
    }
}

/// `csv::ReaderBuilder`, set to take the first row as a header and to accept rows
/// of any length, and the `records` of the reader it builds on `data`, collected.
/// Taken on trust from the `csv` crate: the rows handed out are those that
/// [`csv_rows`] names for these bytes.
#[verifier::external_body]
fn read_rows(data: &[u8]) -> (read: Vec<Result<csv::StringRecord, csv::Error>>)
    ensures
        rows_of(read@) == csv_rows(data@),
{
    csv::ReaderBuilder::new().flexible(true).has_headers(true).from_reader(data).records().collect()
}

/// The frames that the rows of a log describe, from the origin on and in time
/// order.
///
/// Where no origin is given, the first row sets it, so that the first frame is at
/// time zero. Frames from before the origin are left out without complaint. One
/// row that describes no frame fails the whole log, with that row's number.
pub fn messages_from_rows(
    read: &[Result<csv::StringRecord, csv::Error>],
    can_ts_offs: Option<Nanos>,
) -> (r: Result<Vec<CANMessage>, ReadError>)
    ensures
        read_as(r, rows_of(read@), can_ts_offs),
        r matches Ok(frames) ==> in_time_order(frames@) && forall|k: int|
            0 <= k < frames@.len() ==> (#[trigger] frames@[k]).timestamp >= 0 && frames@[k]@.wf(),
{
    let ghost rows = rows_of(read@);
    let n: usize = read.len();
    let origin: Nanos = match can_ts_offs {
        Some(given) => given,
        None => if n > 0 {
            match &read[0] {
                Ok(record) => match CANMessage::parse_from(record, 0) {
                    Ok(first) => first.timestamp,
                    Err(_) => 0,
                },
                Err(_) => 0,
            }
        } else {
            0
        },
    };
    assert(origin == resolve_origin(rows, can_ts_offs));
    let mut kept: Vec<CANMessage> = Vec::new();
    let mut i: usize = 0;
    assert(message_views(kept@) =~= kept_frames(rows.take(0), origin));
    while i < n
        invariant
            i <= n,
            n == read@.len(),
            rows == rows_of(read@),
            origin == resolve_origin(rows, can_ts_offs),
            forall|j: int| 0 <= j < i ==> row_is_frame(#[trigger] rows[j], origin),
            message_views(kept@) == kept_frames(rows.take(i as int), origin),
            forall|k: int|
                0 <= k < kept@.len() ==> (#[trigger] kept@[k]).timestamp >= 0 && kept@[k]@.wf(),
        decreases n - i,
    {
        proof {
            assert(rows.take(i + 1).drop_last() =~= rows.take(i as int));
            assert(rows.take(i + 1).last() == rows[i as int]);
            assert(rows[i as int] == row_of(read@[i as int]));
        }
        match &read[i] {
            Err(_) => {
                assert(is_first_bad_row(rows, origin, i as int));
                return Err(ReadError::InvalidRecord { row: i + 1 });
            },
            Ok(record) => match CANMessage::parse_from(record, origin) {
                Err(error) => {
                    assert(is_first_bad_row(rows, origin, i as int));
                    return Err(ReadError::InvalidMessage { row: i + 1, error });
                },
                Ok(frame) => {
                    if frame.timestamp >= 0 {
                        let ghost before = message_views(kept@);
                        kept.push(frame);
                        assert(message_views(kept@) =~= before.push(frame@));
                    }
                },
            },
        }
        i += 1;
    }
    assert(rows.take(n as int) =~= rows);
    let ghost unsorted = kept@;
    let frames = sort_by_time(kept);
    proof {
        lemma_sort_of_views(unsorted, message_view());
        assert forall|k: int| 0 <= k < frames@.len() implies (#[trigger] frames@[k]).timestamp >= 0
            && frames@[k]@.wf() by {
            broadcast use vstd::seq_lib::group_to_multiset_ensures;

            assert(frames@.to_multiset().count(frames@[k]) > 0);
            assert(unsorted.contains(frames@[k]));
        }
    }
    Ok(frames)
}

/// Reads the bytes of a log into frames, from the origin on and in time order.
///
/// The log is comma-separated text with a header row; its rows may differ in
/// length. What becomes of the rows is what [`messages_from_rows`] says.
pub fn read_can_messages(data: &[u8], can_ts_offs: Option<Nanos>) -> (r: Result<
    Vec<CANMessage>,
    ReadError,
>)
    ensures
        read_as(r, csv_rows(data@), can_ts_offs),
        r matches Ok(frames) ==> in_time_order(frames@) && forall|k: int|
            0 <= k < frames@.len() ==> (#[trigger] frames@[k]).timestamp >= 0 && frames@[k]@.wf(),
{
    let read = read_rows(data);
    messages_from_rows(read.as_slice(), can_ts_offs)
}

/// The frames of a log that was read come in time order, and none of them is from
/// before the origin.
pub proof fn lemma_reading_is_ordered(rows: Seq<Row>, origin: Nanos)
    ensures
        in_time_order(sorted_by_time(kept_frames(rows, origin))),
        forall|k: int|
            0 <= k < sorted_by_time(kept_frames(rows, origin)).len() ==> (#[trigger] sorted_by_time(
                kept_frames(rows, origin),
            )[k]).timestamp >= 0,
{
    broadcast use vstd::seq_lib::group_to_multiset_ensures;

    let kept = kept_frames(rows, origin);
    let sorted = sorted_by_time(kept);
    lemma_sorted_by_time(kept);
    lemma_kept_from_origin(rows, origin);
    assert forall|k: int| 0 <= k < sorted.len() implies (#[trigger] sorted[k]).timestamp >= 0 by {
        assert(sorted.to_multiset().count(sorted[k]) > 0);
        assert(kept.contains(sorted[k]));
    }
}

/// No frame that is kept is from before the origin.
proof fn lemma_kept_from_origin(rows: Seq<Row>, origin: Nanos)
    ensures
        forall|k: int|
            0 <= k < kept_frames(rows, origin).len() ==> (#[trigger] kept_frames(
                rows,
                origin,
            )[k]).timestamp >= 0,
    decreases rows.len(),
{
    if rows.len() > 0 {
        lemma_kept_from_origin(rows.drop_last(), origin);
        let kept = kept_frames(rows, origin);
        let before = kept_frames(rows.drop_last(), origin);
        assert forall|k: int| 0 <= k < kept.len() implies (#[trigger] kept[k]).timestamp >= 0 by {
            if k < before.len() {
                assert(kept[k] == before[k]);
            }
        }
    }
}

} // verus!
