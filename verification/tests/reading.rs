use csv::{ReaderBuilder, StringRecord};
use event_timeline::message::{CANMessage, ParseError};
use event_timeline::reader::{messages_from_rows, read_can_messages, ReadError};

const HEADER: &str = "Time Stamp,ID,Extended,Bus,LEN,D1,D2,D3,D4,D5,D6,D7,D8\n";

fn read(body: &str, origin: Option<i64>) -> Result<Vec<CANMessage>, ReadError> {
    let text = format!("{}{}", HEADER, body);
    read_can_messages(text.as_bytes(), origin)
}

fn times(frames: &[CANMessage]) -> Vec<i64> {
    frames.iter().map(|m| m.timestamp).collect()
}

#[test]
fn header_is_left_out_and_rows_are_read() {
    let frames = read("1000,1A,true,0,2,01,02\n2000,1B,false,1,1,ff\n", Some(0)).unwrap();
    assert_eq!(frames.len(), 2);
    assert_eq!(frames[0].timestamp, 1_000_000);
    assert_eq!(frames[0].can_id, 0x1A);
    assert!(frames[0].is_extended_id);
    assert_eq!(frames[0].bus_no, 0);
    assert_eq!(frames[0].data, vec![1, 2]);
    assert_eq!(frames[1].timestamp, 2_000_000);
    assert_eq!(frames[1].can_id, 0x1B);
    assert!(!frames[1].is_extended_id);
    assert_eq!(frames[1].bus_no, 1);
    assert_eq!(frames[1].data, vec![0xff]);
}

#[test]
fn empty_log_gives_no_frames() {
    assert!(read_can_messages(b"", None).unwrap().is_empty());
    assert!(read("", None).unwrap().is_empty());
    assert!(read("", Some(5)).unwrap().is_empty());
}

#[test]
fn first_row_sets_the_origin() {
    let frames = read("5000,1,true,0,0\n5100,2,true,0,0\n7000,3,true,0,0\n", None).unwrap();
    assert_eq!(times(&frames), vec![0, 100_000, 2_000_000]);
}

#[test]
fn given_origin_is_used() {
    let frames = read("5000,1,true,0,0\n5100,2,true,0,0\n", Some(1_000_000)).unwrap();
    assert_eq!(times(&frames), vec![4_000_000, 4_100_000]);
}

#[test]
fn frames_from_before_the_origin_are_left_out() {
    let frames = read("5000,1,true,0,0\n4999,2,true,0,0\n5001,3,true,0,0\n", None).unwrap();
    assert_eq!(times(&frames), vec![0, 1000]);
    assert_eq!(frames[0].can_id, 1);
    assert_eq!(frames[1].can_id, 3);
    let frames = read("1,1,true,0,0\n2,2,true,0,0\n", Some(1500)).unwrap();
    assert_eq!(times(&frames), vec![500]);
    let frames = read("1,1,true,0,0\n2,2,true,0,0\n", Some(2001)).unwrap();
    assert!(frames.is_empty());
}

#[test]
fn frames_come_out_in_time_order() {
    let frames = read(
        "10,1,true,0,0\n30,2,true,1,0\n20,3,true,0,0\n50,4,true,0,0\n40,5,true,1,0\n",
        Some(0),
    )
    .unwrap();
    assert_eq!(times(&frames), vec![10_000, 20_000, 30_000, 40_000, 50_000]);
    let ids: Vec<u32> = frames.iter().map(|m| m.can_id).collect();
    assert_eq!(ids, vec![1, 3, 2, 5, 4]);
}

#[test]
fn frames_of_equal_time_keep_the_order_of_their_rows() {
    let frames = read(
        "20,a,true,0,0\n10,b,true,0,0\n20,c,true,0,0\n10,d,true,0,0\n20,e,true,0,0\n",
        Some(0),
    )
    .unwrap();
    let ids: Vec<u32> = frames.iter().map(|m| m.can_id).collect();
    assert_eq!(ids, vec![0xb, 0xd, 0xa, 0xc, 0xe]);
}

#[test]
fn rows_may_differ_in_length() {
    let frames = read(
        "1,1,true,0,0\n2,2,true,Rx,0,3,aa,bb,cc\n3,3,true,0,8,1,2,3,4,5,6,7,8\n",
        Some(0),
    )
    .unwrap();
    assert_eq!(frames.len(), 3);
    assert!(frames[0].data.is_empty());
    assert_eq!(frames[1].data, vec![0xaa, 0xbb, 0xcc]);
    assert_eq!(frames[2].data, vec![1, 2, 3, 4, 5, 6, 7, 8]);
}

#[test]
fn a_row_that_describes_no_frame_fails_the_log() {
    assert_eq!(
        read("1,1,true,0,0\n2,zz,true,0,0\n3,3,true,0,0\n", Some(0)).unwrap_err(),
        ReadError::InvalidMessage { row: 2, error: ParseError::InvalidCanId }
    );
    assert_eq!(
        read("x,1,true,0,0\n", Some(0)).unwrap_err(),
        ReadError::InvalidMessage { row: 1, error: ParseError::InvalidTimestamp }
    );
    assert_eq!(
        read("1,1,true,0,0\n2,2,true,0,0\n3,3\n", Some(0)).unwrap_err(),
        ReadError::InvalidMessage { row: 3, error: ParseError::MissingExtendedFlag }
    );
}

#[test]
fn the_first_row_at_fault_is_named() {
    assert_eq!(
        read("1,1,true,0,0\n2,2,true,x,0\n3,zz,true,0,0\n", Some(0)).unwrap_err(),
        ReadError::InvalidMessage { row: 2, error: ParseError::InvalidBus }
    );
}

#[test]
fn a_row_from_before_the_origin_still_has_to_be_a_frame() {
    // the second row would be left out for its time, had it described a frame
    assert_eq!(
        read("10,1,true,0,0\n5,1,true,0,0,zz\n", None).unwrap_err(),
        ReadError::InvalidMessage { row: 2, error: ParseError::InvalidData }
    );
}

#[test]
fn a_first_row_that_is_no_frame_sets_no_origin_and_fails() {
    assert_eq!(
        read("x,1,true,0,0\n5,1,true,0,0\n", None).unwrap_err(),
        ReadError::InvalidMessage { row: 1, error: ParseError::InvalidTimestamp }
    );
}

#[test]
fn a_row_that_is_no_text_fails_the_log() {
    let mut data = HEADER.as_bytes().to_vec();
    data.extend_from_slice(b"1,1,true,0,0\n2,2,true,0,1,\xff\n3,3,true,0,0\n");
    assert_eq!(read_can_messages(&data, Some(0)).unwrap_err(), ReadError::InvalidRecord { row: 2 });
    let mut data = HEADER.as_bytes().to_vec();
    data.extend_from_slice(b"\xff,1,true,0,0\n");
    assert_eq!(read_can_messages(&data, None).unwrap_err(), ReadError::InvalidRecord { row: 1 });
}

#[test]
fn quoted_fields_are_read_by_their_content() {
    let frames = read("\"1000\",\"1A\",\"true\",\"0\",\"1\",\"0f\"\n", Some(0)).unwrap();
    assert_eq!(frames.len(), 1);
    assert_eq!(frames[0].timestamp, 1_000_000);
    assert_eq!(frames[0].can_id, 0x1A);
    assert_eq!(frames[0].data, vec![0x0f]);
}

#[test]
fn rows_handed_over_directly_are_read_alike() {
    let rows: Vec<Result<StringRecord, csv::Error>> = vec![
        Ok(StringRecord::from(vec!["3000", "3", "true", "0", "0"])),
        Ok(StringRecord::from(vec!["1000", "1", "false", "Tx", "0", "1", "ab"])),
        Ok(StringRecord::from(vec!["4000", "4", "true", "0", "0"])),
    ];
    let frames = messages_from_rows(&rows, None).unwrap();
    assert_eq!(times(&frames), vec![0, 1_000_000]);
    let frames = messages_from_rows(&rows, Some(-1)).unwrap();
    assert_eq!(times(&frames), vec![1_000_001, 3_000_001, 4_000_001]);
    assert_eq!(frames[0].data, vec![0xab]);
    assert!(messages_from_rows(&[], None).unwrap().is_empty());
}

#[test]
fn rows_handed_over_directly_fail_alike() {
    let mut reader = ReaderBuilder::new().has_headers(false).from_reader(&b"1,1,true,0,0\n\xfe\n"[..]);
    let rows: Vec<Result<StringRecord, csv::Error>> = reader.records().collect();
    assert_eq!(rows.len(), 2);
    assert_eq!(messages_from_rows(&rows, None).unwrap_err(), ReadError::InvalidRecord { row: 2 });
    let rows: Vec<Result<StringRecord, csv::Error>> =
        vec![Ok(StringRecord::from(vec!["1", "1", "true"]))];
    assert_eq!(
        messages_from_rows(&rows, Some(0)).unwrap_err(),
        ReadError::InvalidMessage { row: 1, error: ParseError::MissingBus }
    );
}
