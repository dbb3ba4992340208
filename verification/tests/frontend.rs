use gdb_mi::coordinator::ExecuteError;
use gdb_mi::decoder::decode_line;
use gdb_mi::frontend::{
    begin_of_empty_range, frame_location, notice_of, parse_failure_text, row_update,
    FrameLocation, Notice, RowUpdate,
};
use gdb_mi::output::{OutOfBandRecord, Output, ResultClass, ResultRecord};
use gdb_mi::value::Value;

fn text(s: &str) -> Value {
    Value::Const(s.to_string())
}

fn tuple(entries: Vec<(&str, Value)>) -> Value {
    Value::Tuple(entries.into_iter().map(|(k, v)| (k.to_string(), v)).collect())
}

fn record(line: &str) -> OutOfBandRecord {
    match decode_line(line) {
        Ok(Output::OutOfBand(r)) => r,
        other => panic!("no out-of-band record: {:?}", other),
    }
}

fn result(class: ResultClass, results: Value) -> Result<ResultRecord, ExecuteError> {
    Ok(ResultRecord { token: 1, class, results })
}

#[test]
fn empty_rows_at_the_end_are_dropped() {
    assert_eq!(begin_of_empty_range(&[]), 0);
    assert_eq!(begin_of_empty_range(&[true]), 0);
    assert_eq!(begin_of_empty_range(&[true, true, true]), 0);
    assert_eq!(begin_of_empty_range(&[false]), 1);
    assert_eq!(begin_of_empty_range(&[false, true]), 1);
    assert_eq!(begin_of_empty_range(&[true, false, true, true]), 2);
    assert_eq!(begin_of_empty_range(&[false, true, false]), 3);
}

#[test]
fn stop_with_file_and_line() {
    let r = record(
        "*stopped,reason=\"breakpoint-hit\",frame={addr=\"0x1\",func=\"main\",file=\"a.c\",fullname=\"/src/a.c\",line=\"17\"}",
    );
    assert_eq!(
        notice_of(&r),
        Notice::Stopped(FrameLocation::At { path: "/src/a.c".to_string(), line: 16 })
    );
}

#[test]
fn stop_without_frame_or_file() {
    assert_eq!(
        notice_of(&record("*stopped,reason=\"exited-normally\"")),
        Notice::Stopped(FrameLocation::Unknown)
    );
    assert_eq!(
        notice_of(&record("*stopped,frame={addr=\"0x1\",func=\"??\",line=\"3\"}")),
        Notice::Stopped(FrameLocation::Unknown)
    );
    assert_eq!(notice_of(&record("*stopped,frame={}")), Notice::Stopped(FrameLocation::Unknown));
}

#[test]
fn stop_with_a_frame_of_another_shape() {
    for line in [
        "*stopped,frame=\"main\"",
        "*stopped,frame=[\"a\"]",
        "*stopped,frame={fullname={a=\"b\"},line=\"1\"}",
        "*stopped,frame={fullname=\"/a.c\"}",
        "*stopped,frame={fullname=\"/a.c\",line=[\"1\"]}",
        "*stopped,frame={fullname=\"/a.c\",line=\"x\"}",
        "*stopped,frame={fullname=\"/a.c\",line=\"\"}",
        "*stopped,frame={fullname=\"/a.c\",line=\"0\"}",
        "*stopped,frame={fullname=\"/a.c\",line=\"99999999999999999999999\"}",
    ] {
        assert_eq!(notice_of(&record(line)), Notice::Stopped(FrameLocation::Malformed));
    }
    assert_eq!(
        frame_location(&tuple(vec![(
            "frame",
            tuple(vec![("fullname", text("/a.c")), ("line", text("1"))])
        )])),
        FrameLocation::At { path: "/a.c".to_string(), line: 0 }
    );
    assert_eq!(frame_location(&text("frame")), FrameLocation::Unknown);
}

#[test]
fn other_records() {
    assert_eq!(notice_of(&record("~\"some text\\n\"")), Notice::Text("some text\n".to_string()));
    assert_eq!(notice_of(&record("&\"\"")), Notice::Text(String::new()));
    assert_eq!(notice_of(&record("*running,thread-id=\"all\"")), Notice::Unhandled);
    assert_eq!(notice_of(&record("=stopped,frame={fullname=\"/a.c\",line=\"2\"}")), Notice::Unhandled);
    assert_eq!(notice_of(&record("+stopped")), Notice::Unhandled);
    assert_eq!(notice_of(&record("*stopped2")), Notice::Unhandled);
}

#[test]
fn row_shows_value_or_message() {
    assert_eq!(
        row_update(&result(ResultClass::Done, tuple(vec![("value", text("{a = 1}"))]))),
        RowUpdate::Parse("{a = 1}".to_string())
    );
    assert_eq!(
        row_update(&result(ResultClass::Error, tuple(vec![("msg", text("No symbol."))]))),
        RowUpdate::Message(text("No symbol."))
    );
    assert_eq!(row_update(&result(ResultClass::Error, tuple(vec![]))), RowUpdate::Null);
    assert_eq!(
        row_update(&result(ResultClass::Error, tuple(vec![("value", text("1"))]))),
        RowUpdate::Null
    );
}

#[test]
fn row_for_other_outcomes() {
    assert_eq!(row_update(&Err(ExecuteError::Busy)), RowUpdate::Busy);
    assert_eq!(row_update(&Err(ExecuteError::Quit)), RowUpdate::Quit);
    assert_eq!(row_update(&result(ResultClass::Done, tuple(vec![]))), RowUpdate::Unexpected);
    assert_eq!(
        row_update(&result(ResultClass::Done, tuple(vec![("value", tuple(vec![]))]))),
        RowUpdate::Unexpected
    );
    assert_eq!(
        row_update(&result(ResultClass::Done, tuple(vec![("msg", text("m"))]))),
        RowUpdate::Unexpected
    );
    for class in [ResultClass::Running, ResultClass::Connected, ResultClass::Exit] {
        assert_eq!(
            row_update(&result(class, tuple(vec![("value", text("1")), ("msg", text("m"))]))),
            RowUpdate::Unexpected
        );
    }
}

#[test]
fn unreadable_value_text() {
    assert_eq!(parse_failure_text("{x"), "*Error parsing*: {x");
    assert_eq!(parse_failure_text(""), "*Error parsing*: ");
}
