//! Decisions of a front end: what to show for what the debugger said.

use crate::coordinator::ExecuteError;
use crate::output::{
    AsyncKind, OutOfBandRecord, OutOfBandView, ResultClass, ResultRecord, ResultRecordView,
};
use crate::text::{chars_of, parse_unsigned, unsigned_of};
use crate::value::{Value, ValueView};
use vstd::prelude::*;

verus! {

/// Where the program stopped, as far as a notification tells.
#[derive(Debug, Clone, PartialEq, Eq)]
pub enum FrameLocation {
    /// The notification names no frame, or the frame names no file.
    Unknown,
    /// The file, and the line counted from zero.
    At { path: String, line: usize },
    /// The frame is not of the expected shape.
    Malformed,
}

/// A frame location as a mathematical object.
pub enum FrameLocationView {
    Unknown,
    At { path: Seq<char>, line: usize },
    Malformed,
}

/// What a front end does with an out-of-band record.
#[derive(Debug, Clone, PartialEq, Eq)]
pub enum Notice {
    /// Streamed text, to be shown as it is.
    Text(String),
    /// The program stopped.
    Stopped(FrameLocation),
    /// A notification that the front end has no use for.
    Unhandled,
}

/// A notice as a mathematical object.
pub enum NoticeView {
    Text(Seq<char>),
    Stopped(FrameLocationView),
    Unhandled,
}

/// What the row of an expression shows after its evaluation was tried.
#[derive(Debug, Clone, PartialEq, Eq)]
pub enum RowUpdate {
    /// Nothing: the debugger reported an error without a message.
    Null,
    /// The debugger's error message.
    Message(Value),
    /// The text of the expression's value, still to be read as a value of
    /// the debugged program.
    Parse(String),
    /// The debugger is busy: this row and those after it stay as they
    /// are.
    Busy,
    /// The debugger is gone.
    Quit,
    /// The result is not one that an evaluation can end with.
    Unexpected,
}

/// A row update as a mathematical object.
pub enum RowUpdateView {
    Null,
    Message(ValueView),
    Parse(Seq<char>),
    Busy,
    Quit,
    Unexpected,
}

impl View for FrameLocation {
    type V = FrameLocationView;

    open spec fn view(&self) -> FrameLocationView {
        match self {
            FrameLocation::Unknown => FrameLocationView::Unknown,
            FrameLocation::At { path, line } => FrameLocationView::At { path: path@, line: *line },
            FrameLocation::Malformed => FrameLocationView::Malformed,
        }
    }
}

impl View for Notice {
    type V = NoticeView;

    open spec fn view(&self) -> NoticeView {
        match self {
            Notice::Text(text) => NoticeView::Text(text@),
            Notice::Stopped(location) => NoticeView::Stopped(location@),
            Notice::Unhandled => NoticeView::Unhandled,
        }
    }
}

impl View for RowUpdate {
    type V = RowUpdateView;

    open spec fn view(&self) -> RowUpdateView {
        match self {
            RowUpdate::Null => RowUpdateView::Null,
            RowUpdate::Message(value) => RowUpdateView::Message(value@),
            RowUpdate::Parse(text) => RowUpdateView::Parse(text@),
            RowUpdate::Busy => RowUpdateView::Busy,
            RowUpdate::Quit => RowUpdateView::Quit,
            RowUpdate::Unexpected => RowUpdateView::Unexpected,
        }
    }
}

/// The number of rows to keep when the empty rows at the end are dropped.
pub open spec fn kept_rows(empty: Seq<bool>) -> int
    decreases empty.len(),
{
    if empty.len() > 0 && empty.last() {
        kept_rows(empty.drop_last())
    } else {
        empty.len() as int
    }
}

/// Where the program stopped, read from the named values of a stop
/// notification: the `fullname` and the `line` of its `frame`. Lines are
/// numbered from one in the notification and from zero in the result.
pub open spec fn location_of(results: ValueView) -> FrameLocationView {
    match results.lookup("frame"@) {
        None => FrameLocationView::Unknown,
        Some(frame) => if !(frame is Tuple) {
            FrameLocationView::Malformed
        } else {
            match (frame.lookup("fullname"@), frame.lookup("line"@)) {
                (None, _) => FrameLocationView::Unknown,
                (Some(ValueView::Const(path)), Some(ValueView::Const(number))) => match unsigned_of(
                    number,
                    usize::MAX as nat,
                ) {
                    Ok(n) => if n >= 1 {
                        FrameLocationView::At { path, line: (n - 1) as usize }
                    } else {
                        FrameLocationView::Malformed
                    },
                    Err(_) => FrameLocationView::Malformed,
                },
                _ => FrameLocationView::Malformed,
            }
        },
    }
}

/// What a front end does with an out-of-band record: streamed text is
/// shown, a notification of kind `Exec` and class `stopped` tells where
/// the program stopped, and any other notification is not handled.
pub open spec fn notice_for(record: OutOfBandView) -> NoticeView {
    match record {
        OutOfBandView::Stream { kind, data } => NoticeView::Text(data),
        OutOfBandView::Async { token, kind, class, results } => if kind == AsyncKind::Exec && class
            == "stopped"@ {
            NoticeView::Stopped(location_of(results))
        } else {
            NoticeView::Unhandled
        },
    }
}

/// What the row of an expression shows for the result of its evaluation:
/// for class `Error` the value under `msg`, for class `Done` the text
/// under `value`.
pub open spec fn update_for_result(record: ResultRecordView) -> RowUpdateView {
    if record.class == ResultClass::Error {
        match record.results.lookup("msg"@) {
            Some(message) => RowUpdateView::Message(message),
            None => RowUpdateView::Null,
        }
    } else if record.class == ResultClass::Done {
        match record.results.lookup("value"@) {
            Some(ValueView::Const(text)) => RowUpdateView::Parse(text),
            _ => RowUpdateView::Unexpected,
        }
    } else {
        RowUpdateView::Unexpected
    }
}

/// What the row of an expression shows for the outcome of its
/// evaluation.
pub open spec fn update_for(outcome: Result<ResultRecord, ExecuteError>) -> RowUpdateView {
    match outcome {
        Ok(record) => update_for_result(record@),
        Err(ExecuteError::Busy) => RowUpdateView::Busy,
        Err(ExecuteError::Quit) => RowUpdateView::Quit,
    }
}

/// The number of rows to keep when the empty rows at the end are
/// dropped: `empty` tells of each row whether it is empty.
pub fn begin_of_empty_range(empty: &[bool]) -> (k: usize)
    ensures
        k == kept_rows(empty@),
        k <= empty.len(),
        forall|j: int| k <= j < empty.len() ==> empty@[j],
        k > 0 ==> !empty@[k - 1],
{
    let mut k: usize = empty.len();
    assert(empty@.take(k as int) =~= empty@);
    while k > 0 && empty[k - 1]
        invariant
            k <= empty.len(),
            kept_rows(empty@) == kept_rows(empty@.take(k as int)),
            forall|j: int| k <= j < empty.len() ==> empty@[j],
        decreases k,
    {
        assert(empty@.take(k as int).drop_last() =~= empty@.take(k - 1));
        k -= 1;
    }
    k
}

/// Where the program stopped, read from the named values of a stop
/// notification.
pub fn frame_location(results: &Value) -> (location: FrameLocation)
    ensures
        location@ == location_of(results@),
{
    let frame = match results.get("frame") {
        Some(frame) => frame,
        None => {
            return FrameLocation::Unknown;
        },
    };
    if frame.as_tuple().is_none() {
        return FrameLocation::Malformed;
    }
    let path = match frame.get("fullname") {
        None => {
            return FrameLocation::Unknown;
        },
        Some(value) => match value.as_const() {
            Some(path) => path,
            None => {
                return FrameLocation::Malformed;
            },
        },
    };
    let number = match frame.get("line") {
        None => {
            return FrameLocation::Malformed;
        },
        Some(value) => match value.as_const() {
            Some(number) => number,
            None => {
                return FrameLocation::Malformed;
            },
        },
    };
    let chars = chars_of(number.as_str());
    assert(chars@.subrange(0, chars.len() as int) =~= number@);
    match parse_unsigned(&chars, 0, chars.len(), usize::MAX as u64) {
        Ok(n) => {
            if n >= 1 {
                FrameLocation::At { path: path.clone(), line: (n - 1) as usize }
            } else {
                FrameLocation::Malformed
            }
        },
        Err(_) => FrameLocation::Malformed,
    }
}

/// What a front end does with an out-of-band record.
pub fn notice_of(record: &OutOfBandRecord) -> (notice: Notice)
    ensures
        notice@ == notice_for(record@),
{
    match record {
        OutOfBandRecord::StreamRecord { kind, data } => Notice::Text(data.clone()),
        OutOfBandRecord::AsyncRecord { token, kind, class, results } => {
            let stopped = "stopped".to_owned();
            let is_exec = match kind {
                AsyncKind::Exec => true,
                _ => false,
            };
            if is_exec && *class == stopped {
                Notice::Stopped(frame_location(results))
            } else {
                Notice::Unhandled
            }
        },
    }
}

/// What the row of an expression shows for the outcome of its
/// evaluation.
pub fn row_update(outcome: &Result<ResultRecord, ExecuteError>) -> (update: RowUpdate)
    ensures
        update@ == update_for(*outcome),
{
    match outcome {
        Ok(record) => match record.class {
            ResultClass::Error => match record.results.get("msg") {
                Some(message) => RowUpdate::Message(message.clone()),
                None => RowUpdate::Null,
            },
            ResultClass::Done => match record.results.get("value") {
                Some(value) => match value.as_const() {
                    Some(text) => RowUpdate::Parse(text.clone()),
                    None => RowUpdate::Unexpected,
                },
                None => RowUpdate::Unexpected,
            },
            _ => RowUpdate::Unexpected,
        },
        Err(ExecuteError::Busy) => RowUpdate::Busy,
        Err(ExecuteError::Quit) => RowUpdate::Quit,
    }
}

/// What a row shows when the text of a value cannot be read.
pub fn parse_failure_text(to_parse: &str) -> (text: String)
    ensures
        text@ == "*Error parsing*: "@ + to_parse@,
{
    let mut text = "*Error parsing*: ".to_owned();
    text.append(to_parse);
    text
}

} // verus!
