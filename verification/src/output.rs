//! What the debugger sends: results of commands, notifications, and
//! text from its streams.

use crate::commands::Token;
use crate::value::{Value, ValueView};
use vstd::prelude::*;

verus! {

/// How a command ended.
#[derive(Debug, Clone, Copy, PartialEq, Eq, Structural)]
pub enum ResultClass {
    Done,
    Running,
    Connected,
    Error,
    Exit,
}

/// What a notification is about: the state of the program, the progress
/// of a slow operation, or anything else worth telling.
#[derive(Debug, Clone, Copy, PartialEq, Eq, Structural)]
pub enum AsyncKind {
    Exec,
    Status,
    Notify,
}

/// Where streamed text comes from: the debugger's console, the program
/// being debugged, or the debugger's log.
#[derive(Debug, Clone, Copy, PartialEq, Eq, Structural)]
pub enum StreamKind {
    Console,
    Target,
    Log,
}

/// The answer to one command. `results` is a tuple.
#[derive(Debug, Clone, PartialEq, Eq)]
pub struct ResultRecord {
    pub token: Token,
    pub class: ResultClass,
    pub results: Value,
}

/// A record that answers no command. `results` is a tuple.
#[derive(Debug, Clone, PartialEq, Eq)]
pub enum OutOfBandRecord {
    AsyncRecord { token: Option<Token>, kind: AsyncKind, class: String, results: Value },
    StreamRecord { kind: StreamKind, data: String },
}

/// What one line of the debugger's output holds.
#[derive(Debug, Clone, PartialEq, Eq)]
pub enum Output {
    Result(ResultRecord),
    OutOfBand(OutOfBandRecord),
    /// The prompt, which carries nothing.
    Prompt,
}

/// The failure to read a line: it has none of the known forms.
#[derive(Debug, Clone, Copy, PartialEq, Eq, Structural)]
pub struct ParseError;

/// A result record as a mathematical object.
pub struct ResultRecordView {
    pub token: Token,
    pub class: ResultClass,
    pub results: ValueView,
}

/// An out-of-band record as a mathematical object.
pub enum OutOfBandView {
    Async { token: Option<Token>, kind: AsyncKind, class: Seq<char>, results: ValueView },
    Stream { kind: StreamKind, data: Seq<char> },
}

/// The content of a line as a mathematical object.
pub enum OutputView {
    Result(ResultRecordView),
    OutOfBand(OutOfBandView),
    Prompt,
}

impl View for ResultRecord {
    type V = ResultRecordView;

    open spec fn view(&self) -> ResultRecordView {
        ResultRecordView { token: self.token, class: self.class, results: self.results@ }
    }
}

impl View for OutOfBandRecord {
    type V = OutOfBandView;

    open spec fn view(&self) -> OutOfBandView {
        match self {
            OutOfBandRecord::AsyncRecord { token, kind, class, results } => OutOfBandView::Async {
                token: *token,
                kind: *kind,
                class: class@,
                results: results@,
            },
            OutOfBandRecord::StreamRecord { kind, data } => OutOfBandView::Stream {
                kind: *kind,
                data: data@,
            },
        }
    }
}

impl View for Output {
    type V = OutputView;

    open spec fn view(&self) -> OutputView {
        match self {
            Output::Result(record) => OutputView::Result(record@),
            Output::OutOfBand(record) => OutputView::OutOfBand(record@),
            Output::Prompt => OutputView::Prompt,
        }
    }
}

} // verus!
