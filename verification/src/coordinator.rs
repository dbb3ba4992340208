//! Execution of commands: one at a time, each answered by the result
//! that carries its token, with everything else that arrives passed on.

use crate::commands::{MiCommand, Token};
use crate::decoder::{decode_line, decoded};
use crate::output::{
    OutOfBandRecord, OutOfBandView, Output, OutputView, ResultRecord, ResultRecordView,
};
use std::collections::VecDeque;
use vstd::prelude::*;

verus! {

/// Why a command was not executed.
#[derive(Debug, Clone, Copy, PartialEq, Eq, Structural)]
pub enum ExecuteError {
    /// An earlier command still waits for its result.
    Busy,
    /// The debugger is gone.
    Quit,
}

/// The state of the conversation with the debugger: which token comes
/// next, which command waits for its result, and whether the debugger is
/// gone.
pub struct Coordinator {
    next_token: Token,
    pending: Option<Token>,
    quit: bool,
}

/// The state of a coordinator as a mathematical object.
pub struct CoordinatorView {
    pub next_token: Token,
    pub pending: Option<Token>,
    pub quit: bool,
}

/// What becomes of one line of the debugger's output.
#[derive(Debug, Clone, PartialEq, Eq)]
pub enum Delivery {
    /// The result that the pending command waited for.
    Result(ResultRecord),
    /// An out-of-band record, to be passed on.
    Notification(OutOfBandRecord),
    /// Nothing to deliver: a prompt, a malformed line, or a result that
    /// no command waits for.
    Nothing,
}

/// A delivery as a mathematical object.
pub enum DeliveryView {
    Result(ResultRecordView),
    Notification(OutOfBandView),
    Nothing,
}

/// A channel to the debugger, held in memory.
pub struct Channel {
    /// The bytes written to the debugger so far.
    pub outbound: Vec<u8>,
    /// The lines that the debugger sends before its stream ends, as far
    /// as they have not been read.
    pub inbound: VecDeque<String>,
}

impl View for Coordinator {
    type V = CoordinatorView;

    closed spec fn view(&self) -> CoordinatorView {
        CoordinatorView { next_token: self.next_token, pending: self.pending, quit: self.quit }
    }
}

impl View for Delivery {
    type V = DeliveryView;

    open spec fn view(&self) -> DeliveryView {
        match self {
            Delivery::Result(record) => DeliveryView::Result(record@),
            Delivery::Notification(record) => DeliveryView::Notification(record@),
            Delivery::Nothing => DeliveryView::Nothing,
        }
    }
}

/// The texts of a sequence of lines.
pub open spec fn line_views(lines: Seq<String>) -> Seq<Seq<char>> {
    Seq::new(lines.len(), |i: int| lines[i]@)
}

/// The records of a sequence as mathematical objects.
pub open spec fn records_view(records: Seq<OutOfBandRecord>) -> Seq<OutOfBandView> {
    Seq::new(records.len(), |i: int| records[i]@)
}

/// Whether `line` holds the result that carries `token`.
pub open spec fn answers(line: Seq<char>, token: Token) -> bool {
    decoded(line) matches Some(OutputView::Result(record)) && record.token == token
}

/// The first position at or after `from` of a line that holds the result
/// for `token`, or the number of lines if there is none.
pub open spec fn answer_from(lines: Seq<Seq<char>>, token: Token, from: int) -> int
    decreases lines.len() - from,
{
    if 0 <= from < lines.len() && !answers(lines[from], token) {
        answer_from(lines, token, from + 1)
    } else {
        from
    }
}

/// The position of the first line that holds the result for `token`, or
/// the number of lines if there is none.
pub open spec fn answer_at(lines: Seq<Seq<char>>, token: Token) -> int {
    answer_from(lines, token, 0)
}

/// The out-of-band records that `lines` hold, in the order of the lines.
pub open spec fn notifications(lines: Seq<Seq<char>>) -> Seq<OutOfBandView>
    decreases lines.len(),
{
    if lines.len() == 0 {
        Seq::empty()
    } else {
        match decoded(lines.last()) {
            Some(OutputView::OutOfBand(record)) => notifications(lines.drop_last()).push(record),
            _ => notifications(lines.drop_last()),
        }
    }
}

impl CoordinatorView {
    /// The state after a command was sent from this state.
    pub open spec fn sent(self) -> CoordinatorView {
        CoordinatorView {
            next_token: (self.next_token + 1) as Token,
            pending: Some(self.next_token),
            quit: false,
        }
    }

    /// What stands in the way of sending a command in this state.
    pub open spec fn refusal(self) -> Option<ExecuteError> {
        if self.quit {
            Some(ExecuteError::Quit)
        } else if self.pending is Some {
            Some(ExecuteError::Busy)
        } else {
            None
        }
    }

    /// What a line that was read as `output` delivers in this state.
    /// The result that carries the pending token is delivered, an
    /// out-of-band record is passed on, and all else is dropped.
    pub open spec fn delivery(self, output: Option<OutputView>) -> DeliveryView {
        match output {
            Some(OutputView::Result(record)) => if self.pending == Some(record.token) {
                DeliveryView::Result(record)
            } else {
                DeliveryView::Nothing
            },
            Some(OutputView::OutOfBand(record)) => DeliveryView::Notification(record),
            _ => DeliveryView::Nothing,
        }
    }

    /// The state after a line that was read as `output`: the pending
    /// token is retired when its result arrives.
    pub open spec fn observed(self, output: Option<OutputView>) -> CoordinatorView {
        if self.delivery(output) is Result {
            CoordinatorView { pending: None, ..self }
        } else {
            self
        }
    }

    /// The state after the debugger's stream has ended.
    pub open spec fn closed(self) -> CoordinatorView {
        CoordinatorView { pending: None, quit: true, ..self }
    }
}

/// Once the debugger is gone it stays gone: from the end of its stream
/// on, whatever is taken in, and whether a command is refused or not,
/// every command is refused with `Quit`.
pub proof fn lemma_quit_is_final(state: CoordinatorView, output: Option<OutputView>)
    ensures
        state.closed().refusal() == Some(ExecuteError::Quit),
        state.quit ==> state.refusal() == Some(ExecuteError::Quit),
        state.quit ==> state.observed(output).quit,
        state.quit ==> state.closed().quit,
{
}

/// A command that was sent is pending until its result is taken in:
/// until then every other command is refused with `Busy`, and only the
/// result with its token ends the wait.
pub proof fn lemma_busy_until_answered(state: CoordinatorView, output: Option<OutputView>)
    requires
        state.refusal() is None,
    ensures
        state.sent().refusal() == Some(ExecuteError::Busy),
        state.sent().delivery(output) is Result <==> (output matches Some(OutputView::Result(record))
            && record.token == state.next_token),
        !(state.sent().delivery(output) is Result) ==> state.sent().observed(output).refusal()
            == Some(ExecuteError::Busy),
        state.sent().delivery(output) is Result ==> state.sent().observed(output).refusal()
            is None,
{
}

impl Coordinator {
    /// A coordinator at the start of a conversation.
    pub fn new() -> (c: Coordinator)
        ensures
            c@ == (CoordinatorView { next_token: 0, pending: None, quit: false }),
    {
        Coordinator { next_token: 0, pending: None, quit: false }
    }

    /// The token that the next command will carry.
    pub fn next_token(&self) -> (t: Token)
        ensures
            t == self@.next_token,
    {
        self.next_token
    }

    /// The token of the command that waits for its result, if one does.
    pub fn pending(&self) -> (t: Option<Token>)
        ensures
            t == self@.pending,
    {
        self.pending
    }

    /// Whether the debugger is gone.
    pub fn is_quit(&self) -> (q: bool)
        ensures
            q == self@.quit,
    {
        self.quit
    }

    /// Sends `command`: gives it the next token and appends its line to
    /// `outbound`. While an earlier command waits for its result the
    /// answer is `Busy`, once the debugger is gone it is `Quit`, and in
    /// both cases nothing is written.
    pub fn submit(&mut self, command: &MiCommand, outbound: &mut Vec<u8>) -> (r: Result<
        Token,
        ExecuteError,
    >)
        requires
            old(self)@.next_token < u64::MAX,
        ensures
            match old(self)@.refusal() {
                Some(e) => r == Err::<Token, ExecuteError>(e) && final(self)@ == old(self)@
                    && final(outbound)@ == old(outbound)@,
                None => r == Ok::<Token, ExecuteError>(old(self)@.next_token) && final(self)@
                    == old(self)@.sent() && final(outbound)@ == old(outbound)@ + command@.wire(
                    old(self)@.next_token as nat,
                ),
            },
    {
        if self.quit {
            return Err(ExecuteError::Quit);
        }
        if self.pending.is_some() {
            return Err(ExecuteError::Busy);
        }
        let token = self.next_token;
        command.write_interpreter_string(outbound, token);
        self.next_token = token + 1;
        self.pending = Some(token);
        Ok(token)
    }

    /// Takes in what one line of the debugger's output held.
    pub fn observe(&mut self, output: Output) -> (d: Delivery)
        ensures
            d@ == old(self)@.delivery(Some(output@)),
            final(self)@ == old(self)@.observed(Some(output@)),
    {
        match output {
            Output::Result(record) => {
                if self.pending == Some(record.token) {
                    self.pending = None;
                    Delivery::Result(record)
                } else {
                    Delivery::Nothing
                }
            },
            Output::OutOfBand(record) => Delivery::Notification(record),
            Output::Prompt => Delivery::Nothing,
        }
    }

    /// Takes in one line of the debugger's output. A malformed line is
    /// dropped and changes nothing.
    pub fn observe_line(&mut self, line: &str) -> (d: Delivery)
        ensures
            d@ == old(self)@.delivery(decoded(line@)),
            final(self)@ == old(self)@.observed(decoded(line@)),
    {
        match decode_line(line) {
            Ok(output) => self.observe(output),
            Err(_) => Delivery::Nothing,
        }
    }

    /// Takes in the end of the debugger's stream: the debugger is gone
    /// for good, and a command that waited for its result is given up.
    pub fn close(&mut self)
        ensures
            final(self)@ == old(self)@.closed(),
    {
        self.pending = None;
        self.quit = true;
    }

    /// Executes `command` over a channel held in memory.
    ///
    /// Once the debugger is gone the answer is `Quit`, and while an
    /// earlier command waits for its result it is `Busy`; in both cases
    /// nothing is written, read or passed on. Otherwise the command is
    /// written under the next token, and lines are read up to the first
    /// one that holds the result with that token, which is returned
    /// whatever its class. If the stream ends before such a line, the
    /// answer is `Quit` and the debugger is gone from then on. The
    /// out-of-band records of the lines before the result are appended
    /// to `sink` in the order of the lines.
    pub fn execute(
        &mut self,
        command: &MiCommand,
        channel: &mut Channel,
        sink: &mut Vec<OutOfBandRecord>,
    ) -> (r: Result<ResultRecord, ExecuteError>)
        requires
            old(self)@.next_token < u64::MAX,
        ensures
            match old(self)@.refusal() {
                Some(e) => {
                    &&& r == Err::<ResultRecord, ExecuteError>(e)
                    &&& final(self)@ == old(self)@
                    &&& final(channel).outbound@ == old(channel).outbound@
                    &&& final(channel).inbound@ == old(channel).inbound@
                    &&& final(sink)@ == old(sink)@
                },
                None => {
                    let token = old(self)@.next_token;
                    let lines = line_views(old(channel).inbound@);
                    let k = answer_at(lines, token);
                    &&& final(channel).outbound@ == old(channel).outbound@ + command@.wire(
                        token as nat,
                    )
                    &&& records_view(final(sink)@) == records_view(old(sink)@) + notifications(
                        lines.take(k),
                    )
                    &&& k < lines.len() ==> {
                        &&& r matches Ok(record)
                        &&& decoded(lines[k]) == Some(OutputView::Result(record@))
                        &&& final(self)@ == (CoordinatorView {
                            pending: None,
                            ..old(self)@.sent()
                        })
                        &&& final(channel).inbound@ == old(channel).inbound@.skip(k + 1)
                    }
                    &&& k >= lines.len() ==> {
                        &&& r == Err::<ResultRecord, ExecuteError>(ExecuteError::Quit)
                        &&& final(self)@ == old(self)@.sent().closed()
                        &&& final(channel).inbound@.len() == 0
                    }
                },
            },
    {
        let token = match self.submit(command, &mut channel.outbound) {
            Ok(token) => token,
            Err(e) => {
                return Err(e);
            },
        };
        let ghost lines = line_views(old(channel).inbound@);
        let ghost mut i: int = 0;
        proof {
            assert(old(channel).inbound@.skip(0) =~= old(channel).inbound@);
            assert(lines.take(0) =~= Seq::<Seq<char>>::empty());
            assert(records_view(sink@) + notifications(lines.take(0)) =~= records_view(sink@));
        }
        loop
            invariant
                0 <= i <= lines.len(),
                lines == line_views(old(channel).inbound@),
                channel.inbound@ == old(channel).inbound@.skip(i),
                channel.outbound@ == old(channel).outbound@ + command@.wire(token as nat),
                self@ == old(self)@.sent(),
                old(self)@.refusal() is None,
                token == old(self)@.next_token,
                answer_at(lines, token) == answer_from(lines, token, i),
                records_view(sink@) == records_view(old(sink)@) + notifications(lines.take(i)),
            decreases lines.len() - i,
        {
            match channel.inbound.pop_front() {
                None => {
                    self.close();
                    return Err(ExecuteError::Quit);
                },
                Some(line) => {
                    assert(line@ == lines[i]);
                    assert(old(channel).inbound@.skip(i).subrange(
                        1,
                        old(channel).inbound@.skip(i).len() as int,
                    ) =~= old(channel).inbound@.skip(i + 1));
                    let ghost before = records_view(sink@);
                    match self.observe_line(line.as_str()) {
                        Delivery::Result(record) => {
                            return Ok(record);
                        },
                        Delivery::Notification(record) => {
                            sink.push(record);
                            assert(records_view(sink@) =~= before.push(record@));
                        },
                        Delivery::Nothing => {},
                    }
                    proof {
                        assert(lines.take(i + 1).drop_last() =~= lines.take(i));
                        assert(lines.take(i + 1).last() == lines[i]);
                        assert(records_view(sink@) =~= records_view(old(sink)@) + notifications(
                            lines.take(i + 1),
                        ));
                        i = i + 1;
                    }
                },
            }
        }
    }
}

} // verus!
