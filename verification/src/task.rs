//! The processor of one log: what it does when something has happened,
//! and what holds of the messages that it asks to be ingested.

use vstd::prelude::*;

use crate::config::Config;
use crate::log::{normalized, LogMessage, LogMessageView, NormalizeError};
use crate::protobuf::{
    decoded_entry, encoded_entry, entry_fits, lemma_entry_round_trip, LogEntryView,
};
use crate::reader::{
    after_frame, framed, lemma_framed_first, next_frame, stream_of, Reader, ReaderError,
    ReaderErrorView,
};

verus! {

/// Why a processor ends in failure.
#[derive(Debug)]
pub enum TaskError {
    /// The named pipe could not be opened; the string says why.
    Open(String),
    /// The stream could not be read, or holds what is no record.
    Reader(ReaderError),
    /// A record is no log message.
    Normalize(NormalizeError),
}

/// The mathematical content of a [`TaskError`].
pub enum TaskErrorView {
    Open(Seq<char>),
    Reader(ReaderErrorView),
    Normalize(NormalizeError),
}

impl View for TaskError {
    type V = TaskErrorView;

    open spec fn view(&self) -> TaskErrorView {
        match self {
            TaskError::Open(text) => TaskErrorView::Open(text@),
            TaskError::Reader(error) => TaskErrorView::Reader(error@),
            TaskError::Normalize(error) => TaskErrorView::Normalize(*error),
        }
    }
}

impl TaskError {
    /// The words that describe the error.
    pub open spec fn spec_message(&self) -> Seq<char> {
        match self {
            TaskError::Open(text) => text@,
            TaskError::Reader(error) => error.spec_message(),
            TaskError::Normalize(error) => error.spec_message(),
        }
    }

    /// The words that describe the error.
    pub fn message(&self) -> (res: String)
        ensures
            res@ == self.spec_message(),
    {
        match self {
            TaskError::Open(text) => text.clone(),
            TaskError::Reader(error) => error.message(),
            TaskError::Normalize(error) => error.message().to_owned(),
        }
    }
}

/// What has happened outside a processor since its last action.
#[derive(Debug)]
pub enum TaskEvent {
    /// The named pipe has been opened.
    Opened,
    /// The named pipe could not be opened; the string says why.
    OpenFailed(String),
    /// The stream has gone on with these bytes.
    Data(Vec<u8>),
    /// The stream has ended.
    Eof,
    /// Reading the stream has failed; the string says how.
    ReadFailed(String),
    /// The message of the last action has been handed to the ingest
    /// endpoint, with or without success.
    Ingested(bool),
    /// The stop signal has come, or its sender is gone.
    Stop,
}

/// The mathematical content of a [`TaskEvent`].
pub enum EventView {
    Opened,
    OpenFailed(Seq<char>),
    Data(Seq<u8>),
    Eof,
    ReadFailed(Seq<char>),
    Ingested(bool),
    Stop,
}

impl View for TaskEvent {
    type V = EventView;

    open spec fn view(&self) -> EventView {
        match self {
            TaskEvent::Opened => EventView::Opened,
            TaskEvent::OpenFailed(text) => EventView::OpenFailed(text@),
            TaskEvent::Data(bytes) => EventView::Data(bytes@),
            TaskEvent::Eof => EventView::Eof,
            TaskEvent::ReadFailed(text) => EventView::ReadFailed(text@),
            TaskEvent::Ingested(ok) => EventView::Ingested(*ok),
            TaskEvent::Stop => EventView::Stop,
        }
    }
}

/// What reading the stream has given.
#[derive(Debug)]
pub enum ReadOutcome {
    /// These bytes; none at the end of the stream.
    Bytes(Vec<u8>),
    /// A failure. `unexpected_eof` says that the stream ended where more
    /// bytes were asked for; `description` says what went wrong.
    Failed { unexpected_eof: bool, description: String },
}

/// The mathematical content of a [`ReadOutcome`].
pub enum ReadOutcomeView {
    Bytes(Seq<u8>),
    Failed { unexpected_eof: bool, description: Seq<char> },
}

impl View for ReadOutcome {
    type V = ReadOutcomeView;

    open spec fn view(&self) -> ReadOutcomeView {
        match self {
            ReadOutcome::Bytes(bytes) => ReadOutcomeView::Bytes(bytes@),
            ReadOutcome::Failed { unexpected_eof, description } => ReadOutcomeView::Failed {
                unexpected_eof: *unexpected_eof,
                description: description@,
            },
        }
    }
}

/// What has happened when reading has given `outcome`: bytes have come,
/// or the stream has ended, which it also has where it ended within the
/// bytes that were asked for; any other failure is one of reading.
pub open spec fn read_event(outcome: ReadOutcomeView) -> EventView {
    match outcome {
        ReadOutcomeView::Bytes(bytes) => if bytes.len() == 0 {
            EventView::Eof
        } else {
            EventView::Data(bytes)
        },
        ReadOutcomeView::Failed { unexpected_eof, description } => if unexpected_eof {
            EventView::Eof
        } else {
            EventView::ReadFailed(description)
        },
    }
}

impl TaskEvent {
    /// What has happened when reading has given `outcome`.
    pub fn of_read(outcome: ReadOutcome) -> (res: TaskEvent)
        ensures
            res@ == read_event(outcome@),
    {
        match outcome {
            ReadOutcome::Bytes(bytes) => if bytes.len() == 0 {
                TaskEvent::Eof
            } else {
                TaskEvent::Data(bytes)
            },
            ReadOutcome::Failed { unexpected_eof, description } => if unexpected_eof {
                TaskEvent::Eof
            } else {
                TaskEvent::ReadFailed(description)
            },
        }
    }
}

/// What a processor asks to be done next.
#[derive(Debug)]
pub enum TaskAction {
    /// Read on, and come back with the bytes, the end or the failure.
    Read,
    /// Hand this message to the ingest endpoint, and come back when that
    /// is done.
    Ingest(LogMessage),
    /// End the processor with this result.
    Finish(Result<(), TaskError>),
}

/// The mathematical content of a [`TaskAction`].
pub ghost enum ActionView {
    Read,
    Ingest(LogMessageView),
    Finish(Result<(), TaskErrorView>),
}

impl View for TaskAction {
    type V = ActionView;

    open spec fn view(&self) -> ActionView {
        match self {
            TaskAction::Read => ActionView::Read,
            TaskAction::Ingest(message) => ActionView::Ingest(message@),
            TaskAction::Finish(Ok(_)) => ActionView::Finish(Ok(())),
            TaskAction::Finish(Err(error)) => ActionView::Finish(Err(error@)),
        }
    }
}

/// The mathematical content of a [`Task`].
pub struct TaskView {
    /// The bytes that have come and have not been read as records yet.
    pub buffered: Seq<u8>,
    /// Whether the processor has ended.
    pub finished: bool,
}

/// What a running processor does with the bytes that it holds: it takes
/// the first record, if one is whole, and asks for its message to be
/// ingested; it ends where the record is none or gives no message; and it
/// asks for more where no record is whole.
pub open spec fn pumped(buffered: Seq<u8>) -> (TaskView, ActionView) {
    match next_frame(buffered) {
        Some(payload) => match decoded_entry(payload) {
            Some(entry) => match normalized(entry) {
                Ok(message) => (
                    TaskView { buffered: after_frame(buffered), finished: false },
                    ActionView::Ingest(message),
                ),
                Err(error) => (
                    TaskView { buffered: after_frame(buffered), finished: true },
                    ActionView::Finish(Err(TaskErrorView::Normalize(error))),
                ),
            },
            None => (
                TaskView { buffered: after_frame(buffered), finished: true },
                ActionView::Finish(Err(TaskErrorView::Reader(ReaderErrorView::Protobuf))),
            ),
        },
        None => (TaskView { buffered, finished: false }, ActionView::Read),
    }
}

/// The processor as it is left when it ends.
pub open spec fn ended(task: TaskView) -> TaskView {
    TaskView { buffered: task.buffered, finished: true }
}

/// What a processor does when something has happened: its next state and
/// its next action. One that has ended stays as it is. One that runs goes
/// on with its records when the pipe is open, when bytes have come and
/// when a message has been ingested, whether with success or not; it ends
/// in success at the end of the stream and on the stop signal, and in
/// failure where opening or reading has failed.
pub open spec fn stepped(task: TaskView, event: EventView) -> (TaskView, ActionView) {
    if task.finished {
        (task, ActionView::Finish(Ok(())))
    } else {
        match event {
            EventView::Opened => pumped(task.buffered),
            EventView::Ingested(_) => pumped(task.buffered),
            EventView::Data(bytes) => pumped(task.buffered + bytes),
            EventView::Eof => (ended(task), ActionView::Finish(Ok(()))),
            EventView::Stop => (ended(task), ActionView::Finish(Ok(()))),
            EventView::OpenFailed(text) => (
                ended(task),
                ActionView::Finish(Err(TaskErrorView::Open(text))),
            ),
            EventView::ReadFailed(text) => (
                ended(task),
                ActionView::Finish(Err(TaskErrorView::Reader(ReaderErrorView::Io(text)))),
            ),
        }
    }
}

/// The processor of one named pipe: it reads the records that the engine
/// writes, and has each of them ingested as a log message, until the
/// stream ends or the stop signal comes. Opening, reading, ingesting and
/// waiting are done by its caller, which tells the processor what has
/// happened and is told what to do next.
pub struct Task {
    config: Config,
    reader: Reader,
    finished: bool,
}

impl View for Task {
    type V = TaskView;

    closed spec fn view(&self) -> TaskView {
        TaskView { buffered: self.reader@, finished: self.finished }
    }
}

impl Task {
    /// The configuration that the processor was made with.
    pub closed spec fn spec_config(&self) -> Config {
        self.config
    }

    /// A processor that has read nothing yet.
    pub fn new(config: Config) -> (res: Self)
        ensures
            res@ == (TaskView { buffered: Seq::empty(), finished: false }),
            res.spec_config() == config,
    {
        Task { config, reader: Reader::new(Vec::new()), finished: false }
    }

    /// The configuration that the processor was made with.
    pub fn config(&self) -> (res: &Config)
        ensures
            *res == self.spec_config(),
    {
        &self.config
    }

    /// Whether the processor has ended.
    pub fn is_finished(&self) -> (res: bool)
        ensures
            res == self@.finished,
    {
        self.finished
    }

    /// The number of bytes that have come and have not been read as
    /// records yet.
    pub fn buffered(&self) -> (res: usize)
        ensures
            res == self@.buffered.len(),
    {
        self.reader.buffered()
    }

    /// Goes on with the records that the processor holds.
    fn pump(&mut self) -> (res: TaskAction)
        requires
            !old(self)@.finished,
        ensures
            (final(self)@, res@) == pumped(old(self)@.buffered),
            final(self).spec_config() == old(self).spec_config(),
    {
        match self.reader.next() {
            Ok(Some(entry)) => match LogMessage::try_from(entry) {
                Ok(message) => TaskAction::Ingest(message),
                Err(error) => {
                    self.finished = true;
                    TaskAction::Finish(Err(TaskError::Normalize(error)))
                },
            },
            Ok(None) => TaskAction::Read,
            Err(error) => {
                self.finished = true;
                TaskAction::Finish(Err(TaskError::Reader(error)))
            },
        }
    }

    /// Tells the processor what has happened, and gives what it asks to be
    /// done next.
    pub fn step(&mut self, event: TaskEvent) -> (res: TaskAction)
        requires
            event matches TaskEvent::Data(bytes) ==> old(self)@.buffered.len() + bytes@.len()
                <= usize::MAX,
        ensures
            (final(self)@, res@) == stepped(old(self)@, event@),
            final(self).spec_config() == old(self).spec_config(),
    {
        if self.finished {
            return TaskAction::Finish(Ok(()));
        }
        match event {
            TaskEvent::Opened => self.pump(),
            TaskEvent::Ingested(_) => self.pump(),
            TaskEvent::Data(bytes) => {
                self.reader.feed(bytes.as_slice());
                self.pump()
            },
            TaskEvent::Eof => {
                self.finished = true;
                TaskAction::Finish(Ok(()))
            },
            TaskEvent::Stop => {
                self.finished = true;
                TaskAction::Finish(Ok(()))
            },
            TaskEvent::OpenFailed(text) => {
                self.finished = true;
                TaskAction::Finish(Err(TaskError::Open(text)))
            },
            TaskEvent::ReadFailed(text) => {
                self.finished = true;
                TaskAction::Finish(Err(TaskError::Reader(ReaderError::Io(text))))
            },
        }
    }
}

/// The messages that the records of a stream give, one for each record in
/// the order of the stream, up to the first record that is not whole, is no
/// record or gives no message.
pub open spec fn messages_of(stream: Seq<u8>) -> Seq<LogMessageView>
    decreases stream.len(),
{
    match next_frame(stream) {
        Some(payload) => match decoded_entry(payload) {
            Some(entry) => match normalized(entry) {
                Ok(message) => seq![message] + messages_of(after_frame(stream)),
                Err(_) => Seq::empty(),
            },
            None => Seq::empty(),
        },
        None => Seq::empty(),
    }
}

/// The processor before anything has happened.
pub open spec fn fresh() -> TaskView {
    TaskView { buffered: Seq::empty(), finished: false }
}

/// The state of a processor after a sequence of events, and the actions
/// that it has asked for, one for each event.
pub open spec fn run(task: TaskView, events: Seq<EventView>) -> (TaskView, Seq<ActionView>)
    decreases events.len(),
{
    if events.len() == 0 {
        (task, Seq::empty())
    } else {
        let before = run(task, events.drop_last());
        let last = stepped(before.0, events.last());
        (last.0, before.1.push(last.1))
    }
}

/// The messages that a sequence of actions asks to be ingested, in order.
pub open spec fn ingested(actions: Seq<ActionView>) -> Seq<LogMessageView>
    decreases actions.len(),
{
    if actions.len() == 0 {
        Seq::empty()
    } else {
        match actions.last() {
            ActionView::Ingest(message) => ingested(actions.drop_last()).push(message),
            _ => ingested(actions.drop_last()),
        }
    }
}

/// The bytes that a sequence of events brings, in order.
pub open spec fn fed(events: Seq<EventView>) -> Seq<u8>
    decreases events.len(),
{
    if events.len() == 0 {
        Seq::empty()
    } else {
        match events.last() {
            EventView::Data(bytes) => fed(events.drop_last()) + bytes,
            _ => fed(events.drop_last()),
        }
    }
}

/// Whether `head` is a run of whole records that give the messages
/// `messages`: whatever follows it, the messages of the stream are those,
/// and then the messages of what follows.
pub open spec fn gives(head: Seq<u8>, messages: Seq<LogMessageView>) -> bool {
    forall|rest: Seq<u8>| #[trigger] messages_of(head + rest) == messages + messages_of(rest)
}

/// A stream that has a first record keeps it, and what stands behind it,
/// when it goes on.
pub proof fn lemma_frame_extends(stream: Seq<u8>, more: Seq<u8>)
    requires
        next_frame(stream) is Some,
    ensures
        next_frame(stream + more) == next_frame(stream),
        after_frame(stream + more) == after_frame(stream) + more,
{
    let longer = stream + more;
    assert(longer[0] == stream[0]);
    assert(longer[1] == stream[1]);
    assert(longer[2] == stream[2]);
    assert(longer[3] == stream[3]);
    let len = crate::reader::frame_len(stream);
    assert(longer.subrange(4, 4 + len) == stream.subrange(4, 4 + len));
    assert(longer.skip(4 + len) == stream.skip(4 + len) + more);
}

/// The messages of a stream stay the first messages of the stream when it
/// goes on.
pub proof fn lemma_messages_extend(stream: Seq<u8>, more: Seq<u8>)
    ensures
        messages_of(stream).is_prefix_of(messages_of(stream + more)),
    decreases stream.len(),
{
    match next_frame(stream) {
        Some(payload) => {
            lemma_frame_extends(stream, more);
            match decoded_entry(payload) {
                Some(entry) => match normalized(entry) {
                    Ok(message) => {
                        lemma_messages_extend(after_frame(stream), more);
                        let short = messages_of(after_frame(stream));
                        let long = messages_of(after_frame(stream) + more);
                        assert(messages_of(stream) == seq![message] + short);
                        assert(messages_of(stream + more) == seq![message] + long);
                        assert((seq![message] + short).is_prefix_of(seq![message] + long)) by {
                            assert forall|i: int| 0 <= i < (seq![message] + short).len() implies (
                            seq![message] + short)[i] == (seq![message] + long)[i] by {
                                if i > 0 {
                                    assert(short[i - 1] == long[i - 1]);
                                }
                            }
                        }
                    },
                    Err(_) => {},
                },
                None => {},
            }
        },
        None => {},
    }
}

/// A run of whole records that is followed by one more whole record, which
/// gives a message, is a run of whole records with one more message.
#[verifier::rlimit(50)]
pub proof fn lemma_gives_one_more(
    head: Seq<u8>,
    messages: Seq<LogMessageView>,
    buffered: Seq<u8>,
)
    requires
        gives(head, messages),
        pumped(buffered).1 is Ingest,
    ensures
        head + buffered == (head + buffered.take(buffered.len() - pumped(buffered).0.buffered.len()))
            + pumped(buffered).0.buffered,
        pumped(buffered).0.buffered.len() <= buffered.len(),
        gives(
            head + buffered.take(buffered.len() - pumped(buffered).0.buffered.len()),
            messages.push(pumped(buffered).1->Ingest_0),
        ),
{
    let payload = next_frame(buffered)->Some_0;
    let message = pumped(buffered).1->Ingest_0;
    let behind = after_frame(buffered);
    let record = buffered.take(buffered.len() - behind.len());
    assert(buffered == record + behind);
    assert(head + buffered == (head + record) + behind);
    assert forall|rest: Seq<u8>| #[trigger]
        messages_of((head + record) + rest) == messages.push(message) + messages_of(rest) by {
        assert((head + record) + rest == head + (record + rest));
        assert(messages_of(head + (record + rest)) == messages + messages_of(record + rest));
        lemma_frame_extends(buffered, rest);
        assert(record + rest == (buffered + rest).take(record.len() as int) + rest);
        assert(next_frame(record) == Some(payload)) by {
            assert(record[0] == buffered[0]);
            assert(record[1] == buffered[1]);
            assert(record[2] == buffered[2]);
            assert(record[3] == buffered[3]);
            assert(record.subrange(4, 4 + crate::reader::frame_len(buffered)) == payload);
        }
        lemma_frame_extends(record, rest);
        assert(after_frame(record) == Seq::<u8>::empty());
        assert(after_frame(record + rest) == rest);
        assert(messages_of(record + rest) == seq![message] + messages_of(rest));
        assert(messages + (seq![message] + messages_of(rest)) == messages.push(message)
            + messages_of(rest));
    }
}

/// What holds of a processor and the actions it has asked for, after the
/// bytes `bytes` have come: while it runs, the bytes that it has read are a
/// run of whole records that give the messages it has asked to be
/// ingested, and the bytes that it holds are the others; and at any time
/// those messages are the first messages of the stream.
pub open spec fn in_order(task: TaskView, messages: Seq<LogMessageView>, bytes: Seq<u8>) -> bool {
    &&& messages.is_prefix_of(messages_of(bytes))
    &&& !task.finished ==> {
        &&& task.buffered.len() <= bytes.len()
        &&& bytes.skip(bytes.len() - task.buffered.len()) == task.buffered
        &&& gives(bytes.take(bytes.len() - task.buffered.len()), messages)
    }
}

/// A running processor that goes on with its records keeps the order of
/// its messages.
#[verifier::rlimit(50)]
pub proof fn lemma_pump_in_order(
    head: Seq<u8>,
    messages: Seq<LogMessageView>,
    buffered: Seq<u8>,
)
    requires
        gives(head, messages),
    ensures
        in_order(
            pumped(buffered).0,
            match pumped(buffered).1 {
                ActionView::Ingest(message) => messages.push(message),
                _ => messages,
            },
            head + buffered,
        ),
{
    let after = pumped(buffered);
    let longer = head + buffered;
    assert(messages_of(head + buffered) == messages + messages_of(buffered));
    if after.1 is Ingest {
        lemma_gives_one_more(head, messages, buffered);
        let message = after.1->Ingest_0;
        let taken = head + buffered.take(buffered.len() - after.0.buffered.len());
        assert(longer == taken + after.0.buffered);
        assert(longer.take(longer.len() - after.0.buffered.len()) == taken);
        assert(longer.skip(longer.len() - after.0.buffered.len()) == after.0.buffered);
        assert(messages_of(taken + after.0.buffered) == messages.push(message) + messages_of(
            after.0.buffered,
        ));
    } else if after.1 is Read {
        assert(after.0.buffered == buffered);
        assert(longer.take(longer.len() - buffered.len()) == head);
        assert(longer.skip(longer.len() - buffered.len()) == buffered);
    } else {
        assert(messages_of(buffered) == Seq::<LogMessageView>::empty());
        assert(messages + Seq::<LogMessageView>::empty() == messages);
    }
}

/// One step of a processor keeps the order of its messages.
#[verifier::rlimit(50)]
pub proof fn lemma_step_in_order(
    task: TaskView,
    messages: Seq<LogMessageView>,
    bytes: Seq<u8>,
    event: EventView,
)
    requires
        in_order(task, messages, bytes),
    ensures
        in_order(
            stepped(task, event).0,
            match stepped(task, event).1 {
                ActionView::Ingest(message) => messages.push(message),
                _ => messages,
            },
            match event {
                EventView::Data(more) => bytes + more,
                _ => bytes,
            },
        ),
{
    let more = match event {
        EventView::Data(more) => more,
        _ => Seq::empty(),
    };
    lemma_messages_extend(bytes, more);
    if !(event is Data) {
        assert(bytes + more == bytes);
    }
    if !task.finished {
        let head = bytes.take(bytes.len() - task.buffered.len());
        assert(bytes == head + task.buffered);
        if event is Opened || event is Ingested || event is Data {
            let buffered = task.buffered + more;
            assert(bytes + more == head + buffered);
            lemma_pump_in_order(head, messages, buffered);
        }
    }
}

/// Whatever happens to a processor, and in whatever pieces the stream
/// comes: the messages that it asks to be ingested are the first messages
/// of the stream, each once and in the order of the records.
#[verifier::rlimit(50)]
pub proof fn lemma_ingests_in_order(events: Seq<EventView>)
    ensures
        in_order(run(fresh(), events).0, ingested(run(fresh(), events).1), fed(events)),
        ingested(run(fresh(), events).1).is_prefix_of(messages_of(fed(events))),
    decreases events.len(),
{
    if events.len() == 0 {
        assert(Seq::<u8>::empty().take(0) + Seq::<u8>::empty() == Seq::<u8>::empty());
        assert forall|rest: Seq<u8>| #[trigger]
            messages_of(Seq::<u8>::empty().take(0) + rest) == Seq::<LogMessageView>::empty()
                + messages_of(rest) by {
            assert(Seq::<u8>::empty().take(0) + rest == rest);
            assert(Seq::<LogMessageView>::empty() + messages_of(rest) == messages_of(rest));
        }
        assert(Seq::<u8>::empty().skip(0) == Seq::<u8>::empty());
    } else {
        let front = events.drop_last();
        lemma_ingests_in_order(front);
        let before = run(fresh(), front);
        lemma_step_in_order(before.0, ingested(before.1), fed(front), events.last());
        let last = stepped(before.0, events.last());
        assert(before.1.push(last.1).drop_last() == before.1);
    }
}

/// Where a running processor asks for more bytes, it has asked for every
/// message of the stream so far to be ingested: when the stream then ends,
/// no record has been left out.
#[verifier::rlimit(50)]
pub proof fn lemma_nothing_left_out(events: Seq<EventView>)
    requires
        events.len() > 0,
        !run(fresh(), events).0.finished,
        run(fresh(), events).1.last() is Read,
    ensures
        ingested(run(fresh(), events).1) == messages_of(fed(events)),
        stepped(run(fresh(), events).0, EventView::Eof).1 == ActionView::Finish(Ok(())),
{
    lemma_ingests_in_order(events);
    let after = run(fresh(), events);
    let bytes = fed(events);
    let head = bytes.take(bytes.len() - after.0.buffered.len());
    assert(bytes == head + after.0.buffered);
    assert(messages_of(head + after.0.buffered) == ingested(after.1) + messages_of(
        after.0.buffered,
    ));
    let front = run(fresh(), events.drop_last());
    assert(after.1.last() == stepped(front.0, events.last()).1);
    assert(messages_of(after.0.buffered) == Seq::<LogMessageView>::empty());
    assert(ingested(after.1) + Seq::<LogMessageView>::empty() == ingested(after.1));
}

/// Where a running processor that goes on with its records ends, the
/// first record that it holds gives no message, and the messages of the
/// stream are those that it has asked to be ingested before.
pub proof fn lemma_pump_ends(head: Seq<u8>, messages: Seq<LogMessageView>, buffered: Seq<u8>)
    requires
        gives(head, messages),
        pumped(buffered).1 is Finish,
    ensures
        messages_of(head + buffered) == messages,
{
    assert(messages_of(head + buffered) == messages + messages_of(buffered));
    assert(messages_of(buffered) == Seq::<LogMessageView>::empty());
    assert(messages + Seq::<LogMessageView>::empty() == messages);
}

/// Where a processor ends because a record is none or gives no message,
/// it has asked for every message before that record to be ingested, and
/// for no other.
#[verifier::rlimit(50)]
pub proof fn lemma_ends_at_first_failure(events: Seq<EventView>)
    requires
        events.len() > 0,
        !run(fresh(), events.drop_last()).0.finished,
        run(fresh(), events).1.last() matches ActionView::Finish(Err(error)) && (error is Normalize
            || error == TaskErrorView::Reader(ReaderErrorView::Protobuf)),
    ensures
        ingested(run(fresh(), events).1) == messages_of(fed(events)),
{
    let front = events.drop_last();
    lemma_ingests_in_order(front);
    let before = run(fresh(), front);
    let after = run(fresh(), events);
    let last = stepped(before.0, events.last());
    assert(after.1 == before.1.push(last.1));
    assert(after.1.drop_last() == before.1);
    assert(after.1.last() == last.1);
    assert(ingested(after.1) == ingested(before.1));
    let more = match events.last() {
        EventView::Data(more) => more,
        _ => Seq::empty(),
    };
    let bytes = fed(front);
    let head = bytes.take(bytes.len() - before.0.buffered.len());
    let buffered = before.0.buffered + more;
    assert(bytes == head + before.0.buffered);
    assert(bytes + more == head + buffered);
    assert(fed(events) == head + buffered) by {
        if !(events.last() is Data) {
            assert(before.0.buffered + Seq::<u8>::empty() == before.0.buffered);
        }
    }
    assert(last == pumped(buffered));
    lemma_pump_ends(head, ingested(before.1), buffered);
}

/// A processor that has ended stays as it is, whatever happens, and asks
/// for nothing to be ingested any more. It has ended when the stop signal
/// has come.
pub proof fn lemma_nothing_after_the_end(task: TaskView, events: Seq<EventView>)
    ensures
        stepped(task, EventView::Stop).0.finished,
        task.finished ==> run(task, events).0 == task,
        task.finished ==> ingested(run(task, events).1) == Seq::<LogMessageView>::empty(),
        task.finished ==> forall|i: int|
            0 <= i < events.len() ==> #[trigger] run(task, events).1[i] == ActionView::Finish(
                Ok(()),
            ),
        run(task, events).1.len() == events.len(),
    decreases events.len(),
{
    if events.len() > 0 {
        lemma_nothing_after_the_end(task, events.drop_last());
        let before = run(task, events.drop_last());
        let last = stepped(before.0, events.last());
        assert(before.1.push(last.1).drop_last() == before.1);
    }
}

/// The messages that a sequence of records gives, one for each record, up
/// to the first record that is none or gives no message.
pub open spec fn messages_of_records(payloads: Seq<Seq<u8>>) -> Seq<LogMessageView>
    decreases payloads.len(),
{
    if payloads.len() == 0 {
        Seq::empty()
    } else {
        match decoded_entry(payloads.first()) {
            Some(entry) => match normalized(entry) {
                Ok(message) => seq![message] + messages_of_records(payloads.drop_first()),
                Err(_) => Seq::empty(),
            },
            None => Seq::empty(),
        }
    }
}

/// The messages of a stream to which records were written one after the
/// other are the messages of those records, in their order, up to the
/// first that gives none; this holds whether the stream ends behind the
/// last record or within one more.
pub proof fn lemma_messages_of_stream(payloads: Seq<Seq<u8>>, tail: Seq<u8>)
    requires
        forall|i: int| 0 <= i < payloads.len() ==> (#[trigger] payloads[i]).len() <= u32::MAX,
        next_frame(tail) is None,
    ensures
        messages_of(stream_of(payloads) + tail) == messages_of_records(payloads),
    decreases payloads.len(),
{
    if payloads.len() == 0 {
        assert(stream_of(payloads) + tail == tail);
    } else {
        let first = payloads.first();
        let others = payloads.drop_first();
        assert(first == payloads[0]);
        assert forall|i: int| 0 <= i < others.len() implies (#[trigger] others[i]).len()
            <= u32::MAX by {
            assert(others[i] == payloads[i + 1]);
        }
        lemma_messages_of_stream(others, tail);
        lemma_framed_first(first, stream_of(others) + tail);
        assert(stream_of(payloads) + tail == framed(first) + (stream_of(others) + tail));
    }
}

/// The records that a sequence of entries is written as.
pub open spec fn records_of(entries: Seq<LogEntryView>) -> Seq<Seq<u8>> {
    Seq::new(entries.len(), |i: int| encoded_entry(entries[i]))
}

/// The messages of a sequence of entries, one for each entry, up to the
/// first entry that gives none.
pub open spec fn messages_of_entries(entries: Seq<LogEntryView>) -> Seq<LogMessageView>
    decreases entries.len(),
{
    if entries.len() == 0 {
        Seq::empty()
    } else {
        match normalized(entries.first()) {
            Ok(message) => seq![message] + messages_of_entries(entries.drop_first()),
            Err(_) => Seq::empty(),
        }
    }
}

/// The messages of the records that entries are written as are the
/// messages of the entries.
pub proof fn lemma_messages_of_entries(entries: Seq<LogEntryView>)
    requires
        forall|i: int| 0 <= i < entries.len() ==> entry_fits(#[trigger] entries[i]),
    ensures
        messages_of_records(records_of(entries)) == messages_of_entries(entries),
    decreases entries.len(),
{
    if entries.len() > 0 {
        let others = entries.drop_first();
        assert(entries.first() == entries[0]);
        assert forall|i: int| 0 <= i < others.len() implies entry_fits(#[trigger] others[i]) by {
            assert(others[i] == entries[i + 1]);
        }
        lemma_messages_of_entries(others);
        lemma_entry_round_trip(entries.first());
        assert(records_of(entries).first() == encoded_entry(entries.first()));
        assert(records_of(entries).drop_first() == records_of(others));
    }
}

/// When the engine has written entries to a stream one after the other,
/// and the stream has ended behind the last of them or within one more,
/// the messages of the stream are the messages of those entries, in their
/// order, up to the first entry that gives none. Together with what holds
/// of every run of a processor, this says what a processor ingests: those
/// messages, each once and in that order.
pub proof fn lemma_messages_of_written_entries(entries: Seq<LogEntryView>, tail: Seq<u8>)
    requires
        forall|i: int|
            0 <= i < entries.len() ==> entry_fits(#[trigger] entries[i]) && encoded_entry(
                entries[i],
            ).len() <= u32::MAX,
        next_frame(tail) is None,
    ensures
        messages_of(stream_of(records_of(entries)) + tail) == messages_of_entries(entries),
{
    lemma_messages_of_entries(entries);
    assert forall|i: int| 0 <= i < records_of(entries).len() implies (
    #[trigger] records_of(entries)[i]).len() <= u32::MAX by {
        assert(entry_fits(entries[i]));
    }
    lemma_messages_of_stream(records_of(entries), tail);
}

/// What a processor ingests of a stream to which the engine has written
/// entries one after the other: at any time the first messages of those
/// entries, each once and in their order, and no message of an entry
/// behind one that gives none; and all of them once it has asked for more
/// bytes behind the whole stream, which is when the end of the stream
/// ends the processor in success.
pub proof fn lemma_ingests_written_entries(
    events: Seq<EventView>,
    entries: Seq<LogEntryView>,
    tail: Seq<u8>,
)
    requires
        forall|i: int|
            0 <= i < entries.len() ==> entry_fits(#[trigger] entries[i]) && encoded_entry(
                entries[i],
            ).len() <= u32::MAX,
        next_frame(tail) is None,
        fed(events) == stream_of(records_of(entries)) + tail,
    ensures
        ingested(run(fresh(), events).1).is_prefix_of(messages_of_entries(entries)),
        events.len() > 0 && !run(fresh(), events).0.finished && run(fresh(), events).1.last()
            is Read ==> ingested(run(fresh(), events).1) == messages_of_entries(entries),
{
    lemma_messages_of_written_entries(entries, tail);
    lemma_ingests_in_order(events);
    if events.len() > 0 && !run(fresh(), events).0.finished && run(fresh(), events).1.last()
        is Read {
        lemma_nothing_left_out(events);
    }
}

} // verus!
