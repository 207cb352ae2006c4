//! The handlers of the two log-driver requests: starting and stopping the
//! reading of a log.

use vstd::prelude::*;

use crate::api::AppState;
use crate::config::{Config, ConfigView};
use crate::error::{default_bad_request, HttpError};
use tokio::sync::oneshot::{Receiver, Sender};

verus! {

/// What the engine tells about the container whose log is to be read.
pub struct StartLoggingInfo {
    pub container_id: String,
}

/// The body of a request to start reading a log.
pub struct StartLoggingPayload {
    /// Path of the named pipe that the engine writes the log to.
    pub file: String,
    pub info: StartLoggingInfo,
}

/// The body of a request to stop reading a log.
pub struct StopLoggingPayload {
    /// Path of the named pipe that was given when reading started.
    pub file: String,
}

/// The answer to a log-driver request, sent with status 200. An empty
/// `err` says that the request was carried out.
pub struct LogDriverResponse {
    pub err: String,
}

impl LogDriverResponse {
    /// The status code of the answer: always 200, whatever `err` says.
    pub fn status_code(&self) -> (res: u16)
        ensures
            res == 200,
    {
        200
    }
}

/// What starting a log asks the caller to run: a new processor with the
/// configuration `config` on the named pipe `file`, until `receiver` gets
/// the signal or loses its sender.
pub struct StartedTask {
    pub file: String,
    pub receiver: Receiver<bool>,
    pub config: Config,
    pub response: LogDriverResponse,
}

/// Whether what is to be run is a processor of `file` with that
/// configuration, and the answer says that the request was carried out.
pub open spec fn starts(started: StartedTask, file: Seq<char>, config: ConfigView) -> bool {
    &&& started.file@ == file
    &&& started.config@ == config
    &&& started.response.err@ == Seq::<char>::empty()
}

/// What became of a request to stop a log: the answer, and whether the
/// signal reached the processor. `delivered` is `None` where no task was
/// found, and `Some(false)` where the processor was gone already.
pub struct StoppedTask {
    pub response: LogDriverResponse,
    pub delivered: Option<bool>,
}

/// The handlers of the two log-driver requests.
pub struct LogDriver;

/// What the engine is told when it stops a log that nobody reads.
pub open spec fn no_task_found() -> Seq<char> {
    "No task found for container logging to file"@
}

/// The answer to a request to stop the log at `file`, given the paths that
/// are being read: success where `file` is one of them.
pub open spec fn stop_answer(paths: Set<Seq<char>>, file: Seq<char>) -> Seq<char> {
    if paths.contains(file) {
        Seq::empty()
    } else {
        no_task_found()
    }
}

/// What became of a request to stop a log, given what sending the signal
/// gave; `sent` is `None` where no sender was held for the path. The
/// request is answered with success whether the signal arrived or not.
pub open spec fn stop_outcome(sent: Option<Result<(), bool>>) -> (Seq<char>, Option<bool>) {
    match sent {
        Some(result) => (Seq::empty(), Some(result is Ok)),
        None => (no_task_found(), None),
    }
}

impl LogDriver {
    /// Registers `sender` for the log that `payload` names and says what
    /// to run. `payload` is `None` where the body of the request could not
    /// be read; nothing is registered then.
    pub fn register(
        state: &mut AppState,
        payload: Option<StartLoggingPayload>,
        sender: Sender<bool>,
        receiver: Receiver<bool>,
    ) -> (res: Result<StartedTask, HttpError>)
        ensures
            final(state).spec_config() == old(state).spec_config(),
            match payload {
                Some(p) => {
                    &&& final(state)@ == old(state)@.insert(p.file@, sender)
                    &&& final(state).one_each()
                    &&& res is Ok
                    &&& res->Ok_0.receiver == receiver
                    &&& starts(res->Ok_0, p.file@, old(state).spec_config()@)
                },
                None => {
                    &&& *final(state) == *old(state)
                    &&& res is Err
                    &&& res->Err_0.spec_message() == default_bad_request()
                },
            },
    {
        match payload {
            Some(p) => {
                let config = state.config().clone();
                let file = p.file.clone();
                let _previous = state.add_task_flag(p.file, sender);
                Ok(
                    StartedTask {
                        file,
                        receiver,
                        config,
                        response: LogDriverResponse { err: String::new() },
                    },
                )
            },
            None => Err(HttpError::bad_request(None)),
        }
    }

    /// Handles a request to start reading a log: makes the stop signal of
    /// the new processor, holds its sender for the path in place of any
    /// earlier one, and says what to run. The answer does not wait for the
    /// processor.
    pub fn start_logging(state: &mut AppState, payload: Option<StartLoggingPayload>) -> (res:
        Result<StartedTask, HttpError>)
        ensures
            final(state).spec_config() == old(state).spec_config(),
            match payload {
                Some(p) => {
                    &&& final(state).one_each()
                    &&& final(state)@.dom() == old(state)@.dom().insert(p.file@)
                    &&& forall|path: Seq<char>|
                        path != p.file@ && old(state)@.contains_key(path) ==> final(state)@[path]
                            == old(state)@[path]
                    &&& res is Ok
                    &&& starts(res->Ok_0, p.file@, old(state).spec_config()@)
                },
                None => {
                    &&& *final(state) == *old(state)
                    &&& res is Err
                    &&& res->Err_0.spec_message() == default_bad_request()
                },
            },
    {
        let (sender, receiver) = tokio::sync::oneshot::channel::<bool>();
        LogDriver::register(state, payload, sender, receiver)
    }

    /// Says what became of a request to stop a log, given what sending the
    /// signal gave; `sent` is `None` where no sender was held for the path.
    pub fn stopped(sent: Option<Result<(), bool>>) -> (res: StoppedTask)
        ensures
            (res.response.err@, res.delivered) == stop_outcome(sent),
    {
        match sent {
            Some(result) => StoppedTask {
                response: LogDriverResponse { err: String::new() },
                delivered: Some(result.is_ok()),
            },
            None => StoppedTask {
                response: LogDriverResponse {
                    err: "No task found for container logging to file".to_owned(),
                },
                delivered: None,
            },
        }
    }

    /// Handles a request to stop reading a log: gives up the sender that
    /// is held for the path and signals through it. That the processor is
    /// gone already is no failure. `payload` is `None` where the body of
    /// the request could not be read.
    pub fn stop_logging(state: &mut AppState, payload: Option<StopLoggingPayload>) -> (res: Result<
        StoppedTask,
        HttpError,
    >)
        ensures
            final(state).spec_config() == old(state).spec_config(),
            match payload {
                Some(p) => {
                    &&& final(state)@ == old(state)@.remove(p.file@)
                    &&& final(state).one_each()
                    &&& res is Ok
                    &&& res->Ok_0.response.err@ == stop_answer(old(state)@.dom(), p.file@)
                    &&& res->Ok_0.delivered is Some <==> old(state)@.contains_key(p.file@)
                },
                None => {
                    &&& *final(state) == *old(state)
                    &&& res is Err
                    &&& res->Err_0.spec_message() == default_bad_request()
                },
            },
    {
        match payload {
            Some(p) => {
                let sent = match state.take_task_flag(p.file.as_str()) {
                    Some(flag) => Some(flag.send(true)),
                    None => None,
                };
                Ok(LogDriver::stopped(sent))
            },
            None => Err(HttpError::bad_request(None)),
        }
    }
}

/// Stopping a log that nobody reads changes nothing and is answered with
/// the words that say so, the first time and every time after it.
pub proof fn lemma_stop_without_task(senders: Map<Seq<char>, Sender<bool>>, file: Seq<char>)
    requires
        !senders.contains_key(file),
    ensures
        senders.remove(file) == senders,
        stop_answer(senders.dom(), file) == no_task_found(),
        stop_answer(senders.remove(file).dom(), file) == no_task_found(),
{
    assert(senders.remove(file) =~= senders);
}

/// After a log has been stopped nobody reads it: a second request to stop
/// it finds no task, and changes nothing.
pub proof fn lemma_stop_twice(senders: Map<Seq<char>, Sender<bool>>, file: Seq<char>)
    ensures
        !senders.remove(file).contains_key(file),
        senders.remove(file).remove(file) == senders.remove(file),
        stop_answer(senders.remove(file).dom(), file) == no_task_found(),
{
    assert(senders.remove(file).remove(file) =~= senders.remove(file));
}

/// After a log has been started twice, one sender is held for its path:
/// that of the second start. The sender of the first start is handed back
/// when the second is registered, and is dropped there, which ends the
/// first processor.
pub proof fn lemma_start_twice(
    senders: Map<Seq<char>, Sender<bool>>,
    file: Seq<char>,
    first: Sender<bool>,
    second: Sender<bool>,
)
    ensures
        senders.insert(file, first).contains_key(file),
        senders.insert(file, first)[file] == first,
        senders.insert(file, first).insert(file, second) == senders.insert(file, second),
        senders.insert(file, first).insert(file, second)[file] == second,
        senders.insert(file, first).insert(file, second).dom() == senders.dom().insert(file),
{
    assert(senders.insert(file, first).insert(file, second) =~= senders.insert(file, second));
    assert(senders.insert(file, first).insert(file, second).dom() =~= senders.dom().insert(file));
}

/// A log that has been started and then stopped leaves the senders as
/// they were without it, and the request to stop it is answered with
/// success.
pub proof fn lemma_start_then_stop(
    senders: Map<Seq<char>, Sender<bool>>,
    file: Seq<char>,
    sender: Sender<bool>,
)
    ensures
        senders.insert(file, sender).remove(file) == senders.remove(file),
        stop_answer(senders.insert(file, sender).dom(), file) == Seq::<char>::empty(),
        !senders.contains_key(file) ==> senders.insert(file, sender).remove(file) == senders,
{
    assert(senders.insert(file, sender).remove(file) =~= senders.remove(file));
    if !senders.contains_key(file) {
        assert(senders.remove(file) =~= senders);
    }
}

} // verus!
