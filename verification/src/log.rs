//! Log messages, and how the entry of a log becomes one.

use vstd::prelude::*;
use vstd::utf8::*;

use crate::json::{
    empty_object, into_object, json_object, json_parse, json_text, no_members,
    object_get, object_insert, object_remove, optional_model, parse_value, JsonModel,
};
use crate::protobuf::{LogEntry, LogEntryView};
use crate::text::string_from_utf8;

verus! {

/// The level of a message whose line names none.
pub const DEFAULT_LEVEL: i32 = 3;

/// The first millisecond that an instant can hold, counted from the Unix
/// epoch: the start of the year -262143.
pub const MIN_TIMESTAMP_MILLIS: i64 = -8_334_601_228_800_000;

/// The last millisecond that an instant can hold, counted from the Unix
/// epoch: the end of the year 262142.
pub const MAX_TIMESTAMP_MILLIS: i64 = 8_210_266_876_799_999;

/// Whether a number of milliseconds since the Unix epoch is an instant.
pub open spec fn timestamp_in_range(millis: i64) -> bool {
    MIN_TIMESTAMP_MILLIS <= millis <= MAX_TIMESTAMP_MILLIS
}

/// `chrono::DateTime::<Utc>::from_timestamp_millis`, asked whether it makes
/// an instant of `millis`: it does of every number of milliseconds from the
/// first day of chrono's least year to the last day of its greatest.
#[verifier::external_body]
fn is_instant(millis: i64) -> (res: bool)
    ensures
        res == timestamp_in_range(millis),
{
    chrono::DateTime::<chrono::Utc>::from_timestamp_millis(millis).is_some()
}

/// Why an entry is no log message.
#[derive(Debug, Clone, Copy, PartialEq, Eq, Structural)]
pub enum NormalizeError {
    /// The time of the entry is out of the range of instants.
    InvalidTimestamp,
    /// The line is a JSON document and not an object.
    UnexpectedFormat,
    /// The line is a JSON object whose `level` is no integer.
    InvalidLevel,
    /// The line is neither a JSON document nor UTF-8 text.
    InvalidUtf8,
}

impl NormalizeError {
    /// The words that describe the error.
    pub open spec fn spec_message(self) -> Seq<char> {
        match self {
            NormalizeError::InvalidTimestamp => "Invalid timestamp"@,
            NormalizeError::UnexpectedFormat => "Invalid or unexpected format"@,
            NormalizeError::InvalidLevel => "Invalid level"@,
            NormalizeError::InvalidUtf8 => "Invalid UTF-8"@,
        }
    }

    /// The words that describe the error.
    pub fn message(self) -> (res: &'static str)
        ensures
            res@ == self.spec_message(),
    {
        match self {
            NormalizeError::InvalidTimestamp => "Invalid timestamp",
            NormalizeError::UnexpectedFormat => "Invalid or unexpected format",
            NormalizeError::InvalidLevel => "Invalid level",
            NormalizeError::InvalidUtf8 => "Invalid UTF-8",
        }
    }
}

/// A log record as the ingest endpoint takes it.
#[derive(Debug, Clone)]
pub struct LogMessage {
    /// Milliseconds since the Unix epoch, UTC.
    pub timestamp: i64,
    pub message: String,
    pub level: i32,
    /// A JSON object, or nothing.
    pub context: Option<serde_json::Value>,
}

/// The mathematical content of a [`LogMessage`].
pub ghost struct LogMessageView {
    pub timestamp: i64,
    pub message: Seq<char>,
    pub level: i32,
    pub context: Option<JsonModel>,
}

impl View for LogMessage {
    type V = LogMessageView;

    open spec fn view(&self) -> LogMessageView {
        LogMessageView {
            timestamp: self.timestamp,
            message: self.message@,
            level: self.level,
            context: optional_model(self.context),
        }
    }
}

/// The message of a JSON line: the string under `message`, or the empty
/// string where there is none.
pub open spec fn message_of(members: Map<Seq<char>, JsonModel>) -> Seq<char> {
    if members.contains_key("message"@) {
        match members["message"@].as_text() {
            Some(text) => text,
            None => Seq::empty(),
        }
    } else {
        Seq::empty()
    }
}

/// The level of a JSON line: the integer under `level`, cut to 32 bits, or
/// the default where the line has no such member. There is none where the
/// member is no integer.
pub open spec fn level_of(members: Map<Seq<char>, JsonModel>) -> Option<i32> {
    if members.contains_key("level"@) {
        match members["level"@].as_i64() {
            Some(level) => Some(level as i32),
            None => None,
        }
    } else {
        Some(DEFAULT_LEVEL)
    }
}

/// The context of a JSON line: its members but for `message` and `level`,
/// and the source of the entry under `source`.
pub open spec fn context_of(members: Map<Seq<char>, JsonModel>, source: Seq<char>) -> Map<
    Seq<char>,
    JsonModel,
> {
    members.remove("message"@).remove("level"@).insert("source"@, JsonModel::Text(source))
}

/// The context of a line of plain text: the source of the entry under
/// `source`, and nothing else.
pub open spec fn source_only(source: Seq<char>) -> Map<Seq<char>, JsonModel> {
    no_members().insert("source"@, JsonModel::Text(source))
}

/// The log message of an entry whose line reads as `parsed`, or the reason
/// why there is none.
pub open spec fn normalized_with(entry: LogEntryView, parsed: Option<JsonModel>) -> Result<
    LogMessageView,
    NormalizeError,
> {
    if !timestamp_in_range(entry.time_nano) {
        Err(NormalizeError::InvalidTimestamp)
    } else {
        match parsed {
            Some(JsonModel::Object(members)) => match level_of(members) {
                Some(level) => Ok(
                    LogMessageView {
                        timestamp: entry.time_nano,
                        message: message_of(members),
                        level,
                        context: Some(JsonModel::Object(context_of(members, entry.source))),
                    },
                ),
                None => Err(NormalizeError::InvalidLevel),
            },
            Some(_) => Err(NormalizeError::UnexpectedFormat),
            None => if valid_utf8(entry.line) {
                Ok(
                    LogMessageView {
                        timestamp: entry.time_nano,
                        message: decode_utf8(entry.line),
                        level: DEFAULT_LEVEL,
                        context: Some(JsonModel::Object(source_only(entry.source))),
                    },
                )
            } else {
                Err(NormalizeError::InvalidUtf8)
            },
        }
    }
}

/// The log message of an entry, or the reason why there is none.
pub open spec fn normalized(entry: LogEntryView) -> Result<LogMessageView, NormalizeError> {
    normalized_with(entry, json_parse(entry.line))
}

/// The mathematical content of what normalizing gives.
pub open spec fn outcome_view(outcome: Result<LogMessage, NormalizeError>) -> Result<
    LogMessageView,
    NormalizeError,
> {
    match outcome {
        Ok(message) => Ok(message@),
        Err(error) => Err(error),
    }
}

impl LogMessage {
    /// Makes the log message of an entry whose line has been read as JSON
    /// already; `parsed` is `None` where the line is no JSON document.
    pub fn from_parsed(entry: LogEntry, parsed: Option<serde_json::Value>) -> (res: Result<
        LogMessage,
        NormalizeError,
    >)
        ensures
            outcome_view(res) == normalized_with(entry@, optional_model(parsed)),
    {
        if !is_instant(entry.time_nano) {
            return Err(NormalizeError::InvalidTimestamp);
        }
        match parsed {
            Some(value) => match into_object(value) {
                Some(object) => {
                    let mut object = object;
                    let message = match object_get(&object, "message") {
                        Some(found) => match found.as_str() {
                            Some(text) => text.to_owned(),
                            None => String::new(),
                        },
                        None => String::new(),
                    };
                    let level = match object_get(&object, "level") {
                        Some(found) => match found.as_i64() {
                            Some(level) => {
                                #[verifier::truncate]
                                (level as i32)
                            },
                            None => {
                                return Err(NormalizeError::InvalidLevel);
                            },
                        },
                        None => DEFAULT_LEVEL,
                    };
                    object_remove(&mut object, "message");
                    object_remove(&mut object, "level");
                    object_insert(&mut object, "source".to_owned(), json_text(entry.source));
                    Ok(
                        LogMessage {
                            timestamp: entry.time_nano,
                            message,
                            level,
                            context: Some(json_object(object)),
                        },
                    )
                },
                None => Err(NormalizeError::UnexpectedFormat),
            },
            None => {
                let mut object = empty_object();
                match string_from_utf8(entry.line) {
                    Some(message) => {
                        object_insert(&mut object, "source".to_owned(), json_text(entry.source));
                        Ok(
                            LogMessage {
                                timestamp: entry.time_nano,
                                message,
                                level: DEFAULT_LEVEL,
                                context: Some(json_object(object)),
                            },
                        )
                    },
                    None => Err(NormalizeError::InvalidUtf8),
                }
            },
        }
    }

    /// Makes the log message of an entry. The line is read as a JSON
    /// object where it is one, and as plain text where it is no JSON.
    pub fn try_from(entry: LogEntry) -> (res: Result<LogMessage, NormalizeError>)
        ensures
            outcome_view(res) == normalized(entry@),
    {
        let parsed = parse_value(entry.line.as_slice());
        LogMessage::from_parsed(entry, parsed)
    }
}

/// The message of an entry has the time of the entry, counted in
/// milliseconds from the Unix epoch, and holds the source of the entry in
/// its context under `source`, whatever the line says.
pub proof fn lemma_keeps_time_and_source(entry: LogEntryView, parsed: Option<JsonModel>)
    ensures
        normalized_with(entry, parsed) matches Ok(message) ==> {
            &&& message.timestamp == entry.time_nano
            &&& timestamp_in_range(message.timestamp)
            &&& message.context matches Some(JsonModel::Object(members))
            &&& members.contains_key("source"@)
            &&& members["source"@] == JsonModel::Text(entry.source)
        },
{
}

/// The members of a JSON line other than `message`, `level` and `source`
/// are in the context of its message as they are in the line, and
/// `message` and `level` are not.
pub proof fn lemma_keeps_other_members(entry: LogEntryView, members: Map<Seq<char>, JsonModel>)
    ensures
        normalized_with(entry, Some(JsonModel::Object(members))) matches Ok(message) ==> {
            &&& message.context matches Some(JsonModel::Object(context))
            &&& !context.contains_key("message"@)
            &&& !context.contains_key("level"@)
            &&& forall|key: Seq<char>|
                key != "message"@ && key != "level"@ && key != "source"@ ==> (
                #[trigger] context.contains_key(key) <==> members.contains_key(key)) && (
                members.contains_key(key) ==> context[key] == members[key])
        },
{
    reveal_strlit("message");
    reveal_strlit("level");
    reveal_strlit("source");
    assert("message"@ != "source"@) by {
        assert("message"@.len() == 7);
        assert("source"@.len() == 6);
    }
    assert("level"@ != "source"@) by {
        assert("level"@.len() == 5);
        assert("source"@.len() == 6);
    }
}

/// A line that is a JSON document and no object gives no message.
pub proof fn lemma_refuses_other_documents(entry: LogEntryView, document: JsonModel)
    requires
        !(document is Object),
    ensures
        normalized_with(entry, Some(document)) is Err,
        timestamp_in_range(entry.time_nano) ==> normalized_with(entry, Some(document)) == Err::<
            LogMessageView,
            NormalizeError,
        >(NormalizeError::UnexpectedFormat),
{
}

/// A line that is a JSON object whose `level` is no integer, or none that
/// fits 64 bits, gives no message.
pub proof fn lemma_refuses_other_levels(entry: LogEntryView, members: Map<Seq<char>, JsonModel>)
    requires
        members.contains_key("level"@),
        members["level"@].as_i64() is None,
    ensures
        normalized_with(entry, Some(JsonModel::Object(members))) is Err,
        timestamp_in_range(entry.time_nano) ==> normalized_with(
            entry,
            Some(JsonModel::Object(members)),
        ) == Err::<LogMessageView, NormalizeError>(NormalizeError::InvalidLevel),
{
}

/// A line that is a JSON object without `message` gives the empty message,
/// and one without `level` gives the default level.
pub proof fn lemma_defaults(entry: LogEntryView, members: Map<Seq<char>, JsonModel>)
    requires
        timestamp_in_range(entry.time_nano),
    ensures
        !members.contains_key("message"@) && !members.contains_key("level"@) ==> {
            &&& normalized_with(entry, Some(JsonModel::Object(members))) matches Ok(message)
            &&& message.message == Seq::<char>::empty()
            &&& message.level == 3
        },
        !members.contains_key("message"@) ==> (normalized_with(
            entry,
            Some(JsonModel::Object(members)),
        ) matches Ok(message) ==> message.message == Seq::<char>::empty()),
        !members.contains_key("level"@) ==> (normalized_with(
            entry,
            Some(JsonModel::Object(members)),
        ) matches Ok(message) && message.level == 3),
{
}

} // verus!
