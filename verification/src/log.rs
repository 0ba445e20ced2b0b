//! Runtime operation log: timestamped log lines and the requests that the serialized
//! log writer handles.
use vstd::prelude::*;
use std::time::Duration;
use std::time::SystemTime;
use std::sync::mpsc::Receiver;
use std::sync::mpsc::Sender;

use crate::calendar::civil_date;
use crate::calendar::days_from_civil;
use crate::calendar::lemma_days_from_civil_ordered;
use crate::calendar::civil_from_days;
use crate::calendar::lemma_civil_date_valid;
use crate::calendar::lemma_civil_year_range;
use crate::text::decimal;
use crate::text::lemma_zero_padded_len;
use crate::text::lemma_zero_padded_value;
use crate::text::lemma_concat_cancel;
use crate::text::differs_first_at;
use crate::text::text_precedes;
use crate::text::lemma_zero_padded_order;
use crate::text::lemma_differs_first_at_append;
use crate::text::lemma_differs_first_at_prepend;
use crate::text::lemma_differs_first_at_precedes;
use crate::text::lemma_precedes_append;
use crate::text::pow10;
use crate::text::push_decimal;
use crate::text::push_signed_zero_padded;
use crate::text::push_zero_padded;
use crate::text::signed_zero_padded;
use crate::text::zero_padded;

mod exchange;
pub use exchange::Exchange;
use exchange::exchange;

verus! {

/// `std::time::SystemTime`, carried through opaquely.
#[verifier::external_type_specification]
#[verifier::external_body]
pub struct ExSystemTime(std::time::SystemTime);

/// The bracketed UTC timestamp for the given calendar fields, as
/// `[YYYY-MM-DDThh:mm:ss.uuuuuuZ]`.
pub open spec fn timestamp_fields_text(
    year: int,
    month: nat,
    day: nat,
    hour: nat,
    minute: nat,
    second: nat,
    micros: nat,
) -> Seq<char> {
    seq!['['] + signed_zero_padded(year, 4) + seq!['-'] + zero_padded(month, 2) + seq!['-']
        + zero_padded(day, 2) + seq!['T'] + zero_padded(hour, 2) + seq![':'] + zero_padded(
        minute,
        2,
    ) + seq![':'] + zero_padded(second, 2) + seq!['.'] + zero_padded(micros, 6) + seq!['Z', ']']
}

/// The timestamp text for `seconds` whole seconds and `micros` microseconds after
/// 1970-01-01T00:00:00Z; the year is written as its `i32` truncation.
pub open spec fn timestamp_text(seconds: nat, micros: nat) -> Seq<char> {
    let date = civil_date((seconds / 86400) as int);
    let second_of_day = seconds % 86400;
    timestamp_fields_text(
        (date.0 as i32) as int,
        date.1 as nat,
        date.2 as nat,
        second_of_day / 3600,
        (second_of_day % 3600) / 60,
        second_of_day % 60,
        micros,
    )
}

/// A log line: the timestamp, ` id=`, the event id in decimal, a space, and the body.
pub open spec fn log_line_text(timestamp: Seq<char>, id: nat, body: Seq<char>) -> Seq<char> {
    timestamp + seq![' ', 'i', 'd', '='] + decimal(id) + seq![' '] + body
}

/// Calls `SystemTime::now`; nothing is promised of the clock's reading.
#[verifier::external_body]
fn system_time_now() -> SystemTime {
    SystemTime::now()
}

/// The time elapsed from the Unix epoch to `time`, as `SystemTime::duration_since(UNIX_EPOCH)`
/// gives it; `None` where `time` lies before the epoch.
pub uninterp spec fn since_unix_epoch(time: SystemTime) -> Option<Duration>;

/// The whole seconds of `duration`, as `Duration::as_secs` gives them.
pub uninterp spec fn whole_seconds(duration: Duration) -> u64;

/// The fractional part of `duration` in whole microseconds, as `Duration::subsec_micros`
/// gives it.
pub uninterp spec fn fractional_micros(duration: Duration) -> u32;

/// Calls `SystemTime::duration_since(UNIX_EPOCH)`, with `None` where `time` lies before the
/// epoch (the call's error). The result is a function of `time` alone, named by
/// `since_unix_epoch`; nothing more is promised of the duration.
#[verifier::external_body]
fn duration_since_unix_epoch(time: &SystemTime) -> (since: Option<Duration>)
    ensures
        since == since_unix_epoch(*time),
{
    match time.duration_since(std::time::UNIX_EPOCH) {
        Ok(duration) => Some(duration),
        Err(_) => None,
    }
}

/// Calls `Duration::as_secs`: the whole seconds of the duration, named by `whole_seconds`.
#[verifier::external_body]
fn duration_whole_seconds(duration: &Duration) -> (seconds: u64)
    ensures
        seconds == whole_seconds(*duration),
{
    duration.as_secs()
}

/// Calls `Duration::subsec_micros`, which std documents as the fractional part of a second
/// in microseconds, always below one million; named by `fractional_micros`.
#[verifier::external_body]
fn duration_subsec_micros(duration: &Duration) -> (micros: u32)
    ensures
        micros == fractional_micros(*duration),
        micros < 1_000_000,
{
    duration.subsec_micros()
}

/// Whole seconds and microseconds of `time` after the Unix epoch; a time before the epoch
/// counts as the epoch itself.
pub open spec fn unix_parts(time: SystemTime) -> (u64, u32) {
    match since_unix_epoch(time) {
        Some(duration) => (whole_seconds(duration), fractional_micros(duration)),
        None => (0, 0),
    }
}

/// Whole seconds and microseconds of `time` after the Unix epoch; a time before the epoch
/// counts as the epoch itself.
fn unix_seconds_and_micros(time: &SystemTime) -> (parts: (u64, u32))
    ensures
        parts == unix_parts(*time),
        parts.1 < 1_000_000,
{
    match duration_since_unix_epoch(time) {
        Some(duration) => (duration_whole_seconds(&duration), duration_subsec_micros(&duration)),
        None => (0, 0),
    }
}

/// Formats `seconds` and `micros` after the Unix epoch as a bracketed UTC timestamp with
/// microsecond precision.
pub fn format_epoch_timestamp(seconds: u64, micros: u32) -> (text: String)
    ensures
        text@ == timestamp_text(seconds as nat, micros as nat),
{
    let days = seconds / 86_400;
    let second_of_day = seconds % 86_400;
    let (year, month, day) = civil_from_days(days as i64);
    let hour = second_of_day / 3_600;
    let minute = (second_of_day % 3_600) / 60;
    let second = second_of_day % 60;
    proof {
        lemma_civil_date_valid(days as int);
        reveal_strlit("[");
        reveal_strlit("-");
        reveal_strlit("T");
        reveal_strlit(":");
        reveal_strlit(".");
        reveal_strlit("Z]");
    }
    let mut out = String::new();
    out.append("[");
    push_signed_zero_padded(&mut out, year as i64, 4);
    out.append("-");
    push_zero_padded(&mut out, month as u64, 2);
    out.append("-");
    push_zero_padded(&mut out, day as u64, 2);
    out.append("T");
    push_zero_padded(&mut out, hour, 2);
    out.append(":");
    push_zero_padded(&mut out, minute, 2);
    out.append(":");
    push_zero_padded(&mut out, second, 2);
    out.append(".");
    push_zero_padded(&mut out, micros as u64, 6);
    out.append("Z]");
    assert(out@ =~= timestamp_text(seconds as nat, micros as nat));
    out
}

/// Formats `time` as a bracketed UTC timestamp with microsecond precision; a time before the
/// Unix epoch is written as the epoch.
pub fn format_timestamp(time: SystemTime) -> (text: String)
    ensures
        text@ == timestamp_text(unix_parts(time).0 as nat, unix_parts(time).1 as nat),
{
    let (seconds, micros) = unix_seconds_and_micros(&time);
    format_epoch_timestamp(seconds, micros)
}

/// The log line for event `id` with text `body`, stamped with the given time after the
/// Unix epoch.
pub fn format_log_entry(seconds: u64, micros: u32, id: u64, body: &str) -> (line: String)
    ensures
        line@ == log_line_text(timestamp_text(seconds as nat, micros as nat), id as nat, body@),
{
    let mut out = format_epoch_timestamp(seconds, micros);
    proof {
        reveal_strlit(" id=");
        reveal_strlit(" ");
    }
    out.append(" id=");
    push_decimal(&mut out, id);
    out.append(" ");
    out.append(body);
    assert(out@ =~= log_line_text(timestamp_text(seconds as nat, micros as nat), id as nat, body@));
    out
}

/// The log line for event `id` with text `body`, stamped with the time that the clock reads
/// during the call.
pub open spec fn log_line_at(now: SystemTime, id: nat, body: Seq<char>) -> Seq<char> {
    log_line_text(timestamp_text(unix_parts(now).0 as nat, unix_parts(now).1 as nat), id, body)
}

/// The log line for event `id` with text `body`, stamped with the current time: the line is
/// `log_line_at` a reading of the clock, whole seconds and microseconds after the epoch as
/// that reading gives them.
pub fn format_log_line(id: u64, body: &str) -> (line: String)
    ensures
        exists|seconds: u64, micros: u32|
            micros < 1_000_000 && line@ == log_line_text(
                timestamp_text(seconds as nat, micros as nat),
                id as nat,
                body@,
            ),
        exists|now: SystemTime| line@ == log_line_at(now, id as nat, body@),
{
    let now = system_time_now();
    let (seconds, micros) = unix_seconds_and_micros(&now);
    let line = format_log_entry(seconds, micros, id, body);
    assert(line@ == log_line_at(now, id as nat, body@));
    line
}

/// `std::sync::mpsc::Sender`, carried through opaquely.
#[verifier::external_type_specification]
#[verifier::external_body]
#[verifier::reject_recursive_types(T)]
pub struct ExSender<T>(std::sync::mpsc::Sender<T>);

/// `std::sync::mpsc::Receiver`, carried through opaquely.
#[verifier::external_type_specification]
#[verifier::external_body]
#[verifier::reject_recursive_types(T)]
pub struct ExReceiver<T>(std::sync::mpsc::Receiver<T>);

/// `Sender::clone` gives another sender on the same channel; nothing is promised of it.
pub assume_specification<T>[ <std::sync::mpsc::Sender<T> as Clone>::clone ](
    sender: &std::sync::mpsc::Sender<T>,
) -> std::sync::mpsc::Sender<T>;

/// Calls `std::sync::mpsc::channel`.
#[verifier::external_body]
fn open_channel<T>() -> (Sender<T>, Receiver<T>) {
    std::sync::mpsc::channel()
}

/// Calls `Sender::send`: `false` where the receiving side is gone. Whether it is gone
/// depends on another thread, so nothing is promised.
#[verifier::external_body]
fn send_value<T>(sender: &Sender<T>, value: T) -> bool {
    match sender.send(value) {
        Ok(()) => true,
        Err(_) => false,
    }
}

/// Calls `Receiver::recv`: `None` where every sender is gone. What arrives depends on
/// another thread, so nothing is promised.
#[verifier::external_body]
fn receive_value<T>(receiver: &Receiver<T>) -> Option<T> {
    match receiver.recv() {
        Ok(value) => Some(value),
        Err(_) => None,
    }
}

/// Why a log operation failed.
#[derive(Debug, Clone, PartialEq, Eq)]
pub enum LogError {
    /// The log writer no longer takes requests.
    Stopped,
    /// The file operation failed with this message.
    Io(String),
}

/// The message of a log error.
pub open spec fn log_error_text(error: LogError) -> Seq<char> {
    match error {
        LogError::Stopped => "log writer stopped"@,
        LogError::Io(message) => message@,
    }
}

impl LogError {
    /// The error's message.
    pub fn message(&self) -> (text: String)
        ensures
            text@ == log_error_text(*self),
    {
        match self {
            LogError::Stopped => String::from_str("log writer stopped"),
            LogError::Io(message) => message.clone(),
        }
    }
}

/// How a file operation of the log writer failed.
#[derive(Debug, Clone, PartialEq, Eq)]
pub enum FileError {
    /// There is no such file; the message says so.
    NotFound(String),
    /// Any other failure, with its message.
    Other(String),
}

/// The message of a file error.
pub open spec fn file_error_text(error: FileError) -> Seq<char> {
    match error {
        FileError::NotFound(message) => message@,
        FileError::Other(message) => message@,
    }
}

/// The log error that a failed file operation is reported as.
pub fn file_failure(error: FileError) -> (failure: LogError)
    ensures
        failure matches LogError::Io(message) && message@ == file_error_text(error),
{
    match error {
        FileError::NotFound(message) => LogError::Io(message),
        FileError::Other(message) => LogError::Io(message),
    }
}

/// The reply to a removal: removing a log that does not exist succeeds.
pub fn removal_result(outcome: Result<(), FileError>) -> (reply: Result<(), LogError>)
    ensures
        match outcome {
            Ok(()) => reply is Ok,
            Err(FileError::NotFound(_)) => reply is Ok,
            Err(FileError::Other(message)) => reply matches Err(LogError::Io(m)) && m@ == message@,
        },
{
    match outcome {
        Ok(()) => Ok(()),
        Err(FileError::NotFound(_)) => Ok(()),
        Err(FileError::Other(message)) => Err(LogError::Io(message)),
    }
}

/// The result of reading a log: a log that does not exist reads as empty.
pub fn read_result(outcome: Result<String, FileError>) -> (text: Result<String, LogError>)
    ensures
        match outcome {
            Ok(data) => text matches Ok(t) && t@ == data@,
            Err(FileError::NotFound(_)) => text matches Ok(t) && t@ == Seq::<char>::empty(),
            Err(FileError::Other(message)) => text matches Err(LogError::Io(m)) && m@ == message@,
        },
{
    match outcome {
        Ok(data) => Ok(data),
        Err(FileError::NotFound(_)) => Ok(String::new()),
        Err(FileError::Other(message)) => Err(LogError::Io(message)),
    }
}

/// A request to the log writer.
#[derive(Debug, Clone)]
pub enum LogCommand {
    /// Empty the log at `path`, creating it and its parent directories.
    Reset { path: String },
    /// Append `line` to the log at `path`, creating it and its parent directories.
    Append { path: String, line: String },
    /// Delete the log at `path`; a missing log counts as deleted.
    Remove { path: String },
    /// Stop the writer after replying.
    Shutdown,
}

/// A command together with the channel on which the writer replies to it.
#[derive(Debug)]
pub struct LogRequest {
    pub command: LogCommand,
    pub reply: Sender<Result<(), LogError>>,
}

/// What the writer does for one command.
#[derive(Debug, Clone)]
pub enum WriterAction {
    /// Write the empty log at `path`.
    TruncateFile { path: String },
    /// Append `text` to the log at `path`.
    AppendToFile { path: String, text: String },
    /// Delete the log at `path`.
    DeleteFile { path: String },
    /// Reply and stop taking requests.
    Stop,
}

/// The text that appending `line` adds to a log: the line and a newline.
pub open spec fn log_record(line: Seq<char>) -> Seq<char> {
    line.push('\n')
}

/// What reading a log gives: its content, or nothing where there is no log file.
pub open spec fn log_text(content: Option<Seq<char>>) -> Seq<char> {
    match content {
        Some(text) => text,
        None => Seq::empty(),
    }
}

/// The content of the log a command is about, after the writer has handled the command,
/// given the content before (`None` where there is no log file).
pub open spec fn command_effect(content: Option<Seq<char>>, command: LogCommand) -> Option<
    Seq<char>,
> {
    match command {
        LogCommand::Reset { .. } => Some(Seq::empty()),
        LogCommand::Append { line, .. } => Some(log_text(content) + log_record(line@)),
        LogCommand::Remove { .. } => None,
        LogCommand::Shutdown => content,
    }
}

/// The content after an action, given the content before.
pub open spec fn action_effect(content: Option<Seq<char>>, action: WriterAction) -> Option<
    Seq<char>,
> {
    match action {
        WriterAction::TruncateFile { .. } => Some(Seq::empty()),
        WriterAction::AppendToFile { text, .. } => Some(log_text(content) + text@),
        WriterAction::DeleteFile { .. } => None,
        WriterAction::Stop => content,
    }
}

/// The path a command is about.
pub open spec fn command_path(command: LogCommand) -> Option<Seq<char>> {
    match command {
        LogCommand::Reset { path } => Some(path@),
        LogCommand::Append { path, .. } => Some(path@),
        LogCommand::Remove { path } => Some(path@),
        LogCommand::Shutdown => None,
    }
}

/// The path an action is about.
pub open spec fn action_path(action: WriterAction) -> Option<Seq<char>> {
    match action {
        WriterAction::TruncateFile { path } => Some(path@),
        WriterAction::AppendToFile { path, .. } => Some(path@),
        WriterAction::DeleteFile { path } => Some(path@),
        WriterAction::Stop => None,
    }
}

/// Decides what the log writer does for `command`: one file operation on the command's
/// path, or stopping for a shutdown.
pub fn writer_step(command: LogCommand) -> (action: WriterAction)
    ensures
        action_path(action) == command_path(command),
        (action is Stop) <==> (command is Shutdown),
        forall|content: Option<Seq<char>>|
            #[trigger] action_effect(content, action) == command_effect(content, command),
{
    match command {
        LogCommand::Reset { path } => WriterAction::TruncateFile { path },
        LogCommand::Append { path, line } => {
            let mut text = line.clone();
            proof {
                reveal_strlit("\n");
            }
            text.append("\n");
            WriterAction::AppendToFile { path, text }
        },
        LogCommand::Remove { path } => WriterAction::DeleteFile { path },
        LogCommand::Shutdown => WriterAction::Stop,
    }
}

/// A cloneable handle through which requests reach the serialized log writer.
#[derive(Debug, Clone)]
pub struct LogWriterHandle {
    sender: Sender<LogRequest>,
}

impl LogWriterHandle {
    /// A handle that sends its requests on `sender`.
    pub fn new(sender: Sender<LogRequest>) -> (handle: Self)
        ensures
            handle.sender() == sender,
    {
        LogWriterHandle { sender }
    }

    /// The channel that the handle sends its requests on.
    pub closed spec fn sender(&self) -> Sender<LogRequest> {
        self.sender
    }

    /// Empties the log at `path`, creating it where needed: hands `reset_command(path)` to
    /// the writer and gives back its reply (`Stopped` where the writer is gone), with the
    /// exchange as it went.
    pub fn reset(&self, path: &str) -> (out: (Result<(), LogError>, Ghost<Exchange>))
        ensures
            out.1@.command() matches LogCommand::Reset { path: p } && p@ == path@,
            handled(out.1@, out.0),
    {
        self.request(reset_command(path))
    }

    /// Appends `line` and a newline to the log at `path`: hands `append_command(path, line)`
    /// to the writer and gives back its reply (`Stopped` where the writer is gone), with the
    /// exchange as it went.
    pub fn append(&self, path: &str, line: &str) -> (out: (Result<(), LogError>, Ghost<Exchange>))
        ensures
            out.1@.command() matches LogCommand::Append { path: p, line: l } && p@ == path@ && l@
                == line@,
            handled(out.1@, out.0),
    {
        self.request(append_command(path, line))
    }

    /// Deletes the log at `path`: hands `remove_command(path)` to the writer and gives back
    /// its reply (`Stopped` where the writer is gone), with the exchange as it went.
    pub fn remove(&self, path: &str) -> (out: (Result<(), LogError>, Ghost<Exchange>))
        ensures
            out.1@.command() matches LogCommand::Remove { path: p } && p@ == path@,
            handled(out.1@, out.0),
    {
        self.request(remove_command(path))
    }

    /// Asks the writer to stop: hands it `LogCommand::Shutdown` and gives back its reply
    /// (`Stopped` where the writer is gone), with the exchange as it went.
    pub fn shutdown(&self) -> (out: (Result<(), LogError>, Ghost<Exchange>))
        ensures
            out.1@.command() is Shutdown,
            handled(out.1@, out.0),
    {
        self.request(LogCommand::Shutdown)
    }

    /// Sends `command` to the writer with a fresh reply channel and waits for the reply on
    /// it; the reply is `reply_for` whether the request was sent and what came back.
    fn request(&self, command: LogCommand) -> (out: (Result<(), LogError>, Ghost<Exchange>))
        ensures
            out.1@.command() == command,
            handled(out.1@, out.0),
    {
        exchange(&self.sender, command)
    }
}

/// The reply a handle gives: `Stopped` where the request could not be sent or no reply came
/// back (the writer is gone), else the writer's own reply.
pub open spec fn reply_for(sent: bool, received: Option<Result<(), LogError>>) -> Result<
    (),
    LogError,
> {
    if !sent {
        Err(LogError::Stopped)
    } else {
        match received {
            Some(outcome) => outcome,
            None => Err(LogError::Stopped),
        }
    }
}

/// `reply` is what a handle gives back for `exchange`: nothing comes back for a request that
/// was not sent, and the reply is `reply_for` the exchange.
pub open spec fn handled(exchange: Exchange, reply: Result<(), LogError>) -> bool {
    &&& exchange.sent() || exchange.received() is None
    &&& reply == reply_for(exchange.sent(), exchange.received())
}

/// The writer took the exchange's command and acknowledged it as done.
pub open spec fn acknowledged(exchange: Exchange) -> bool {
    exchange.sent() && exchange.received() matches Some(Ok(_))
}

/// A handle's reply is `Ok` exactly when the writer took the command and acknowledged it; a
/// request that could not be sent is answered `Stopped`.
pub proof fn lemma_reply_ok_iff_acknowledged(exchange: Exchange, reply: Result<(), LogError>)
    requires
        handled(exchange, reply),
    ensures
        reply is Ok <==> acknowledged(exchange),
        !exchange.sent() ==> reply == Err::<(), LogError>(LogError::Stopped),
{
}

/// The command that empties the log at `path`.
pub fn reset_command(path: &str) -> (command: LogCommand)
    ensures
        command matches LogCommand::Reset { path: p } && p@ == path@,
{
    LogCommand::Reset { path: String::from_str(path) }
}

/// The command that appends `line` to the log at `path`.
pub fn append_command(path: &str, line: &str) -> (command: LogCommand)
    ensures
        command matches LogCommand::Append { path: p, line: l } && p@ == path@ && l@ == line@,
{
    LogCommand::Append { path: String::from_str(path), line: String::from_str(line) }
}

/// The command that deletes the log at `path`.
pub fn remove_command(path: &str) -> (command: LogCommand)
    ensures
        command matches LogCommand::Remove { path: p } && p@ == path@,
{
    LogCommand::Remove { path: String::from_str(path) }
}

/// The reply a handle gives for a request: `Stopped` where the request could not be sent
/// or no reply came back (the writer is gone), else the writer's reply.
pub fn writer_reply(sent: bool, received: Option<Result<(), LogError>>) -> (reply: Result<
    (),
    LogError,
>)
    ensures
        reply == reply_for(sent, received),
{
    if !sent {
        return Err(LogError::Stopped);
    }
    match received {
        Some(outcome) => outcome,
        None => Err(LogError::Stopped),
    }
}

/// For a time before the year 10000 and fewer than a million microseconds, the timestamp
/// has the fixed width of `[YYYY-MM-DDThh:mm:ss.uuuuuuZ]`, 29 characters.
pub proof fn lemma_timestamp_width(seconds: nat, micros: nat)
    requires
        micros < 1_000_000,
        seconds < 253_402_300_800,
    ensures
        timestamp_text(seconds, micros).len() == 29,
{
    let date = civil_date((seconds / 86400) as int);
    lemma_civil_year_range((seconds / 86400) as int);
    lemma_civil_date_valid((seconds / 86400) as int);
    let second_of_day = seconds % 86400;
    reveal_with_fuel(pow10, 7);
    assert((date.0 as i32) as int == date.0);
    lemma_zero_padded_len(date.0 as nat, 4);
    lemma_zero_padded_len(date.1 as nat, 2);
    lemma_zero_padded_len(date.2 as nat, 2);
    lemma_zero_padded_len(second_of_day / 3600, 2);
    lemma_zero_padded_len((second_of_day % 3600) / 60, 2);
    lemma_zero_padded_len(second_of_day % 60, 2);
    lemma_zero_padded_len(micros, 6);
    assert(signed_zero_padded((date.0 as i32) as int, 4) == zero_padded(date.0 as nat, 4));
    assert(signed_zero_padded((date.0 as i32) as int, 4).len() == 4);
    let text = timestamp_fields_text(
        (date.0 as i32) as int,
        date.1 as nat,
        date.2 as nat,
        second_of_day / 3600,
        (second_of_day % 3600) / 60,
        second_of_day % 60,
        micros,
    );
    assert(timestamp_text(seconds, micros) == text);
    assert(text.len() == 1 + 4 + 1 + 2 + 1 + 2 + 1 + 2 + 1 + 2 + 1 + 2 + 1 + 6 + 2);
}

/// A log line opens with the timestamp's `[`; the timestamp closes with `]`, which the
/// line follows with ` id=`, the id, a space and the body.
pub proof fn lemma_log_line_shape(seconds: nat, micros: nat, id: nat, body: Seq<char>)
    ensures
        ({
            let stamp = timestamp_text(seconds, micros);
            let line = log_line_text(stamp, id, body);
            &&& line[0] == '['
            &&& line.subrange(stamp.len() - 1, line.len() as int) == seq![']', ' ', 'i', 'd', '=']
                + decimal(id) + seq![' '] + body
        }),
{
    let stamp = timestamp_text(seconds, micros);
    let line = log_line_text(stamp, id, body);
    assert(stamp[0] == '[');
    assert(stamp[stamp.len() - 1] == ']');
    assert(line.subrange(stamp.len() - 1, line.len() as int) =~= seq![']', ' ', 'i', 'd', '=']
        + decimal(id) + seq![' '] + body);
}

/// The text of `lines` as a log holds them: each line followed by a newline, in order.
pub open spec fn lines_text(lines: Seq<Seq<char>>) -> Seq<char>
    decreases lines.len(),
{
    if lines.len() == 0 {
        Seq::empty()
    } else {
        lines_text(lines.drop_last()) + log_record(lines.last())
    }
}

/// The content of a log after the writer has handled `commands` in order, starting from
/// `content`.
pub open spec fn replay(content: Option<Seq<char>>, commands: Seq<LogCommand>) -> Option<
    Seq<char>,
>
    decreases commands.len(),
{
    if commands.len() == 0 {
        content
    } else {
        command_effect(replay(content, commands.drop_last()), commands.last())
    }
}

/// The line that an append command carries.
pub open spec fn appended_line(command: LogCommand) -> Seq<char> {
    match command {
        LogCommand::Append { line, .. } => line@,
        _ => Seq::empty(),
    }
}

/// After a reset or a removal of a log, appending lines to it and reading it back gives
/// exactly those lines, in order, each once and followed by a newline, whatever the log held
/// before.
pub proof fn lemma_reset_then_appends(
    content: Option<Seq<char>>,
    path: Seq<char>,
    commands: Seq<LogCommand>,
)
    requires
        commands.len() >= 1,
        commands[0] is Reset || commands[0] is Remove,
        forall|i: int| 1 <= i < commands.len() ==> #[trigger] commands[i] is Append,
        forall|i: int| 0 <= i < commands.len() ==> #[trigger] command_path(commands[i]) == Some(path),
    ensures
        log_text(replay(content, commands)) == lines_text(
            commands.drop_first().map_values(|command: LogCommand| appended_line(command)),
        ),
    decreases commands.len(),
{
    let lines = commands.drop_first().map_values(|command: LogCommand| appended_line(command));
    if commands.len() == 1 {
        assert(commands.drop_last().len() == 0);
        assert(lines.len() == 0);
    } else {
        let shorter = commands.drop_last();
        assert forall|i: int| 1 <= i < shorter.len() implies #[trigger] shorter[i] is Append by {
            assert(shorter[i] == commands[i]);
        }
        assert forall|i: int| 0 <= i < shorter.len() implies #[trigger] command_path(shorter[i])
            == Some(path) by {
            assert(shorter[i] == commands[i]);
        }
        lemma_reset_then_appends(content, path, shorter);
        assert(commands.last() is Append);
        assert(shorter.drop_first().map_values(|command: LogCommand| appended_line(command))
            =~= lines.drop_last());
    }
}

/// Log lines follow the clock: for clock readings before the year 10000, a reading at a
/// later microsecond gives a line that comes later in string order, whatever the ids and
/// bodies of the two lines.
pub proof fn lemma_log_lines_follow_clock(
    first: SystemTime,
    first_id: nat,
    first_body: Seq<char>,
    second: SystemTime,
    second_id: nat,
    second_body: Seq<char>,
)
    requires
        unix_parts(first).1 < 1_000_000,
        unix_parts(second).1 < 1_000_000,
        unix_parts(first).0 < 253_402_300_800,
        unix_parts(second).0 < 253_402_300_800,
        unix_parts(first).0 * 1_000_000 + unix_parts(first).1 < unix_parts(second).0 * 1_000_000
            + unix_parts(second).1,
    ensures
        text_precedes(
            log_line_at(first, first_id, first_body),
            log_line_at(second, second_id, second_body),
        ),
{
    let (s1, u1) = (unix_parts(first).0 as nat, unix_parts(first).1 as nat);
    let (s2, u2) = (unix_parts(second).0 as nat, unix_parts(second).1 as nat);
    let t1 = timestamp_text(s1, u1);
    let t2 = timestamp_text(s2, u2);
    lemma_timestamp_order(s1, u1, s2, u2);
    lemma_timestamp_width(s1, u1);
    lemma_timestamp_width(s2, u2);
    let rest1 = seq![' ', 'i', 'd', '='] + decimal(first_id) + seq![' '] + first_body;
    let rest2 = seq![' ', 'i', 'd', '='] + decimal(second_id) + seq![' '] + second_body;
    assert(log_line_at(first, first_id, first_body) =~= t1 + rest1);
    assert(log_line_at(second, second_id, second_body) =~= t2 + rest2);
    lemma_precedes_append(t1, t2, rest1, rest2);
}

/// What the writer's acknowledgement of a handle call stands for, whatever the log held
/// before: after `reset` the log is empty, after `append` it holds its old text and then the
/// line and a newline, after `remove` there is no log; and each of these is about the path the
/// call was given.
pub proof fn lemma_acknowledged_effect(
    content: Option<Seq<char>>,
    exchange: Exchange,
    reply: Result<(), LogError>,
)
    requires
        handled(exchange, reply),
        reply is Ok,
    ensures
        acknowledged(exchange),
        exchange.command() is Reset ==> command_effect(content, exchange.command()) == Some(
            Seq::<char>::empty(),
        ),
        exchange.command() matches LogCommand::Append { line, .. } ==> command_effect(
            content,
            exchange.command(),
        ) == Some(log_text(content) + line@ + seq!['\n']),
        exchange.command() is Remove ==> command_effect(content, exchange.command()) is None
            && log_text(command_effect(content, exchange.command())) == Seq::<char>::empty(),
{
    lemma_reply_ok_iff_acknowledged(exchange, reply);
    if exchange.command() is Append {
        let line = appended_line(exchange.command());
        assert(log_record(line) =~= line + seq!['\n']);
        assert(log_text(content) + log_record(line) =~= log_text(content) + line + seq!['\n']);
    }
}

/// The commands of a run of exchanges, in order.
pub open spec fn exchanged_commands(exchanges: Seq<Exchange>) -> Seq<LogCommand> {
    exchanges.map_values(|exchange: Exchange| exchange.command())
}

/// Handle calls on one path, a reset (or a removal) and then appends, each answered `Ok`: the
/// writer acknowledged every one, and the log that their commands leave, handled one at a time
/// in this order, reads back as exactly the appended lines, in order, each followed by a
/// newline.
pub proof fn lemma_acknowledged_reset_then_appends(
    content: Option<Seq<char>>,
    path: Seq<char>,
    exchanges: Seq<Exchange>,
    replies: Seq<Result<(), LogError>>,
)
    requires
        exchanges.len() >= 1,
        replies.len() == exchanges.len(),
        forall|i: int|
            0 <= i < exchanges.len() ==> handled(#[trigger] exchanges[i], replies[i])
                && replies[i] is Ok,
        exchanges[0].command() is Reset || exchanges[0].command() is Remove,
        forall|i: int| 1 <= i < exchanges.len() ==> #[trigger] exchanges[i].command() is Append,
        forall|i: int|
            0 <= i < exchanges.len() ==> command_path(#[trigger] exchanges[i].command()) == Some(
                path,
            ),
    ensures
        forall|i: int| 0 <= i < exchanges.len() ==> acknowledged(#[trigger] exchanges[i]),
        log_text(replay(content, exchanged_commands(exchanges))) == lines_text(
            exchanged_commands(exchanges).drop_first().map_values(
                |command: LogCommand| appended_line(command),
            ),
        ),
{
    let commands = exchanged_commands(exchanges);
    assert forall|i: int| 0 <= i < exchanges.len() implies acknowledged(
        #[trigger] exchanges[i],
    ) by {
        lemma_reply_ok_iff_acknowledged(exchanges[i], replies[i]);
    }
    assert forall|i: int| 1 <= i < commands.len() implies #[trigger] commands[i] is Append by {
        assert(commands[i] == exchanges[i].command());
    }
    assert forall|i: int| 0 <= i < commands.len() implies #[trigger] command_path(commands[i])
        == Some(path) by {
        assert(commands[i] == exchanges[i].command());
    }
    assert(commands[0] == exchanges[0].command());
    lemma_reset_then_appends(content, path, commands);
}

/// The width of timestamp field `j`; the fields are the year, month, day, hour, minute,
/// second and microseconds, in that order.
spec fn field_width(j: int) -> nat {
    if j == 0 {
        4
    } else if j == 6 {
        6
    } else {
        2
    }
}

/// The text written before timestamp field `j`.
spec fn field_separator(j: int) -> Seq<char> {
    if j == 0 {
        seq!['[']
    } else if j <= 2 {
        seq!['-']
    } else if j == 3 {
        seq!['T']
    } else if j <= 5 {
        seq![':']
    } else {
        seq!['.']
    }
}

/// The timestamp text of the first `n` fields, each after its separator.
spec fn fields_prefix(f: Seq<nat>, n: nat) -> Seq<char>
    decreases n,
{
    if n == 0 {
        Seq::empty()
    } else {
        fields_prefix(f, (n - 1) as nat) + field_separator(n - 1) + zero_padded(
            f[n - 1],
            field_width(n - 1) as int,
        )
    }
}

/// Seven fields, each below ten to the power of its width.
spec fn fields_fit(f: Seq<nat>) -> bool {
    &&& f.len() == 7
    &&& forall|j: int| 0 <= j < 7 ==> #[trigger] f[j] < pow10(field_width(j))
}

/// The seven timestamp fields of `seconds` and `micros`: the civil date of the day, the hour,
/// minute and second of the day, and the microseconds.
spec fn time_fields(seconds: nat, micros: nat) -> Seq<nat> {
    let date = civil_date((seconds / 86400) as int);
    let second_of_day = seconds % 86400;
    seq![
        date.0 as nat,
        date.1 as nat,
        date.2 as nat,
        second_of_day / 3600,
        (second_of_day % 3600) / 60,
        second_of_day % 60,
        micros,
    ]
}

/// The timestamp text of seven fields is the fields in turn, then `Z]`.
proof fn lemma_fields_text(f: Seq<nat>)
    requires
        f.len() == 7,
    ensures
        timestamp_fields_text(f[0] as int, f[1], f[2], f[3], f[4], f[5], f[6]) == fields_prefix(
            f,
            7,
        ) + seq!['Z', ']'],
{
    reveal_with_fuel(fields_prefix, 8);
    assert(fields_prefix(f, 1) =~= seq!['['] + zero_padded(f[0], 4));
    assert(signed_zero_padded(f[0] as int, 4) == zero_padded(f[0], 4));
}

/// Before the year 10000 the timestamp of a time is the text of its fields, which fit their
/// widths.
proof fn lemma_time_fields(seconds: nat, micros: nat)
    requires
        micros < 1_000_000,
        seconds < 253_402_300_800,
    ensures
        fields_fit(time_fields(seconds, micros)),
        timestamp_text(seconds, micros) == fields_prefix(time_fields(seconds, micros), 7)
            + seq!['Z', ']'],
{
    let days = (seconds / 86400) as int;
    let date = civil_date(days);
    lemma_civil_date_valid(days);
    lemma_civil_year_range(days);
    reveal_with_fuel(pow10, 7);
    assert((date.0 as i32) as int == date.0);
    let f = time_fields(seconds, micros);
    assert forall|j: int| 0 <= j < 7 implies #[trigger] f[j] < pow10(field_width(j)) by {
        if j == 0 {
            assert(pow10(4) == 10000);
        } else if j == 6 {
            assert(pow10(6) == 1_000_000);
        } else {
            assert(pow10(2) == 100);
        }
    }
    lemma_fields_text(f);
}

/// Fields that agree before `n` give the same text up to `n`.
proof fn lemma_fields_prefix_agree(f1: Seq<nat>, f2: Seq<nat>, n: nat)
    requires
        forall|i: int| 0 <= i < n ==> f1[i] == f2[i],
    ensures
        fields_prefix(f1, n) == fields_prefix(f2, n),
    decreases n,
{
    if n > 0 {
        lemma_fields_prefix_agree(f1, f2, (n - 1) as nat);
        assert(f1[n - 1] == f2[n - 1]);
    }
}

/// Fields that fit their widths are read back from their text up to `n`.
proof fn lemma_fields_prefix_injective(f1: Seq<nat>, f2: Seq<nat>, n: nat)
    requires
        fields_fit(f1),
        fields_fit(f2),
        n <= 7,
        fields_prefix(f1, n) == fields_prefix(f2, n),
    ensures
        forall|i: int| 0 <= i < n ==> f1[i] == f2[i],
    decreases n,
{
    if n > 0 {
        let j = (n - 1) as nat;
        let width = field_width(j as int);
        assert(f1[j as int] < pow10(width));
        assert(f2[j as int] < pow10(width));
        lemma_zero_padded_len(f1[j as int], width);
        lemma_zero_padded_len(f2[j as int], width);
        let z1 = zero_padded(f1[j as int], width as int);
        let z2 = zero_padded(f2[j as int], width as int);
        let before1 = fields_prefix(f1, j);
        let before2 = fields_prefix(f2, j);
        lemma_concat_cancel(before1 + field_separator(j as int), z1, before2 + field_separator(j as int), z2);
        lemma_concat_cancel(before1, field_separator(j as int), before2, field_separator(j as int));
        lemma_zero_padded_value(f1[j as int], width as int);
        lemma_zero_padded_value(f2[j as int], width as int);
        lemma_fields_prefix_injective(f1, f2, j);
    }
}

/// Fields that agree before `j` and are smaller at `j` give texts, up to any `n > j`, that
/// first differ at a position where the first has the smaller character.
proof fn lemma_fields_prefix_differ(f1: Seq<nat>, f2: Seq<nat>, j: nat, n: nat) -> (k: int)
    requires
        fields_fit(f1),
        fields_fit(f2),
        j < n <= 7,
        forall|i: int| 0 <= i < j ==> f1[i] == f2[i],
        f1[j as int] < f2[j as int],
    ensures
        differs_first_at(fields_prefix(f1, n), fields_prefix(f2, n), k),
    decreases n,
{
    let m = (n - 1) as nat;
    if m == j {
        lemma_fields_prefix_agree(f1, f2, j);
        let width = field_width(j as int);
        assert(f2[j as int] < pow10(width));
        let i = lemma_zero_padded_order(f1[j as int], f2[j as int], width);
        let before = fields_prefix(f1, j) + field_separator(j as int);
        lemma_differs_first_at_prepend(
            before,
            zero_padded(f1[j as int], width as int),
            zero_padded(f2[j as int], width as int),
            i,
        );
        before.len() + i
    } else {
        let k = lemma_fields_prefix_differ(f1, f2, j, m);
        let sep = field_separator(m as int);
        let width = field_width(m as int) as int;
        lemma_differs_first_at_append(fields_prefix(f1, m), fields_prefix(f2, m), sep, sep, k);
        lemma_differs_first_at_append(
            fields_prefix(f1, m) + sep,
            fields_prefix(f2, m) + sep,
            zero_padded(f1[m as int], width),
            zero_padded(f2[m as int], width),
            k,
        );
        k
    }
}

/// Timestamps have exactly microsecond resolution: for times before the year 10000 and
/// fewer than a million microseconds, two times give the same timestamp exactly when they
/// are the same microsecond.
pub proof fn lemma_timestamp_resolution(
    first_seconds: nat,
    first_micros: nat,
    second_seconds: nat,
    second_micros: nat,
)
    requires
        first_micros < 1_000_000,
        second_micros < 1_000_000,
        first_seconds < 253_402_300_800,
        second_seconds < 253_402_300_800,
    ensures
        (timestamp_text(first_seconds, first_micros) == timestamp_text(
            second_seconds,
            second_micros,
        )) <==> (first_seconds == second_seconds && first_micros == second_micros),
{
    if timestamp_text(first_seconds, first_micros) == timestamp_text(second_seconds, second_micros) {
        let f1 = time_fields(first_seconds, first_micros);
        let f2 = time_fields(second_seconds, second_micros);
        lemma_time_fields(first_seconds, first_micros);
        lemma_time_fields(second_seconds, second_micros);
        lemma_concat_cancel(fields_prefix(f1, 7), seq!['Z', ']'], fields_prefix(f2, 7), seq!['Z', ']']);
        lemma_fields_prefix_injective(f1, f2, 7);
        assert(f1[0] == f2[0] && f1[1] == f2[1] && f1[2] == f2[2]);
        assert(f1[3] == f2[3] && f1[4] == f2[4] && f1[5] == f2[5] && f1[6] == f2[6]);
        let days1 = (first_seconds / 86400) as int;
        let days2 = (second_seconds / 86400) as int;
        let d1 = civil_date(days1);
        let d2 = civil_date(days2);
        lemma_civil_date_valid(days1);
        lemma_civil_date_valid(days2);
        lemma_civil_year_range(days1);
        lemma_civil_year_range(days2);
        assert(d1 == d2);
        assert(days_from_civil(d1.0, d1.1, d1.2) == days1);
        assert(days_from_civil(d2.0, d2.1, d2.2) == days2);
    }
}

/// Whether the fields `f1` come before `f2`, field by field from the year down.
spec fn fields_precede(f1: Seq<nat>, f2: Seq<nat>) -> bool {
    ||| f1[0] < f2[0]
    ||| f1[0] == f2[0] && f1[1] < f2[1]
    ||| f1[0] == f2[0] && f1[1] == f2[1] && f1[2] < f2[2]
    ||| f1[0] == f2[0] && f1[1] == f2[1] && f1[2] == f2[2] && f1[3] < f2[3]
    ||| f1[0] == f2[0] && f1[1] == f2[1] && f1[2] == f2[2] && f1[3] == f2[3] && f1[4] < f2[4]
    ||| f1[0] == f2[0] && f1[1] == f2[1] && f1[2] == f2[2] && f1[3] == f2[3] && f1[4] == f2[4]
        && f1[5] < f2[5]
    ||| f1[0] == f2[0] && f1[1] == f2[1] && f1[2] == f2[2] && f1[3] == f2[3] && f1[4] == f2[4]
        && f1[5] == f2[5] && f1[6] < f2[6]
}

/// Fields that come first give the timestamp text that comes first.
proof fn lemma_fields_order(f1: Seq<nat>, f2: Seq<nat>)
    requires
        fields_fit(f1),
        fields_fit(f2),
        fields_precede(f1, f2),
    ensures
        text_precedes(fields_prefix(f1, 7) + seq!['Z', ']'], fields_prefix(f2, 7) + seq!['Z', ']']),
{
    let j: nat = if f1[0] != f2[0] {
        0
    } else if f1[1] != f2[1] {
        1
    } else if f1[2] != f2[2] {
        2
    } else if f1[3] != f2[3] {
        3
    } else if f1[4] != f2[4] {
        4
    } else if f1[5] != f2[5] {
        5
    } else {
        6
    };
    let k = lemma_fields_prefix_differ(f1, f2, j, 7);
    lemma_differs_first_at_append(fields_prefix(f1, 7), fields_prefix(f2, 7), seq!['Z', ']'], seq!['Z', ']'], k);
    lemma_differs_first_at_precedes(fields_prefix(f1, 7) + seq!['Z', ']'], fields_prefix(f2, 7) + seq!['Z', ']'], k);
}

/// Timestamp order follows time order: for times before the year 10000 and fewer than a
/// million microseconds, an earlier microsecond gives a timestamp that comes first in
/// string order.
#[verifier::spinoff_prover]
pub proof fn lemma_timestamp_order(
    first_seconds: nat,
    first_micros: nat,
    second_seconds: nat,
    second_micros: nat,
)
    requires
        first_micros < 1_000_000,
        second_micros < 1_000_000,
        first_seconds < 253_402_300_800,
        second_seconds < 253_402_300_800,
        first_seconds * 1_000_000 + first_micros < second_seconds * 1_000_000 + second_micros,
    ensures
        text_precedes(
            timestamp_text(first_seconds, first_micros),
            timestamp_text(second_seconds, second_micros),
        ),
{
    let days1 = (first_seconds / 86400) as int;
    let days2 = (second_seconds / 86400) as int;
    let d1 = civil_date(days1);
    let d2 = civil_date(days2);
    lemma_civil_date_valid(days1);
    lemma_civil_date_valid(days2);
    lemma_civil_year_range(days1);
    lemma_civil_year_range(days2);
    let f1 = time_fields(first_seconds, first_micros);
    let f2 = time_fields(second_seconds, second_micros);
    lemma_time_fields(first_seconds, first_micros);
    lemma_time_fields(second_seconds, second_micros);
    let s1 = first_seconds % 86400;
    let s2 = second_seconds % 86400;
    assert(f1[0] == d1.0 && f1[1] == d1.1 && f1[2] == d1.2);
    assert(f2[0] == d2.0 && f2[1] == d2.1 && f2[2] == d2.2);
    assert(f1[3] == s1 / 3600 && f1[4] == (s1 % 3600) / 60 && f1[5] == s1 % 60);
    assert(f2[3] == s2 / 3600 && f2[4] == (s2 % 3600) / 60 && f2[5] == s2 % 60);
    assert(f1[6] == first_micros && f2[6] == second_micros);
    assert(first_seconds <= second_seconds);
    if days1 < days2 {
        lemma_days_from_civil_ordered(d1.0, d1.1, d1.2, d2.0, d2.1, d2.2);
    } else {
        assert(days1 == days2);
        assert(s1 <= s2);
    }
    assert(fields_precede(f1, f2));
    lemma_fields_order(f1, f2);
}

} // verus!
