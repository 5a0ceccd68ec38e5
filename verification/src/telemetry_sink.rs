//! Telemetry sinks: the events worth sending home, a sink that drops them,
//! and the decisions of the sink that sends them to the ingestion server:
//! how many events wait, which blocks are sent, and when the connection is
//! kept.

use crate::event_sink::ProcessInfo;
use vstd::prelude::*;

verus! {

/// Identification of a stream of telemetry blocks.
#[derive(Clone, Debug)]
pub struct StreamInfo {
    pub process_id: String,
    pub stream_id: String,
    pub tags: Vec<String>,
}

/// Events worth writing home about: written to disk or sent to the server.
#[derive(Debug)]
pub enum TelemetrySinkEvent {
    OnInitProcess(ProcessInfo),
    OnNewStream(StreamInfo),
    /// An encoded block of log entries.
    OnLogBufferFull(Vec<u8>),
    /// An encoded block of thread events.
    OnThreadBufferFull(Vec<u8>),
    OnShutdown,
}

/// A receiver of telemetry events.
pub trait EventBlockSink {
    fn on_sink_event(&self, event: TelemetrySinkEvent);
}

/// A sink that drops every event.
pub struct NullEventSink {}

impl EventBlockSink for NullEventSink {
    fn on_sink_event(&self, event: TelemetrySinkEvent) {
    }
}

/// The kinds of message the sending thread receives.
#[derive(Clone, Copy, Debug, PartialEq, Eq, Structural)]
pub enum SinkMessage {
    Startup,
    InitStream,
    LogBlock,
    MetricsBlock,
    ThreadBlock,
}

/// What the sending thread does with a message.
#[derive(Clone, Copy, Debug, PartialEq, Eq, Structural)]
pub enum SinkAction {
    /// Sends the description of the process.
    InsertProcess,
    /// Sends the description of a stream.
    InsertStream,
    /// Encodes and sends a block.
    InsertBlock,
    /// Drops a block because too many messages wait.
    SkipBlock,
}

/// One step of the sending thread, for one message.
#[derive(Clone, Copy, Debug, PartialEq, Eq, Structural)]
pub struct SinkStep {
    /// Whether a new connection must be made first.
    pub connect: bool,
    pub action: SinkAction,
    /// Whether the connection is kept for the next message.
    pub keep_connection: bool,
}

/// Whether a block is sent: only while fewer than `max_queue_size` messages
/// wait.
pub fn push_allowed(queue_size: isize, max_queue_size: isize) -> (r: bool)
    ensures
        r == (queue_size < max_queue_size),
{
    queue_size < max_queue_size
}

/// Whether the connection is kept after a message: only while at least two
/// messages wait, so that an idle connection is not left for the server to
/// drop.
pub fn keep_connection(queue_size: isize) -> (r: bool)
    ensures
        r == (queue_size >= 2),
{
    queue_size >= 2
}

/// The step for `message`: connect if no connection is kept, send the
/// process or stream description, send a block only if allowed by the queue
/// size seen before sending, and keep the connection as the queue size seen
/// after sending says.
pub fn plan_step(
    has_connection: bool,
    message: SinkMessage,
    queue_size_before: isize,
    queue_size_after: isize,
    max_queue_size: isize,
) -> (r: SinkStep)
    ensures
        r.connect == !has_connection,
        r.keep_connection == (queue_size_after >= 2),
        r.action == match message {
            SinkMessage::Startup => SinkAction::InsertProcess,
            SinkMessage::InitStream => SinkAction::InsertStream,
            _ => if queue_size_before < max_queue_size {
                SinkAction::InsertBlock
            } else {
                SinkAction::SkipBlock
            },
        },
{
    let action = match message {
        SinkMessage::Startup => SinkAction::InsertProcess,
        SinkMessage::InitStream => SinkAction::InsertStream,
        SinkMessage::LogBlock | SinkMessage::MetricsBlock | SinkMessage::ThreadBlock => {
            if push_allowed(queue_size_before, max_queue_size) {
                SinkAction::InsertBlock
            } else {
                SinkAction::SkipBlock
            }
        },
    };
    SinkStep { connect: !has_connection, action, keep_connection: keep_connection(queue_size_after) }
}

/// The number of messages sent to the sending thread and not yet handled.
pub struct QueueCounter {
    size: isize,
}

impl QueueCounter {
    pub closed spec fn size(self) -> int {
        self.size as int
    }

    pub fn new() -> (r: Self)
        ensures
            r.size() == 0,
    {
        QueueCounter { size: 0 }
    }

    pub fn value(&self) -> (r: isize)
        ensures
            r == self.size(),
    {
        self.size
    }

    /// A message is about to be sent.
    pub fn on_send(&mut self)
        requires
            old(self).size() < isize::MAX,
        ensures
            final(self).size() == old(self).size() + 1,
    {
        self.size = self.size + 1;
    }

    /// Sending failed: the message is not waiting after all.
    pub fn on_send_failed(&mut self)
        requires
            old(self).size() > isize::MIN,
        ensures
            final(self).size() == old(self).size() - 1,
    {
        self.size = self.size - 1;
    }

    /// The sending thread has handled a message.
    pub fn on_handled(&mut self)
        requires
            old(self).size() > isize::MIN,
        ensures
            final(self).size() == old(self).size() - 1,
    {
        self.size = self.size - 1;
    }

    /// Whether messages wait to be sent.
    pub fn is_busy(&self) -> (r: bool)
        ensures
            r == (self.size() > 0),
    {
        self.size > 0
    }
}

/// The sink that sends to the server wants every log entry that the filters
/// before it let through.
pub fn http_sink_log_enabled() -> (r: bool)
    ensures
        r,
{
    true
}

} // verus!
