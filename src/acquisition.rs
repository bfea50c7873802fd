//! The acquisition state machine: what to do with each line read, each
//! control command and the request to stop. The caller performs the I/O.
use vstd::prelude::*;
use crate::buffer::{append_spec, batch_view, SampleBuffer, BUFFER_LIMIT};
use crate::sample::{decode_spec, Sample};

verus! {

/// Consecutive failed cycles after which the connection is rebuilt.
pub const RECONNECT_AFTER: u32 = 5;

/// Serial line speed of the device.
pub const BAUD_RATE: u32 = 57600;

/// Longest a read may block, in milliseconds.
pub const READ_TIMEOUT_MS: u64 = 2000;

/// Pause between two samples, in seconds.
pub const SAMPLE_INTERVAL_SECS: u64 = 1;

/// Pause before another attempt to open the device, and before a reconnect, in seconds.
pub const RETRY_DELAY_SECS: u64 = 1;

/// A control command for the controller's load output.
#[derive(Clone, Copy, Debug, PartialEq, Eq, Structural)]
pub enum LoadCommand {
    On,
    Off,
}

/// The bytes of a command on the wire: `LON\n` or `LOFF\n`.
pub open spec fn command_text(c: LoadCommand) -> Seq<u8> {
    match c {
        LoadCommand::On => seq![76u8, 79u8, 78u8, 10u8],
        LoadCommand::Off => seq![76u8, 79u8, 70u8, 70u8, 10u8],
    }
}

/// One operation on the connection.
#[derive(Debug, PartialEq, Eq)]
pub enum PortAction {
    /// Read and drop one line, so that a command does not land inside a frame.
    DiscardLine,
    Write(Vec<u8>),
    Flush,
}

impl LoadCommand {
    /// The command that puts the load in the state `is_on`.
    pub fn from_switch(is_on: bool) -> (r: LoadCommand)
        ensures
            r == (if is_on {
                LoadCommand::On
            } else {
                LoadCommand::Off
            }),
    {
        if is_on {
            LoadCommand::On
        } else {
            LoadCommand::Off
        }
    }

    pub fn encode(&self) -> (r: Vec<u8>)
        ensures
            r@ == command_text(*self),
    {
        let mut v: Vec<u8> = Vec::new();
        v.push(76);
        v.push(79);
        match self {
            LoadCommand::On => {
                v.push(78);
            },
            LoadCommand::Off => {
                v.push(70);
                v.push(70);
            },
        }
        v.push(10);
        assert(v@ =~= command_text(*self));
        v
    }

    /// What sending the command does on the connection: drop the line in
    /// flight, write the command, flush.
    pub fn actions(&self) -> (r: Vec<PortAction>)
        ensures
            r@.len() == 3,
            r@[0] == PortAction::DiscardLine,
            r@[1] matches PortAction::Write(b) && b@ == command_text(*self),
            r@[2] == PortAction::Flush,
    {
        let mut v: Vec<PortAction> = Vec::new();
        v.push(PortAction::DiscardLine);
        v.push(PortAction::Write(self.encode()));
        v.push(PortAction::Flush);
        v
    }
}

/// Why opening the device failed.
#[derive(Clone, Copy, Debug, PartialEq, Eq, Structural)]
pub enum OpenFailure {
    /// No device is present at the name.
    NoDevice,
    /// Any other failure (permissions, a bad name, ...).
    Other,
}

/// What to do after a failed open.
#[derive(Clone, Copy, Debug, PartialEq, Eq, Structural)]
pub enum OpenDecision {
    /// Try again after this many seconds.
    RetryAfter(u64),
    /// Give up: the failure is a configuration error.
    Fatal,
}

/// An absent device is waited for; any other failure is fatal.
pub fn on_open_failure(f: OpenFailure) -> (r: OpenDecision)
    ensures
        r == (match f {
            OpenFailure::NoDevice => OpenDecision::RetryAfter(RETRY_DELAY_SECS),
            OpenFailure::Other => OpenDecision::Fatal,
        }),
{
    match f {
        OpenFailure::NoDevice => OpenDecision::RetryAfter(RETRY_DELAY_SECS),
        OpenFailure::Other => OpenDecision::Fatal,
    }
}

/// A failed cycle: the new count of consecutive failures, and whether the
/// connection must be rebuilt.
pub open spec fn failure_step(count: nat) -> (nat, bool) {
    if count + 1 >= RECONNECT_AFTER {
        (0, true)
    } else {
        (count + 1, false)
    }
}

/// `k` failed cycles in a row from the count `count`: the count afterwards
/// and the number of reconnects.
pub open spec fn failures_after(count: nat, k: nat) -> (nat, nat)
    decreases k,
{
    if k == 0 {
        (count, 0)
    } else {
        let (c, n) = failures_after(count, (k - 1) as nat);
        let (c2, reconnect) = failure_step(c);
        (c2, if reconnect {
            n + 1
        } else {
            n
        })
    }
}

/// From a count below the threshold, failed cycles only count up until the
/// threshold is reached; the cycle that reaches it reconnects, once, and
/// clears the count. From a clean count that is the fifth failure.
pub proof fn lemma_reconnect_after_failures(count: nat, k: nat)
    requires
        count < RECONNECT_AFTER,
        count + k <= RECONNECT_AFTER,
    ensures
        count + k < RECONNECT_AFTER ==> failures_after(count, k) == (count + k, 0nat),
        count + k == RECONNECT_AFTER ==> failures_after(count, k) == (0nat, 1nat),
    decreases k,
{
    if k > 0 {
        lemma_reconnect_after_failures(count, (k - 1) as nat);
    }
}

/// The sample that a read gives: the decoded line, or nothing when the read
/// or the decoding failed.
pub open spec fn read_outcome(line: Option<Seq<u8>>, timestamp: i64) -> Option<Sample> {
    match line {
        Some(l) => match decode_spec(l, timestamp) {
            Ok(s) => Some(s),
            Err(_) => None,
        },
        None => None,
    }
}

pub open spec fn line_view(line: Option<&[u8]>) -> Option<Seq<u8>> {
    match line {
        Some(l) => Some(l@),
        None => None,
    }
}

/// What one cycle produced.
pub struct Cycle {
    /// The sample to publish: the decoded one, or a placeholder.
    pub sample: Sample,
    /// A batch to commit to the store.
    pub batch: Option<Vec<Sample>>,
    /// The connection must be rebuilt.
    pub reconnect: bool,
}

#[derive(Clone, Copy, Debug, PartialEq, Eq, Structural)]
pub enum Phase {
    Running,
    Stopped,
}

/// The acquisition loop's state: consecutive failures, pending samples and
/// whether it still runs.
pub struct Acquisition {
    failures: u32,
    buffer: SampleBuffer,
    phase: Phase,
}

impl Acquisition {
    pub closed spec fn failure_count(&self) -> nat {
        self.failures as nat
    }

    pub closed spec fn pending(&self) -> Seq<Sample> {
        self.buffer@
    }

    pub closed spec fn cap(&self) -> nat {
        self.buffer.cap()
    }

    pub closed spec fn phase(&self) -> Phase {
        self.phase
    }

    pub closed spec fn wf(&self) -> bool {
        self.failures < RECONNECT_AFTER && self.buffer.wf()
    }

    /// A running loop with no failures and nothing pending, committing
    /// batches of `capacity` samples.
    pub fn with_capacity(capacity: usize) -> (r: Acquisition)
        requires
            capacity >= 1,
        ensures
            r.wf(),
            r.phase() == Phase::Running,
            r.failure_count() == 0,
            r.pending() == Seq::<Sample>::empty(),
            r.cap() == capacity,
    {
        Acquisition { failures: 0, buffer: SampleBuffer::with_capacity(capacity), phase: Phase::Running }
    }

    pub fn new() -> (r: Acquisition)
        ensures
            r.wf(),
            r.phase() == Phase::Running,
            r.failure_count() == 0,
            r.pending() == Seq::<Sample>::empty(),
            r.cap() == BUFFER_LIMIT,
    {
        Acquisition::with_capacity(BUFFER_LIMIT)
    }

    pub fn is_running(&self) -> (r: bool)
        ensures
            r == (self.phase() == Phase::Running),
    {
        match self.phase {
            Phase::Running => true,
            Phase::Stopped => false,
        }
    }

    pub fn failures(&self) -> (r: u32)
        ensures
            r == self.failure_count(),
    {
        self.failures
    }

    pub fn pending_len(&self) -> (r: usize)
        requires
            self.wf(),
        ensures
            r == self.pending().len(),
    {
        self.buffer.len()
    }

    /// One cycle on the line read at `timestamp` (`None`: the read failed).
    /// A decoded sample clears the failure count, is kept for the store and
    /// published. A failure publishes a placeholder, keeps nothing, and
    /// counts; at the threshold it asks for a reconnect and clears the count.
    pub fn on_line(&mut self, line: Option<&[u8]>, timestamp: i64) -> (c: Cycle)
        requires
            old(self).wf(),
            old(self).phase() == Phase::Running,
        ensures
            final(self).wf(),
            final(self).phase() == Phase::Running,
            final(self).cap() == old(self).cap(),
            c.sample.wf(),
            match read_outcome(line_view(line), timestamp) {
                Some(s) => {
                    &&& c.sample == s
                    &&& !c.reconnect
                    &&& final(self).failure_count() == 0
                    &&& (final(self).pending(), batch_view(c.batch)) == append_spec(
                        old(self).pending(),
                        old(self).cap(),
                        s,
                    )
                },
                None => {
                    &&& c.sample == Sample::spec_placeholder(timestamp)
                    &&& c.batch is None
                    &&& final(self).pending() == old(self).pending()
                    &&& (final(self).failure_count(), c.reconnect) == failure_step(
                        old(self).failure_count(),
                    )
                },
            },
    {
        let decoded = match line {
            Some(l) => match Sample::decode(l, timestamp) {
                Ok(s) => Some(s),
                Err(_) => None,
            },
            None => None,
        };
        match decoded {
            Some(s) => {
                self.failures = 0;
                let batch = self.buffer.append(s);
                Cycle { sample: s, batch, reconnect: false }
            },
            None => {
                let reconnect = self.failures + 1 >= RECONNECT_AFTER;
                if reconnect {
                    self.failures = 0;
                } else {
                    self.failures = self.failures + 1;
                }
                Cycle { sample: Sample::placeholder(timestamp), batch: None, reconnect }
            },
        }
    }

    /// Stops the loop: hands over every pending sample, in order, for the
    /// final commit.
    pub fn shutdown(&mut self) -> (r: Vec<Sample>)
        requires
            old(self).wf(),
            old(self).phase() == Phase::Running,
        ensures
            final(self).wf(),
            final(self).phase() == Phase::Stopped,
            r@ == old(self).pending(),
            final(self).pending() == Seq::<Sample>::empty(),
    {
        self.phase = Phase::Stopped;
        self.buffer.take_all()
    }

    /// The check at the top of each cycle: on a stop request, shut down and
    /// hand over what is pending; otherwise go on.
    pub fn begin_cycle(&mut self, stop_requested: bool) -> (r: Option<Vec<Sample>>)
        requires
            old(self).wf(),
            old(self).phase() == Phase::Running,
        ensures
            final(self).wf(),
            stop_requested ==> final(self).phase() == Phase::Stopped && batch_view(r) == Some(
                old(self).pending(),
            ) && final(self).pending() == Seq::<Sample>::empty(),
            !stop_requested ==> r is None && *final(self) == *old(self),
    {
        if stop_requested {
            Some(self.shutdown())
        } else {
            None
        }
    }
}

} // verus!
