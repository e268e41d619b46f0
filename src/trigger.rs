//! The wakeup primitive that drives each workflow stage, and the decisions a
//! stage's consumer loop makes between passes.
use vstd::prelude::*;

verus! {

/// Whether a stage's pass left work behind.
#[derive(Clone, Copy, Debug, PartialEq, Eq, Structural)]
pub enum WorkComplete {
    /// Every candidate reached a definitive disposition.
    Complete,
    /// Some candidate is still pending; the stage should run again.
    Incomplete,
}

/// What the consumer observes when it listens on its trigger.
#[derive(Clone, Copy, Debug, PartialEq, Eq, Structural)]
pub enum Wakeup {
    /// At least one signal arrived since the last pass: run one pass.
    Run,
    /// Nothing arrived: keep waiting.
    Idle,
    /// The trigger was closed: stop after the current iteration.
    Closed,
}

/// The abstract state of a trigger: whether a wakeup is waiting, and whether
/// the trigger was closed.
pub struct TriggerState {
    pub armed: bool,
    pub closed: bool,
}

pub open spec fn signal_spec(t: TriggerState) -> TriggerState {
    TriggerState { armed: true, closed: t.closed }
}

pub open spec fn signal_times(t: TriggerState, n: nat) -> TriggerState
    decreases n,
{
    if n == 0 {
        t
    } else {
        signal_spec(signal_times(t, (n - 1) as nat))
    }
}

pub open spec fn listen_spec(t: TriggerState) -> (Wakeup, TriggerState) {
    if t.closed {
        (Wakeup::Closed, t)
    } else if t.armed {
        (Wakeup::Run, TriggerState { armed: false, closed: false })
    } else {
        (Wakeup::Idle, t)
    }
}

/// A single-slot wakeup: any number of signals before the consumer listens
/// collapse into one wakeup.
pub struct Trigger {
    armed: bool,
    closed: bool,
}

impl View for Trigger {
    type V = TriggerState;

    closed spec fn view(&self) -> TriggerState {
        TriggerState { armed: self.armed, closed: self.closed }
    }
}

impl Trigger {
    pub fn new() -> (r: Trigger)
        ensures
            r@ == (TriggerState { armed: false, closed: false }),
    {
        Trigger { armed: false, closed: false }
    }

    /// Asks for one more pass of the stage; safe to call any number of times.
    pub fn signal(&mut self)
        ensures
            final(self)@ == signal_spec(old(self)@),
    {
        self.armed = true;
    }

    /// Closes the trigger; the consumer stops once it next listens.
    pub fn close(&mut self)
        ensures
            final(self)@ == (TriggerState { armed: old(self)@.armed, closed: true }),
    {
        self.closed = true;
    }

    /// Consumes the waiting wakeup, if any.
    pub fn listen(&mut self) -> (r: Wakeup)
        ensures
            (r, final(self)@) == listen_spec(old(self)@),
    {
        if self.closed {
            Wakeup::Closed
        } else if self.armed {
            self.armed = false;
            Wakeup::Run
        } else {
            Wakeup::Idle
        }
    }
}

/// Signals coalesce: after any number `n >= 1` of signals on an open
/// trigger, listening yields exactly one `Run`, and listening again yields
/// `Idle` until a new signal arrives.
pub proof fn lemma_signals_coalesce(t: TriggerState, n: nat)
    requires
        n >= 1,
        !t.closed,
    ensures
        listen_spec(signal_times(t, n)).0 == Wakeup::Run,
        listen_spec(listen_spec(signal_times(t, n)).1).0 == Wakeup::Idle,
    decreases n,
{
    if n > 1 {
        lemma_signals_coalesce(t, (n - 1) as nat);
    }
    lemma_signal_keeps_open(t, n);
}

proof fn lemma_signal_keeps_open(t: TriggerState, n: nat)
    ensures
        signal_times(t, n).closed == t.closed,
        n >= 1 ==> signal_times(t, n).armed,
    decreases n,
{
    if n > 0 {
        lemma_signal_keeps_open(t, (n - 1) as nat);
    }
}

/// What a consumer does once a pass of its stage has finished.
#[derive(Clone, Copy, Debug, PartialEq, Eq, Structural)]
pub struct PassFollowUp {
    /// Re-fire the stage's own trigger, so that it runs again promptly.
    pub trigger_self: bool,
    /// Fire the trigger of the downstream stage.
    pub trigger_downstream: bool,
    /// Report that the consumer's first pass has completed.
    pub notify_first: bool,
}

/// The loop state of one stage's consumer.
pub struct QueueConsumer {
    pub first_pass_done: bool,
    pub stopped: bool,
}

impl QueueConsumer {
    pub fn new() -> (r: QueueConsumer)
        ensures
            !r.first_pass_done,
            !r.stopped,
    {
        QueueConsumer { first_pass_done: false, stopped: false }
    }

    /// Decides what follows a pass: an incomplete pass re-triggers its own
    /// stage; a complete pass that made progress triggers the downstream
    /// stage; the first pass is reported once.
    pub fn pass_finished(&mut self, result: WorkComplete, progressed: bool) -> (r: PassFollowUp)
        ensures
            r.trigger_self == (result == WorkComplete::Incomplete),
            r.trigger_downstream == (result == WorkComplete::Complete && progressed),
            r.notify_first == !old(self).first_pass_done,
            final(self).first_pass_done,
            final(self).stopped == old(self).stopped,
    {
        let notify_first = !self.first_pass_done;
        self.first_pass_done = true;
        PassFollowUp {
            trigger_self: result == WorkComplete::Incomplete,
            trigger_downstream: result == WorkComplete::Complete && progressed,
            notify_first,
        }
    }

    /// Decides, from what listening gave, whether to run a pass; a closed
    /// trigger stops the consumer for good.
    pub fn woken(&mut self, w: Wakeup) -> (run: bool)
        ensures
            run == (w == Wakeup::Run && !old(self).stopped),
            final(self).stopped == (old(self).stopped || w == Wakeup::Closed),
            final(self).first_pass_done == old(self).first_pass_done,
    {
        if w == Wakeup::Closed {
            self.stopped = true;
        }
        w == Wakeup::Run && !self.stopped
    }
}

} // verus!
