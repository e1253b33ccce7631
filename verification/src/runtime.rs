//! The decisions of an interactive runtime driving an interpreter: events,
//! commands, and the pacing state they act on.
//!
//! A driver owns the threads, channels and timers; this module owns what
//! they decide: how a command changes the pacing, and when the interpreter
//! advances a step.

use vstd::prelude::*;

verus! {

/// Either an input event or a simple tick.
pub enum Event<I> {
    Input(I),
    Tick,
}

/// A message for the runtime environment.
///
/// One can tell the runtime to pause or resume, to proceed slower or faster,
/// and, if paused, to execute a single step.
pub enum RuntimeCommand {
    TogglePause,
    Slower,
    Faster,
    Step,
}

/// The slowest pacing: one step per second.
pub const MAX_DELAY_MS: u64 = 1000;

/// The fastest pacing: one step per ten milliseconds.
pub const MIN_DELAY_MS: u64 = 10;

/// The pacing a runtime keeps between commands: the delay between automatic
/// steps, and whether the run advances on its own.
pub struct RuntimePacing {
    pub delay_ms: u64,
    pub running: bool,
}

impl RuntimePacing {
    /// The delay stays between the fastest and the slowest pacing.
    pub open spec fn wf(&self) -> bool {
        MIN_DELAY_MS <= self.delay_ms <= MAX_DELAY_MS
    }

    /// The initial pacing: paused, at a tenth of a second per step.
    pub fn new() -> (r: Self)
        ensures
            r.delay_ms == 100,
            !r.running,
            r.wf(),
    {
        Self { delay_ms: 100, running: false }
    }

    /// Apply one command and say whether the driver must advance the
    /// interpreter one step right now: only a `Step` while paused asks for
    /// that. `Slower` and `Faster` scale the delay by a fifth, held between
    /// the two pacing bounds; `TogglePause` flips whether the run advances
    /// on its own.
    pub fn apply(&mut self, cmd: RuntimeCommand) -> (step_now: bool)
        requires
            old(self).wf(),
        ensures
            final(self).wf(),
            match cmd {
                RuntimeCommand::TogglePause => {
                    &&& final(self).running == !old(self).running
                    &&& final(self).delay_ms == old(self).delay_ms
                    &&& !step_now
                },
                RuntimeCommand::Slower => {
                    &&& old(self).delay_ms + old(self).delay_ms / 5 <= MAX_DELAY_MS ==> final(self).delay_ms == old(self).delay_ms + old(self).delay_ms / 5
                    &&& old(self).delay_ms + old(self).delay_ms / 5 > MAX_DELAY_MS ==> final(self).delay_ms == MAX_DELAY_MS
                    &&& final(self).running == old(self).running
                    &&& !step_now
                },
                RuntimeCommand::Faster => {
                    &&& old(self).delay_ms - old(self).delay_ms / 5 >= MIN_DELAY_MS ==> final(self).delay_ms == old(self).delay_ms - old(self).delay_ms / 5
                    &&& old(self).delay_ms - old(self).delay_ms / 5 < MIN_DELAY_MS ==> final(self).delay_ms == MIN_DELAY_MS
                    &&& final(self).running == old(self).running
                    &&& !step_now
                },
                RuntimeCommand::Step => {
                    &&& *final(self) == *old(self)
                    &&& step_now == !old(self).running
                },
            },
    {
        match cmd {
            RuntimeCommand::TogglePause => {
                self.running = !self.running;
                false
            },
            RuntimeCommand::Slower => {
                let grown = self.delay_ms + self.delay_ms / 5;
                self.delay_ms = if grown <= MAX_DELAY_MS {
                    grown
                } else {
                    MAX_DELAY_MS
                };
                false
            },
            RuntimeCommand::Faster => {
                let shrunk = self.delay_ms - self.delay_ms / 5;
                self.delay_ms = if shrunk >= MIN_DELAY_MS {
                    shrunk
                } else {
                    MIN_DELAY_MS
                };
                false
            },
            RuntimeCommand::Step => !self.running,
        }
    }

    /// Whether a timer tick advances the interpreter one step: only while
    /// the run advances on its own.
    pub fn on_tick(&self) -> (step_now: bool)
        ensures
            step_now == self.running,
    {
        self.running
    }
}

} // verus!
