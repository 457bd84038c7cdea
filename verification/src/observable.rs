//! The bookkeeping of an observable value: tick counting, the decision to
//! notify at once or to hold a pending notification for a delayed flush,
//! and disposal. The observer callbacks and the timer are driven by the
//! caller, which performs the step each function answers.
use vstd::prelude::*;
use vstd::string::StringExecFns;

verus! {

/// A timer handed out by a scheduler.
#[derive(Debug, Clone, Copy, PartialEq, Eq, Hash)]
pub struct SchedulerHandle(pub u64);

/// Why an update or an observation was refused.
#[derive(Debug, Clone, PartialEq, Eq)]
pub enum ObservableError {
    DisposedUpdate,
    DisposedObserve,
    MissingScheduler,
}

/// Why a delayed notification went wrong.
#[derive(Debug, Clone, PartialEq, Eq)]
pub enum ObservableNotifyError {
    ScheduleFailed,
    AsyncCallbackPanicked,
}

impl ObservableError {
    /// The error's message.
    pub open spec fn message(&self) -> Seq<char> {
        match *self {
            ObservableError::DisposedUpdate => "[Observable] cannot update a disposed observable."@,
            ObservableError::DisposedObserve => "[Ticker] cannot observe with a disposed ticker."@,
            ObservableError::MissingScheduler => "[Observable] scheduler is required when delay > 0."@,
        }
    }

    /// The error's message as a string.
    pub fn to_string(&self) -> (s: String)
        ensures
            s@ == self.message(),
    {
        match self {
            ObservableError::DisposedUpdate => String::from_str("[Observable] cannot update a disposed observable."),
            ObservableError::DisposedObserve => String::from_str("[Ticker] cannot observe with a disposed ticker."),
            ObservableError::MissingScheduler => String::from_str("[Observable] scheduler is required when delay > 0."),
        }
    }
}

impl ObservableNotifyError {
    /// The error's message.
    pub open spec fn message(&self) -> Seq<char> {
        match *self {
            ObservableNotifyError::ScheduleFailed => "[Observable] failed to schedule async notification task."@,
            ObservableNotifyError::AsyncCallbackPanicked => "[Observable] async callback panicked."@,
        }
    }

    /// The error's message as a string.
    pub fn to_string(&self) -> (s: String)
        ensures
            s@ == self.message(),
    {
        match self {
            ObservableNotifyError::ScheduleFailed => String::from_str("[Observable] failed to schedule async notification task."),
            ObservableNotifyError::AsyncCallbackPanicked => String::from_str("[Observable] async callback panicked."),
        }
    }
}

/// Options of an update.
#[derive(Debug, Clone, Copy, PartialEq, Eq)]
pub struct NextOptions {
    /// Refuse an update of a disposed observable with an error (else ignore it).
    pub strict: bool,
    /// Notify even when the new value equals the current one.
    pub force: bool,
}

impl Default for NextOptions {
    fn default() -> (r: Self)
        ensures
            r.strict && !r.force,
    {
        NextOptions { strict: true, force: false }
    }
}

/// Options of a subscription.
#[derive(Debug, Clone, Copy, PartialEq, Eq)]
pub struct SubscribeOptions {
    /// Call the new subscriber at once with the current value.
    pub replay: bool,
}

impl Default for SubscribeOptions {
    fn default() -> (r: Self)
        ensures
            r.replay,
    {
        SubscribeOptions { replay: true }
    }
}

/// Options of a ticker's observation.
#[derive(Debug, Clone, Copy, PartialEq, Eq)]
pub struct ObserveOptions {
    /// Refuse to observe with a disposed ticker with an error (else do nothing).
    pub strict: bool,
}

impl Default for ObserveOptions {
    fn default() -> (r: Self)
        ensures
            r.strict,
    {
        ObserveOptions { strict: true }
    }
}

/// What an update asks of the caller.
#[derive(Debug, Clone, PartialEq, Eq)]
pub enum NextStep {
    /// The update is refused with this error; nothing changed.
    Refuse(ObservableError),
    /// The update is dropped; nothing changed.
    Ignore,
    /// Store the new value and notify the subscribers now with this tick.
    NotifyNow(u32),
    /// Store the new value and hold the notification (keeping the oldest
    /// unnotified value as its old value); schedule a timer when asked.
    Hold { schedule: bool },
}

/// The values of a held notification: the oldest value the subscribers have
/// not been told was replaced, and the newest value.
pub struct PendingValues<V> {
    pub old: Option<V>,
    pub new: Option<V>,
}

impl<V> PendingValues<V> {
    /// Nothing held.
    pub fn new() -> (r: Self)
        ensures
            r.old is None,
            r.new is None,
    {
        PendingValues { old: None, new: None }
    }

    /// An update replaced `replaced` by `value` while a notification is
    /// held: the first replaced value stays the notification's old value, and
    /// `value` becomes its new value.
    pub fn hold(&mut self, replaced: V, value: V)
        ensures
            final(self).old == (if old(self).old is Some { old(self).old } else { Some(replaced) }),
            final(self).new == Some(value),
    {
        if self.old.is_none() {
            self.old = Some(replaced);
        }
        self.new = Some(value);
    }

    /// Takes the held values, new first, leaving nothing held.
    pub fn take(&mut self) -> (r: (Option<V>, Option<V>))
        ensures
            r == (old(self).new, old(self).old),
            final(self).old is None,
            final(self).new is None,
    {
        let new = self.new.take();
        let old = self.old.take();
        (new, old)
    }
}

/// Whether a ticker links to an observable: refused with `DisposedObserve`
/// when the ticker is disposed and `strict`; skipped (`Ok(false)`) when the
/// ticker is disposed otherwise, or when the observable is; linked
/// (`Ok(true)`) else.
pub fn observe_decision(ticker_disposed: bool, target_disposed: bool, options: ObserveOptions) -> (r: Result<bool, ObservableError>)
    ensures
        ticker_disposed && options.strict ==> r == Err::<bool, ObservableError>(ObservableError::DisposedObserve),
        ticker_disposed && !options.strict ==> r == Ok::<bool, ObservableError>(false),
        !ticker_disposed ==> r == Ok::<bool, ObservableError>(!target_disposed),
{
    if ticker_disposed {
        if options.strict {
            return Err(ObservableError::DisposedObserve);
        }
        return Ok(false);
    }
    Ok(!target_disposed)
}

/// Tick counting and notification bookkeeping of an observable.
pub struct NotifyState {
    tick: u32,
    notify_tick: u32,
    disposed: bool,
    delayed: bool,
    has_scheduler: bool,
    pending: bool,
    pending_tick: u32,
    timer: Option<SchedulerHandle>,
    notifying: bool,
}

/// The value a ticker publishes after `current`: one more, wrapping to 0
/// after `u64::MAX`.
pub fn ticker_next(current: u64) -> (r: u64)
    ensures
        r == (if current == u64::MAX { 0 } else { current + 1 }),
{
    if current == u64::MAX {
        0
    } else {
        current + 1
    }
}

/// The tick after `t`, wrapping to 0 after `u32::MAX`.
pub open spec fn next_tick(t: u32) -> u32 {
    if t == u32::MAX { 0 } else { (t + 1) as u32 }
}

impl NotifyState {
    /// Number of accepted updates, wrapping.
    pub closed spec fn spec_tick(&self) -> u32 {
        self.tick
    }

    /// Tick of the last notification sent.
    pub closed spec fn spec_notify_tick(&self) -> u32 {
        self.notify_tick
    }

    pub closed spec fn spec_disposed(&self) -> bool {
        self.disposed
    }

    /// Notifications wait for a delay.
    pub closed spec fn spec_delayed(&self) -> bool {
        self.delayed
    }

    pub closed spec fn spec_has_scheduler(&self) -> bool {
        self.has_scheduler
    }

    /// A notification is held, for this tick.
    pub closed spec fn spec_pending(&self) -> Option<u32> {
        if self.pending { Some(self.pending_tick) } else { None }
    }

    /// The timer that will flush the held notification.
    pub closed spec fn spec_timer(&self) -> Option<SchedulerHandle> {
        self.timer
    }

    /// A flush is running.
    pub closed spec fn spec_notifying(&self) -> bool {
        self.notifying
    }

    /// Fresh bookkeeping: tick 0, nothing held.
    pub fn new(delayed: bool, has_scheduler: bool) -> (r: Self)
        ensures
            r.spec_tick() == 0,
            r.spec_notify_tick() == 0,
            !r.spec_disposed(),
            r.spec_delayed() == delayed,
            r.spec_has_scheduler() == has_scheduler,
            r.spec_pending() is None,
            r.spec_timer() is None,
            !r.spec_notifying(),
    {
        NotifyState {
            tick: 0,
            notify_tick: 0,
            disposed: false,
            delayed,
            has_scheduler,
            pending: false,
            pending_tick: 0,
            timer: None,
            notifying: false,
        }
    }

    pub fn tick(&self) -> (r: u32)
        ensures
            r == self.spec_tick(),
    {
        self.tick
    }

    pub fn is_disposed(&self) -> (r: bool)
        ensures
            r == self.spec_disposed(),
    {
        self.disposed
    }

    /// Whether an update is refused (or, on a disposed observable without
    /// `strict`, dropped) before its value is compared: the step `next_step`
    /// gives in those cases, or `None` when the update goes on to be compared.
    pub fn refusal(&self, options: NextOptions) -> (r: Option<NextStep>)
        ensures
            self.spec_disposed() ==> r == Some(if options.strict {
                NextStep::Refuse(ObservableError::DisposedUpdate)
            } else {
                NextStep::Ignore
            }),
            !self.spec_disposed() && self.spec_delayed() && !self.spec_has_scheduler() ==>
                r == Some(NextStep::Refuse(ObservableError::MissingScheduler)),
            !self.spec_disposed() && !(self.spec_delayed() && !self.spec_has_scheduler()) ==> r is None,
    {
        if self.disposed {
            if options.strict {
                return Some(NextStep::Refuse(ObservableError::DisposedUpdate));
            }
            return Some(NextStep::Ignore);
        }
        if self.delayed && !self.has_scheduler {
            return Some(NextStep::Refuse(ObservableError::MissingScheduler));
        }
        None
    }

    /// An update arrives; `equal` is the observable's equality of the new and
    /// the current value. Refused on a disposed observable (an error when
    /// `strict`) and on a delayed one without a scheduler; dropped when equal
    /// and not forced; otherwise the tick advances and the notification goes
    /// out now, or is held when notifications are delayed.
    pub fn next_step(&mut self, options: NextOptions, equal: bool) -> (r: NextStep)
        ensures
            old(self).spec_disposed() ==> *final(self) == *old(self) && r == (if options.strict {
                NextStep::Refuse(ObservableError::DisposedUpdate)
            } else {
                NextStep::Ignore
            }),
            !old(self).spec_disposed() && old(self).spec_delayed() && !old(self).spec_has_scheduler() ==>
                *final(self) == *old(self) && r == NextStep::Refuse(ObservableError::MissingScheduler),
            !old(self).spec_disposed() && !(old(self).spec_delayed() && !old(self).spec_has_scheduler())
                && !options.force && equal ==> *final(self) == *old(self) && r == NextStep::Ignore,
            !old(self).spec_disposed() && !(old(self).spec_delayed() && !old(self).spec_has_scheduler())
                && (options.force || !equal) ==> ({
                    let t = next_tick(old(self).spec_tick());
                    &&& final(self).spec_tick() == t
                    &&& final(self).spec_disposed() == old(self).spec_disposed()
                    &&& final(self).spec_delayed() == old(self).spec_delayed()
                    &&& final(self).spec_has_scheduler() == old(self).spec_has_scheduler()
                    &&& final(self).spec_timer() == old(self).spec_timer()
                    &&& final(self).spec_notifying() == old(self).spec_notifying()
                    &&& !old(self).spec_delayed() ==> r == NextStep::NotifyNow(t)
                        && final(self).spec_notify_tick() == t
                        && final(self).spec_pending() == old(self).spec_pending()
                    &&& old(self).spec_delayed() ==> r == (NextStep::Hold { schedule: old(self).spec_timer() is None })
                        && final(self).spec_notify_tick() == old(self).spec_notify_tick()
                        && final(self).spec_pending() == Some(t)
                }),
    {
        if self.disposed {
            if options.strict {
                return NextStep::Refuse(ObservableError::DisposedUpdate);
            }
            return NextStep::Ignore;
        }
        if self.delayed && !self.has_scheduler {
            return NextStep::Refuse(ObservableError::MissingScheduler);
        }
        if !options.force && equal {
            return NextStep::Ignore;
        }
        self.tick = self.tick.wrapping_add(1);
        if !self.delayed {
            self.notify_tick = self.tick;
            return NextStep::NotifyNow(self.tick);
        }
        self.pending = true;
        self.pending_tick = self.tick;
        NextStep::Hold { schedule: self.timer.is_none() }
    }

    /// The scheduler answered: the timer now pending, or `None` when
    /// scheduling failed (the caller then reports the failure and flushes).
    pub fn scheduled(&mut self, handle: Option<SchedulerHandle>)
        ensures
            final(self).spec_timer() == handle,
            final(self).spec_tick() == old(self).spec_tick(),
            final(self).spec_notify_tick() == old(self).spec_notify_tick(),
            final(self).spec_disposed() == old(self).spec_disposed(),
            final(self).spec_delayed() == old(self).spec_delayed(),
            final(self).spec_has_scheduler() == old(self).spec_has_scheduler(),
            final(self).spec_pending() == old(self).spec_pending(),
            final(self).spec_notifying() == old(self).spec_notifying(),
    {
        self.timer = handle;
    }

    /// Starts a flush; answers `false` when one is already running.
    pub fn begin_flush(&mut self) -> (r: bool)
        ensures
            r == !old(self).spec_notifying(),
            final(self).spec_notifying(),
            final(self).spec_tick() == old(self).spec_tick(),
            final(self).spec_notify_tick() == old(self).spec_notify_tick(),
            final(self).spec_disposed() == old(self).spec_disposed(),
            final(self).spec_delayed() == old(self).spec_delayed(),
            final(self).spec_has_scheduler() == old(self).spec_has_scheduler(),
            final(self).spec_pending() == old(self).spec_pending(),
            final(self).spec_timer() == old(self).spec_timer(),
    {
        if self.notifying {
            return false;
        }
        self.notifying = true;
        true
    }

    /// Ends a flush.
    pub fn end_flush(&mut self)
        ensures
            !final(self).spec_notifying(),
            final(self).spec_tick() == old(self).spec_tick(),
            final(self).spec_notify_tick() == old(self).spec_notify_tick(),
            final(self).spec_disposed() == old(self).spec_disposed(),
            final(self).spec_delayed() == old(self).spec_delayed(),
            final(self).spec_has_scheduler() == old(self).spec_has_scheduler(),
            final(self).spec_pending() == old(self).spec_pending(),
            final(self).spec_timer() == old(self).spec_timer(),
    {
        self.notifying = false;
    }

    /// Takes the held notification for the caller to send: its tick, or
    /// `None` when nothing is held or the observable is disposed and
    /// `allow_disposed` is off. Taking it clears the timer and records the
    /// tick as notified.
    pub fn take_pending(&mut self, allow_disposed: bool) -> (r: Option<u32>)
        ensures
            old(self).spec_disposed() && !allow_disposed ==> r is None && *final(self) == *old(self),
            !(old(self).spec_disposed() && !allow_disposed) ==> r == old(self).spec_pending(),
            !(old(self).spec_disposed() && !allow_disposed) && old(self).spec_pending() is None ==> *final(self) == *old(self),
            !(old(self).spec_disposed() && !allow_disposed) && old(self).spec_pending() is Some ==>
                final(self).spec_pending() is None && final(self).spec_timer() is None
                && final(self).spec_notify_tick() == old(self).spec_pending()->Some_0,
            final(self).spec_tick() == old(self).spec_tick(),
            final(self).spec_disposed() == old(self).spec_disposed(),
            final(self).spec_delayed() == old(self).spec_delayed(),
            final(self).spec_has_scheduler() == old(self).spec_has_scheduler(),
            final(self).spec_notifying() == old(self).spec_notifying(),
    {
        if self.disposed && !allow_disposed {
            return None;
        }
        if !self.pending {
            return None;
        }
        self.pending = false;
        self.timer = None;
        self.notify_tick = self.pending_tick;
        Some(self.pending_tick)
    }

    /// The timer fired: the tick of the held notification to send, or `None`
    /// when the observable is disposed (nothing changes) or nothing is held
    /// (the timer is cleared).
    pub fn timer_fired(&mut self) -> (r: Option<u32>)
        ensures
            old(self).spec_disposed() ==> r is None && *final(self) == *old(self),
            !old(self).spec_disposed() ==> r == old(self).spec_pending() && final(self).spec_timer() is None
                && final(self).spec_pending() is None
                && final(self).spec_notify_tick() == (match old(self).spec_pending() {
                    Some(t) => t,
                    None => old(self).spec_notify_tick(),
                }),
            final(self).spec_tick() == old(self).spec_tick(),
            final(self).spec_disposed() == old(self).spec_disposed(),
            final(self).spec_delayed() == old(self).spec_delayed(),
            final(self).spec_has_scheduler() == old(self).spec_has_scheduler(),
            final(self).spec_notifying() == old(self).spec_notifying(),
    {
        if self.disposed {
            return None;
        }
        self.timer = None;
        if !self.pending {
            return None;
        }
        self.pending = false;
        self.notify_tick = self.pending_tick;
        Some(self.pending_tick)
    }

    /// Whether a notification the subscribers have not seen is outstanding
    /// (the last notified tick lags the tick); a subscription or a disposal
    /// flushes it first.
    pub fn lagging(&self) -> (r: bool)
        ensures
            r == (self.spec_notify_tick() < self.spec_tick()),
    {
        self.notify_tick < self.tick
    }

    /// Takes the pending timer for the caller to cancel.
    pub fn take_timer(&mut self) -> (r: Option<SchedulerHandle>)
        ensures
            r == old(self).spec_timer(),
            final(self).spec_timer() is None,
            final(self).spec_tick() == old(self).spec_tick(),
            final(self).spec_notify_tick() == old(self).spec_notify_tick(),
            final(self).spec_disposed() == old(self).spec_disposed(),
            final(self).spec_delayed() == old(self).spec_delayed(),
            final(self).spec_has_scheduler() == old(self).spec_has_scheduler(),
            final(self).spec_pending() == old(self).spec_pending(),
            final(self).spec_notifying() == old(self).spec_notifying(),
    {
        let t = self.timer;
        self.timer = None;
        t
    }

    /// Marks the observable disposed; answers `false` when it already was.
    pub fn mark_disposed(&mut self) -> (r: bool)
        ensures
            r == !old(self).spec_disposed(),
            final(self).spec_disposed(),
            final(self).spec_tick() == old(self).spec_tick(),
            final(self).spec_notify_tick() == old(self).spec_notify_tick(),
            final(self).spec_delayed() == old(self).spec_delayed(),
            final(self).spec_has_scheduler() == old(self).spec_has_scheduler(),
            final(self).spec_pending() == old(self).spec_pending(),
            final(self).spec_timer() == old(self).spec_timer(),
            final(self).spec_notifying() == old(self).spec_notifying(),
    {
        if self.disposed {
            return false;
        }
        self.disposed = true;
        true
    }
}

} // verus!
