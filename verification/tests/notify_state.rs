use rstl::{NextOptions, NextStep, NotifyState, ObservableError, ObservableNotifyError, ObserveOptions, PendingValues, SchedulerHandle, observe_decision};

fn opts(strict: bool, force: bool) -> NextOptions {
    NextOptions { strict, force }
}

#[test]
fn notify_state_immediate_updates_should_advance_tick() {
    let mut s = NotifyState::new(false, false);
    assert_eq!(s.tick(), 0);

    assert_eq!(s.next_step(NextOptions::default(), true), NextStep::Ignore);
    assert_eq!(s.tick(), 0);

    assert_eq!(s.next_step(NextOptions::default(), false), NextStep::NotifyNow(1));
    assert_eq!(s.next_step(opts(true, true), true), NextStep::NotifyNow(2));
    assert_eq!(s.tick(), 2);
    assert!(!s.lagging());
}

#[test]
fn notify_state_disposed_should_refuse_or_ignore_updates() {
    let mut s = NotifyState::new(false, false);
    assert!(s.mark_disposed());
    assert!(!s.mark_disposed());
    assert!(s.is_disposed());

    assert_eq!(
        s.next_step(opts(true, false), false),
        NextStep::Refuse(ObservableError::DisposedUpdate)
    );
    assert_eq!(s.next_step(opts(false, false), false), NextStep::Ignore);
    assert_eq!(s.tick(), 0);
}

#[test]
fn notify_state_delay_without_scheduler_should_be_refused() {
    let mut s = NotifyState::new(true, false);
    assert_eq!(
        s.next_step(NextOptions::default(), false),
        NextStep::Refuse(ObservableError::MissingScheduler)
    );
    assert_eq!(s.tick(), 0);
}

#[test]
fn notify_state_delay_should_hold_and_coalesce() {
    let mut s = NotifyState::new(true, true);

    assert_eq!(s.next_step(NextOptions::default(), false), NextStep::Hold { schedule: true });
    s.scheduled(Some(SchedulerHandle(7)));
    assert_eq!(s.next_step(NextOptions::default(), false), NextStep::Hold { schedule: false });
    assert_eq!(s.next_step(NextOptions::default(), false), NextStep::Hold { schedule: false });
    assert!(s.lagging());

    assert_eq!(s.timer_fired(), Some(3));
    assert!(!s.lagging());
    assert_eq!(s.timer_fired(), None);
}

#[test]
fn notify_state_flush_should_take_pending_once() {
    let mut s = NotifyState::new(true, true);
    assert_eq!(s.next_step(NextOptions::default(), false), NextStep::Hold { schedule: true });
    s.scheduled(Some(SchedulerHandle(1)));

    assert!(s.begin_flush());
    assert!(!s.begin_flush());
    assert_eq!(s.take_pending(false), Some(1));
    assert_eq!(s.take_pending(false), None);
    s.end_flush();
    assert_eq!(s.take_timer(), None);
}

#[test]
fn notify_state_dispose_should_allow_final_flush() {
    let mut s = NotifyState::new(true, true);
    assert_eq!(s.next_step(NextOptions::default(), false), NextStep::Hold { schedule: true });
    s.scheduled(Some(SchedulerHandle(4)));

    assert!(s.mark_disposed());
    assert_eq!(s.take_timer(), Some(SchedulerHandle(4)));
    assert!(s.lagging());
    assert_eq!(s.take_pending(false), None);
    assert_eq!(s.take_pending(true), Some(1));
    assert_eq!(s.timer_fired(), None);
}

#[test]
fn observable_errors_should_render_messages() {
    assert_eq!(
        ObservableError::DisposedUpdate.to_string(),
        "[Observable] cannot update a disposed observable."
    );
    assert_eq!(
        ObservableError::DisposedObserve.to_string(),
        "[Ticker] cannot observe with a disposed ticker."
    );
    assert_eq!(
        ObservableError::MissingScheduler.to_string(),
        "[Observable] scheduler is required when delay > 0."
    );
    assert_eq!(
        ObservableNotifyError::ScheduleFailed.to_string(),
        "[Observable] failed to schedule async notification task."
    );
    assert_eq!(
        ObservableNotifyError::AsyncCallbackPanicked.to_string(),
        "[Observable] async callback panicked."
    );
}

#[test]
fn pending_values_should_keep_first_old_and_last_new() {
    let mut p: PendingValues<i32> = PendingValues::new();
    p.hold(1, 2);
    p.hold(2, 3);
    p.hold(3, 4);
    assert_eq!(p.take(), (Some(4), Some(1)));
    assert_eq!(p.take(), (None, None));
}

#[test]
fn refusal_should_come_before_comparison() {
    let mut s = NotifyState::new(true, false);
    assert_eq!(s.refusal(opts(false, false)), Some(NextStep::Refuse(ObservableError::MissingScheduler)));
    let s2 = NotifyState::new(false, false);
    assert_eq!(s2.refusal(opts(true, false)), None);
    s.mark_disposed();
    assert_eq!(s.refusal(opts(true, false)), Some(NextStep::Refuse(ObservableError::DisposedUpdate)));
    assert_eq!(s.refusal(opts(false, false)), Some(NextStep::Ignore));
}

#[test]
fn observe_decision_should_follow_disposal() {
    assert_eq!(observe_decision(true, false, ObserveOptions { strict: true }), Err(ObservableError::DisposedObserve));
    assert_eq!(observe_decision(true, false, ObserveOptions { strict: false }), Ok(false));
    assert_eq!(observe_decision(false, true, ObserveOptions { strict: true }), Ok(false));
    assert_eq!(observe_decision(false, false, ObserveOptions { strict: false }), Ok(true));
}

#[test]
fn ticker_next_should_add_one_and_wrap() {
    assert_eq!(rstl::ticker_next(0), 1);
    assert_eq!(rstl::ticker_next(41), 42);
    assert_eq!(rstl::ticker_next(u64::MAX), 0);
}
