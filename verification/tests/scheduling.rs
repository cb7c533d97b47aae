use video_merger::clock::{current_utc_hour_key, next_trigger_from_clock, today_date_key};
use video_merger::sched::{
    next_trigger, parse_schedule, scheduler_step, SchedulerAction, SchedulerEvent, SchedulerState,
};

#[test]
fn schedule_times_parse() {
    assert_eq!(parse_schedule("02:30"), Some((2, 30)));
    assert_eq!(parse_schedule("00:00"), Some((0, 0)));
    assert_eq!(parse_schedule("23:59"), Some((23, 59)));
    assert_eq!(parse_schedule("7:5"), Some((7, 5)));
    assert_eq!(parse_schedule("0023:05"), Some((23, 5)));
}

#[test]
fn bad_schedule_times_are_rejected() {
    assert_eq!(parse_schedule("24:00"), None);
    assert_eq!(parse_schedule("02:60"), None);
    assert_eq!(parse_schedule("0230"), None);
    assert_eq!(parse_schedule("02:30:00"), None);
    assert_eq!(parse_schedule("02:"), None);
    assert_eq!(parse_schedule(":30"), None);
    assert_eq!(parse_schedule("0a:30"), None);
    assert_eq!(parse_schedule(""), None);
    assert_eq!(parse_schedule("121212121212:00"), None);
}

#[test]
fn next_trigger_is_today_or_tomorrow() {
    // 08:00 with the trigger at 10:00: fire today, sleep two hours.
    assert_eq!(next_trigger(8 * 3600, 10 * 3600), (10 * 3600, 2 * 3600));
    // 12:00 with the trigger at 10:00: fire tomorrow.
    assert_eq!(next_trigger(12 * 3600, 10 * 3600), (10 * 3600 + 86400, 22 * 3600));
    // Exactly at the trigger: fire tomorrow, a full day away.
    assert_eq!(next_trigger(10 * 3600, 10 * 3600), (10 * 3600 + 86400, 86400));
}

#[test]
fn scheduler_alternates_idle_and_running() {
    let (st, act) = scheduler_step(SchedulerState::Idle, SchedulerEvent::TriggerReached);
    assert_eq!(st, SchedulerState::Running);
    assert_eq!(act, SchedulerAction::StartPass);
    let (st, act) = scheduler_step(st, SchedulerEvent::PassFinished { ok: true });
    assert_eq!(st, SchedulerState::Idle);
    assert_eq!(act, SchedulerAction::ComputeNextTrigger);
}

#[test]
fn scheduler_survives_a_failed_pass() {
    let (st, _) = scheduler_step(
        SchedulerState::Running,
        SchedulerEvent::PassFinished { ok: false },
    );
    assert_eq!(st, SchedulerState::Idle);
    // And it is ready to trigger again.
    let (st, act) = scheduler_step(st, SchedulerEvent::TriggerReached);
    assert_eq!(st, SchedulerState::Running);
    assert_eq!(act, SchedulerAction::StartPass);
}

#[test]
fn clock_yields_well_formed_keys() {
    let today = today_date_key().unwrap();
    assert_eq!(today.len(), 8);
    assert!(today.chars().all(|c| c.is_ascii_digit()));
    let hour = current_utc_hour_key().unwrap();
    assert_eq!(hour.len(), 10);
    assert!(hour.chars().all(|c| c.is_ascii_digit()));
    assert_eq!(&hour[..8].len(), &8);
}

#[test]
fn live_trigger_lies_ahead() {
    let (target, sleep) = next_trigger_from_clock(2, 30).unwrap();
    assert!(sleep >= 1);
    assert!(sleep <= 86400 + 7200);
    assert!(target > 0);
}
