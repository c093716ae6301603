use gitea_mirror_sync::scheduler::{
    run_daemon, sleep_until_next, wait_until, CronSchedule, DaemonAction, DaemonEvent, ScheduleError,
    Timestamp, Wait,
};

fn at(secs: i64, nanos: u32) -> Timestamp {
    Timestamp::new(secs, nanos).unwrap()
}

// 2024-01-01T00:00:00Z
const NEW_YEAR: i64 = 1_704_067_200;

#[test]
fn the_default_schedule_is_hourly() {
    let s = CronSchedule::parse("0 0 * * * *").unwrap();
    assert_eq!(s.next_after(at(NEW_YEAR, 0)), Some(at(NEW_YEAR + 3600, 0)));
    assert_eq!(s.next_after(at(NEW_YEAR - 1, 500)), Some(at(NEW_YEAR, 0)));
    assert_eq!(s.next_after(at(NEW_YEAR + 3599, 999_999_999)), Some(at(NEW_YEAR + 3600, 0)));
}

#[test]
fn times_are_in_utc() {
    let s = CronSchedule::parse("0 30 6 * * *").unwrap();
    assert_eq!(s.next_after(at(NEW_YEAR, 0)), Some(at(NEW_YEAR + 6 * 3600 + 1800, 0)));
}

#[test]
fn an_expression_that_is_not_valid_is_reported() {
    let e = CronSchedule::parse("not a cron").unwrap_err();
    assert_eq!(e.expr, "not a cron");
    assert!(!e.reason.is_empty());
    assert!(e.message().starts_with("invalid cron expression 'not a cron': "));
    assert!(CronSchedule::parse("0 0 * * *").is_err());
    assert!(CronSchedule::parse("0 0 25 * * *").is_err());
    let e = ScheduleError { expr: "x".into(), reason: "why".into() };
    assert_eq!(e.message(), "invalid cron expression 'x': why");
}

#[test]
fn the_daemon_goes_from_pass_to_pass() {
    let s = CronSchedule::parse("0 0 * * * *").unwrap();
    assert_eq!(run_daemon(&s, DaemonEvent::Started), DaemonAction::Reconcile { startup: true });
    assert_eq!(
        run_daemon(&s, DaemonEvent::PassOver(at(NEW_YEAR + 5, 7))),
        DaemonAction::SleepUntil(at(NEW_YEAR + 3600, 0))
    );
    assert_eq!(run_daemon(&s, DaemonEvent::Ticked), DaemonAction::Reconcile { startup: false });
    assert_eq!(run_daemon(&s, DaemonEvent::Signalled), DaemonAction::StopOnSignal);
}

#[test]
fn the_daemon_stops_when_the_schedule_is_over() {
    let s = CronSchedule::parse("0 0 0 1 1 * 1999").unwrap();
    assert_eq!(s.next_after(at(NEW_YEAR, 0)), None);
    assert_eq!(
        run_daemon(&s, DaemonEvent::PassOver(at(NEW_YEAR, 0))),
        DaemonAction::StopForLackOfTimes
    );
    assert_eq!(sleep_until_next(None), DaemonAction::StopForLackOfTimes);
    assert_eq!(sleep_until_next(Some(at(5, 0))), DaemonAction::SleepUntil(at(5, 0)));
}

#[test]
fn the_time_that_is_left() {
    assert_eq!(wait_until(at(10, 0), at(7, 0)), Wait { secs: 3, nanos: 0 });
    assert_eq!(wait_until(at(10, 0), at(7, 250_000_000)), Wait { secs: 2, nanos: 750_000_000 });
    assert_eq!(wait_until(at(10, 5), at(9, 2)), Wait { secs: 1, nanos: 3 });
    assert_eq!(wait_until(at(10, 0), at(10, 0)), Wait { secs: 0, nanos: 0 });
    assert_eq!(wait_until(at(10, 0), at(-10, 0)), Wait { secs: 20, nanos: 0 });
}

#[test]
fn a_time_that_has_passed_is_waited_for_one_second() {
    assert_eq!(wait_until(at(10, 0), at(10, 1)), Wait { secs: 1, nanos: 0 });
    assert_eq!(wait_until(at(10, 0), at(99, 0)), Wait { secs: 1, nanos: 0 });
    assert_eq!(wait_until(at(10, 9), at(11, 0)), Wait { secs: 1, nanos: 0 });
}

#[test]
fn the_calendar_has_bounds() {
    assert!(Timestamp::new(0, 1_000_000_000).is_none());
    assert!(Timestamp::new(i64::MAX, 0).is_none());
    assert!(Timestamp::new(i64::MIN, 0).is_none());
    let first = at(-8_334_601_228_800, 0);
    assert_eq!(first.secs(), -8_334_601_228_800);
    assert!(Timestamp::new(-8_334_601_228_801, 0).is_none());
    let last = at(8_210_266_876_798, 999_999_999);
    assert_eq!(last.nanos(), 999_999_999);
    assert!(Timestamp::new(8_210_266_876_799, 0).is_none());
}

#[test]
fn a_schedule_knows_the_years_1970_to_2100() {
    let s = CronSchedule::parse("* * * * * *").unwrap();
    assert_eq!(s.next_after(at(-8_334_601_228_800, 0)), None);
    assert_eq!(s.next_after(at(-1, 0)), Some(at(0, 0)));
    assert_eq!(s.next_after(at(4_133_980_798, 0)), Some(at(4_133_980_799, 0)));
    assert_eq!(s.next_after(at(4_133_980_799, 0)), None);
    assert_eq!(s.next_after(at(8_210_266_876_798, 999_999_999)), None);
}
