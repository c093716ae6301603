//! When the next pass is due, and what the daemon does in between.
use vstd::prelude::*;

verus! {

/// The first second that a calendar date can be given for.
pub const FIRST_SECOND: i64 = -8_334_601_228_800;

/// The last second that a calendar date can be given for.
pub const LAST_SECOND: i64 = 8_210_266_876_799;

/// The first second after the last year that a cron schedule knows.
pub const LAST_CRON_SECOND: i64 = 4_133_980_800;

/// The nanoseconds of a second.
pub const NANOS: u32 = 1_000_000_000;

/// Whether the calendar has this point in time, and the second after it.
pub open spec fn in_calendar(secs: i64, nanos: u32) -> bool {
    FIRST_SECOND <= secs < LAST_SECOND && nanos < NANOS
}

/// What `Schedule::from_str` reports of a cron expression: `None` where it is valid,
/// else the error in words.
pub uninterp spec fn cron_error(expr: Seq<char>) -> Option<Seq<char>>;

/// The first time of the schedule after a point in time, in UTC, as `Schedule::after`
/// gives it: in seconds and nanoseconds of Unix time.
pub uninterp spec fn cron_next(expr: Seq<char>, secs: i64, nanos: u32) -> Option<(i64, u32)>;

/// `cron::Schedule::from_str`: reads the expression, or says why that cannot be done.
/// What it says depends on the expression alone; it is named, not spelled out.
#[verifier::external_body]
fn read_schedule(expr: &str) -> (r: Result<(), String>)
    ensures
        match r {
            Ok(_) => cron_error(expr@) is None,
            Err(e) => cron_error(expr@) == Some(e@),
        },
{
    <cron::Schedule as std::str::FromStr>::from_str(expr).map(|_| ()).map_err(|e| e.to_string())
}

/// `cron::Schedule::after`, of a valid expression and for UTC: the first item of the
/// iterator. It depends on the expression and the time alone; which of the times it
/// is is named, not spelled out. Claimed of it is that it is later than the given
/// time, a whole second, and in the years 1970 to 2100, which are the only ones that
/// a schedule knows.
#[verifier::external_body]
fn first_after(expr: &str, secs: i64, nanos: u32) -> (r: Option<(i64, u32)>)
    requires
        cron_error(expr@) is None,
        in_calendar(secs, nanos),
    ensures
        r == cron_next(expr@, secs, nanos),
        r matches Some(next) ==> next.0 > secs && 0 <= next.0 < LAST_CRON_SECOND && next.1 == 0,
{
    let schedule = <cron::Schedule as std::str::FromStr>::from_str(expr).unwrap();
    let time = chrono::DateTime::<chrono::Utc>::from_timestamp(secs, nanos).unwrap();
    let next = schedule.after(&time).next();
    next.map(|t| (t.timestamp(), t.timestamp_subsec_nanos()))
}

/// A point in time, in seconds and nanoseconds of Unix time, that the calendar has.
#[derive(Debug, Clone, Copy, PartialEq, Eq, Structural)]
pub struct Timestamp {
    secs: i64,
    nanos: u32,
}

impl Timestamp {
    /// The seconds of Unix time.
    pub closed spec fn seconds(self) -> i64 {
        self.secs
    }

    /// The nanoseconds on top of the seconds.
    pub closed spec fn nanoseconds(self) -> u32 {
        self.nanos
    }

    #[verifier::type_invariant]
    closed spec fn is_in_calendar(self) -> bool {
        in_calendar(self.secs, self.nanos)
    }

    /// The nanoseconds of Unix time.
    pub open spec fn total(self) -> int {
        self.seconds() * NANOS + self.nanoseconds()
    }

    /// The point in time, where the calendar has it.
    pub fn new(secs: i64, nanos: u32) -> (r: Option<Timestamp>)
        ensures
            match r {
                Some(t) => in_calendar(secs, nanos) && t.seconds() == secs && t.nanoseconds() == nanos,
                None => !in_calendar(secs, nanos),
            },
    {
        if FIRST_SECOND <= secs && secs < LAST_SECOND && nanos < NANOS {
            Some(Timestamp { secs, nanos })
        } else {
            None
        }
    }

    /// The seconds of Unix time.
    pub fn secs(&self) -> (r: i64)
        ensures
            r == self.seconds(),
    {
        self.secs
    }

    /// The nanoseconds on top of the seconds.
    pub fn nanos(&self) -> (r: u32)
        ensures
            r == self.nanoseconds(),
    {
        self.nanos
    }
}

/// A span of time.
#[derive(Debug, Clone, Copy, PartialEq, Eq, Structural)]
pub struct Wait {
    pub secs: u64,
    pub nanos: u32,
}

impl Wait {
    /// The nanoseconds of the span.
    pub open spec fn total(self) -> int {
        self.secs * NANOS + self.nanos
    }
}

/// How long to sleep until `next`: the time that is left, or one second where `next`
/// has passed already.
pub fn wait_until(next: Timestamp, now: Timestamp) -> (r: Wait)
    ensures
        r.total() == if next.total() >= now.total() {
            next.total() - now.total()
        } else {
            NANOS as int
        },
        r.nanos < NANOS,
{
    proof {
        use_type_invariant(&next);
        use_type_invariant(&now);
    }
    let secs: i64 = next.secs - now.secs;
    if next.nanos >= now.nanos {
        if secs >= 0 {
            return Wait { secs: secs as u64, nanos: next.nanos - now.nanos };
        }
    } else if secs >= 1 {
        return Wait { secs: (secs - 1) as u64, nanos: next.nanos + NANOS - now.nanos };
    }
    Wait { secs: 1, nanos: 0 }
}

/// Why there is no schedule: the expression is not valid.
#[derive(Debug, PartialEq, Eq)]
pub struct ScheduleError {
    pub expr: String,
    pub reason: String,
}

impl ScheduleError {
    /// The error in words.
    pub fn message(&self) -> (r: String)
        ensures
            r@ == "invalid cron expression '"@ + self.expr@ + "': "@ + self.reason@,
    {
        "invalid cron expression '".to_owned().concat(self.expr.as_str()).concat("': ").concat(
            self.reason.as_str(),
        )
    }
}

/// A cron schedule. Its expression is valid.
#[derive(Debug)]
pub struct CronSchedule {
    expr: String,
}

impl View for CronSchedule {
    type V = Seq<char>;

    closed spec fn view(&self) -> Seq<char> {
        self.expr@
    }
}

/// What is due when a pass is over.
#[derive(Debug, Clone, Copy, PartialEq, Eq, Structural)]
pub enum DaemonAction {
    /// Make a pass, with the token-rotation check on startup.
    Reconcile { startup: bool },
    /// Sleep until this time, or until a shutdown signal arrives.
    SleepUntil(Timestamp),
    /// Stop: the schedule yields no upcoming times.
    StopForLackOfTimes,
    /// Stop: a shutdown signal was received.
    StopOnSignal,
}

/// What happened to the daemon.
#[derive(Debug, Clone, Copy, PartialEq, Eq, Structural)]
pub enum DaemonEvent {
    /// It was started.
    Started,
    /// A pass is over, whether it succeeded or failed; it is now this time.
    PassOver(Timestamp),
    /// It has slept until the time was reached.
    Ticked,
    /// A shutdown signal arrived while it slept.
    Signalled,
}

/// Whether the action is to sleep until the time that `next` gives, or to stop for
/// lack of one.
pub open spec fn sleeps_until(action: DaemonAction, next: Option<(i64, u32)>) -> bool {
    match next {
        Some((secs, nanos)) => {
            action matches DaemonAction::SleepUntil(t) && t.seconds() == secs && t.nanoseconds() == nanos
        },
        None => action is StopForLackOfTimes,
    }
}

/// Whether the action is due on this event, under the schedule of this expression.
pub open spec fn is_due(expr: Seq<char>, event: DaemonEvent, action: DaemonAction) -> bool {
    match event {
        DaemonEvent::Started => action == (DaemonAction::Reconcile { startup: true }),
        DaemonEvent::PassOver(now) => sleeps_until(
            action,
            cron_next(expr, now.seconds(), now.nanoseconds()),
        ),
        DaemonEvent::Ticked => action == (DaemonAction::Reconcile { startup: false }),
        DaemonEvent::Signalled => action is StopOnSignal,
    }
}

/// What the daemon does between two passes, given the next time of its schedule.
pub fn sleep_until_next(next: Option<Timestamp>) -> (r: DaemonAction)
    ensures
        match next {
            Some(t) => r == DaemonAction::SleepUntil(t),
            None => r is StopForLackOfTimes,
        },
{
    match next {
        Some(t) => DaemonAction::SleepUntil(t),
        None => DaemonAction::StopForLackOfTimes,
    }
}

impl CronSchedule {
    #[verifier::type_invariant]
    closed spec fn is_valid(self) -> bool {
        cron_error(self.expr@) is None
    }

    /// Reads a cron expression.
    pub fn parse(expr: &str) -> (r: Result<CronSchedule, ScheduleError>)
        ensures
            match r {
                Ok(schedule) => cron_error(expr@) is None && schedule@ == expr@,
                Err(e) => e.expr@ == expr@ && cron_error(expr@) == Some(e.reason@),
            },
    {
        match read_schedule(expr) {
            Ok(_) => Ok(CronSchedule { expr: expr.to_owned() }),
            Err(reason) => Err(ScheduleError { expr: expr.to_owned(), reason }),
        }
    }

    /// The first time of the schedule after `time`; it is a later time.
    pub fn next_after(&self, time: Timestamp) -> (r: Option<Timestamp>)
        ensures
            match r {
                Some(t) => {
                    &&& cron_next(self@, time.seconds(), time.nanoseconds()) == Some(
                        (t.seconds(), t.nanoseconds()),
                    )
                    &&& t.total() > time.total()
                },
                None => cron_next(self@, time.seconds(), time.nanoseconds()) is None,
            },
    {
        proof {
            use_type_invariant(self);
            use_type_invariant(&time);
        }
        match first_after(self.expr.as_str(), time.secs, time.nanos) {
            Some((secs, nanos)) => Some(Timestamp { secs, nanos }),
            None => None,
        }
    }
}

/// Run the daemon: one reconcile at startup, then on every cron tick until a
/// shutdown signal arrives. A pass that fails is not fatal. This says what is to be
/// done upon each event.
pub fn run_daemon(schedule: &CronSchedule, event: DaemonEvent) -> (r: DaemonAction)
    ensures
        is_due(schedule@, event, r),
        event matches DaemonEvent::PassOver(now) ==> (r matches DaemonAction::SleepUntil(t) ==> t.total()
            > now.total()),
{
    match event {
        DaemonEvent::Started => DaemonAction::Reconcile { startup: true },
        DaemonEvent::PassOver(now) => sleep_until_next(schedule.next_after(now)),
        DaemonEvent::Ticked => DaemonAction::Reconcile { startup: false },
        DaemonEvent::Signalled => DaemonAction::StopOnSignal,
    }
}

/// A pass is made at the start, with the check of the token, and at every tick, without
/// it. After a pass the daemon sleeps until the next time of its schedule, and where
/// there is none it stops; on a signal it stops.
pub proof fn law_daemon_in_plain_terms(expr: Seq<char>, event: DaemonEvent, action: DaemonAction)
    requires
        is_due(expr, event, action),
    ensures
        event is Started <==> (action matches DaemonAction::Reconcile { startup } && startup),
        event is Ticked <==> (action matches DaemonAction::Reconcile { startup } && !startup),
        event is Signalled <==> action is StopOnSignal,
        event matches DaemonEvent::PassOver(now) ==> match cron_next(expr, now.seconds(), now.nanoseconds()) {
            Some((secs, nanos)) => action matches DaemonAction::SleepUntil(t) && t.seconds() == secs
                && t.nanoseconds() == nanos,
            None => action is StopForLackOfTimes,
        },
{
}

/// Points in time and waits are counted in nanoseconds, and the calendar reaches from the
/// year -262143 to the year 262142.
pub proof fn law_times_are_counted_in_nanoseconds(t: Timestamp, w: Wait, secs: i64, nanos: u32)
    ensures
        t.total() == t.seconds() * 1_000_000_000 + t.nanoseconds(),
        w.total() == w.secs * 1_000_000_000 + w.nanos,
        in_calendar(secs, nanos) <==> -8_334_601_228_800 <= secs < 8_210_266_876_799 && nanos < 1_000_000_000,
{
}

} // verus!
