//! The decisions of the run loop: what is logged, when the child is started,
//! when and how supervision ends, and how long it sleeps in between. Whoever
//! runs the loop spawns the child, waits for it and sleeps.

use crate::backoff::delay_nanos;
use crate::restart::{
    can_decide, choice, counted, decide, gives_up, in_range, next_attempt, stops, Choice, Config,
    Counts, Decision, RestartPolicy, RestartState, Settings,
};
use crate::text::{
    append_decimal, append_seconds, append_signed, decimal_text, seconds_text, signed_text,
};
use crate::time::Duration;
use vstd::prelude::*;

verus! {

/// How a child ended: with an exit code, or by a signal.
pub open spec fn status_text(code: Option<i32>) -> Seq<char> {
    match code {
        Some(code) => "with code "@ + signed_text(code as int),
        None => "via signal"@,
    }
}

/// The banner before a run.
pub open spec fn starting_text(command: Seq<char>, attempt: nat) -> Seq<char> {
    "starting '"@ + command + "' (attempt "@ + decimal_text(attempt) + ")"@
}

/// The banner after a run.
pub open spec fn exited_text(
    command: Seq<char>,
    pid: nat,
    code: Option<i32>,
    uptime: nat,
) -> Seq<char> {
    "'"@ + command + "' (pid "@ + decimal_text(pid) + ") exited "@ + status_text(code) + " after "@
        + seconds_text(uptime) + "s"@
}

/// The banner when no restart is left.
pub open spec fn giving_up_text(restarts: nat) -> Seq<char> {
    "giving up after "@ + decimal_text(restarts) + " restart(s) (--max-restarts reached)"@
}

/// The banner before a delay.
pub open spec fn restarting_text(delay: nat, failures: nat) -> Seq<char> {
    "restarting in "@ + seconds_text(delay) + "s (consecutive failures: "@ + decimal_text(failures)
        + ")"@
}

/// Says how a child ended.
pub fn describe_status(code: Option<i32>) -> (r: String)
    ensures
        r@ == status_text(code),
{
    let mut r: String = String::new();
    match code {
        Some(code) => {
            r.append("with code ");
            append_signed(&mut r, code);
        },
        None => {
            r.append("via signal");
        },
    }
    assert(r@ =~= status_text(code));
    r
}

/// What the run loop keeps: the command, how to supervise it, and what it has
/// counted.
pub struct Supervisor {
    command: String,
    config: Config,
    state: RestartState,
    attempt: u64,
}

/// What a [`Supervisor`] holds.
pub struct Supervision {
    pub command: Seq<char>,
    pub settings: Settings,
    pub counts: Counts,
    /// The runs started so far.
    pub attempt: nat,
}

impl View for Supervisor {
    type V = Supervision;

    closed spec fn view(&self) -> Supervision {
        Supervision {
            command: self.command@,
            settings: self.config@,
            counts: self.state@,
            attempt: self.attempt as nat,
        }
    }
}

/// What to do before a run: log the banner, and then exit with a code or start
/// the child.
pub enum Begin {
    Exit { banner: String, code: i32 },
    Start { banner: String },
}

/// What to do after a run: log the banner, and then exit with a code or sleep
/// and begin again.
pub enum End {
    Exit { banner: String, code: i32 },
    Sleep { banner: String, delay: Duration },
}

/// What a [`Begin`] says.
pub enum BeginStep {
    Exit { banner: Seq<char>, code: i32 },
    Start { banner: Seq<char> },
}

/// What an [`End`] says, with the delay in nanoseconds.
pub enum EndStep {
    Exit { banner: Seq<char>, code: i32 },
    Sleep { banner: Seq<char>, delay: nat },
}

impl View for Begin {
    type V = BeginStep;

    open spec fn view(&self) -> BeginStep {
        match self {
            Begin::Exit { banner, code } => BeginStep::Exit { banner: banner@, code: *code },
            Begin::Start { banner } => BeginStep::Start { banner: banner@ },
        }
    }
}

impl View for End {
    type V = EndStep;

    open spec fn view(&self) -> EndStep {
        match self {
            End::Exit { banner, code } => EndStep::Exit { banner: banner@, code: *code },
            End::Sleep { banner, delay } => EndStep::Sleep { banner: banner@, delay: delay@ },
        }
    }
}

impl Supervision {
    /// What to do before a run.
    pub open spec fn begin_step(self, shutdown: bool) -> BeginStep {
        if shutdown {
            BeginStep::Exit { banner: "shutdown requested before starting — exiting"@, code: 0 }
        } else {
            BeginStep::Start { banner: starting_text(self.command, self.attempt + 1) }
        }
    }

    /// What is kept from then on.
    pub open spec fn begun(self, shutdown: bool) -> Supervision {
        if shutdown {
            self
        } else {
            Supervision { attempt: self.attempt + 1, ..self }
        }
    }

    /// What to do after a run, once its end has been logged.
    pub open spec fn end_step(self, shutdown: bool, code: Option<i32>, uptime: nat) -> EndStep {
        if shutdown {
            EndStep::Exit {
                banner: "shutdown requested — not restarting"@,
                code: match code {
                    Some(code) => code,
                    None => 1,
                },
            }
        } else {
            match choice(self.counts, code == Some(0i32), uptime, self.settings) {
                Choice::Stop => EndStep::Exit {
                    banner: "exited cleanly — stopping supervision"@,
                    code: 0,
                },
                Choice::GiveUp => EndStep::Exit {
                    banner: giving_up_text(self.settings.max_restarts->0 as nat),
                    code: 1,
                },
                Choice::Restart(delay) => EndStep::Sleep {
                    banner: restarting_text(
                        delay,
                        next_attempt(self.counts, uptime, self.settings),
                    ),
                    delay,
                },
            }
        }
    }

    /// What is kept from then on.
    pub open spec fn ended(self, shutdown: bool, code: Option<i32>, uptime: nat) -> Supervision {
        if shutdown {
            self
        } else {
            Supervision {
                counts: counted(self.counts, code == Some(0i32), uptime, self.settings),
                ..self
            }
        }
    }
}

impl Supervisor {
    /// A loop that has not started anything yet.
    pub fn new(command: &str, config: Config) -> (r: Supervisor)
        ensures
            r@ == (Supervision {
                command: command@,
                settings: config@,
                counts: Counts { consecutive_failures: 0, total_restarts: 0 },
                attempt: 0,
            }),
    {
        Supervisor {
            command: command.to_owned(),
            config,
            state: RestartState::default(),
            attempt: 0,
        }
    }

    /// Decides whether to start the child, given whether a shutdown is
    /// requested.
    pub fn begin(&mut self, shutdown: bool) -> (r: Begin)
        requires
            shutdown || old(self)@.attempt < u64::MAX,
        ensures
            r@ == old(self)@.begin_step(shutdown),
            final(self)@ == old(self)@.begun(shutdown),
    {
        let mut banner: String = String::new();
        if shutdown {
            banner.append("shutdown requested before starting — exiting");
            return Begin::Exit { banner, code: 0 };
        }
        self.attempt = self.attempt + 1;
        banner.append("starting '");
        banner.append(self.command.as_str());
        banner.append("' (attempt ");
        append_decimal(&mut banner, self.attempt as u128);
        banner.append(")");
        assert(banner@ =~= starting_text(self.command@, self.attempt as nat));
        Begin::Start { banner }
    }

    /// The banner for a run that has ended.
    pub fn exit_banner(&self, pid: u32, code: Option<i32>, uptime: Duration) -> (r: String)
        ensures
            r@ == exited_text(self@.command, pid as nat, code, uptime@),
    {
        let mut banner: String = String::new();
        banner.append("'");
        banner.append(self.command.as_str());
        banner.append("' (pid ");
        append_decimal(&mut banner, pid as u128);
        banner.append(") exited ");
        banner.append(describe_status(code).as_str());
        banner.append(" after ");
        append_seconds(&mut banner, uptime);
        banner.append("s");
        assert(banner@ =~= exited_text(self@.command, pid as nat, code, uptime@));
        banner
    }

    /// Decides what follows a run, given whether a shutdown is requested, how
    /// the child ended and how long it had been running.
    pub fn end(&mut self, shutdown: bool, code: Option<i32>, uptime: Duration) -> (r: End)
        requires
            shutdown || in_range(
                old(self)@.counts,
                code == Some(0i32),
                uptime@,
                old(self)@.settings,
            ),
        ensures
            r@ == old(self)@.end_step(shutdown, code, uptime@),
            final(self)@ == old(self)@.ended(shutdown, code, uptime@),
    {
        let mut banner: String = String::new();
        if shutdown {
            banner.append("shutdown requested — not restarting");
            let code: i32 = match code {
                Some(code) => code,
                None => 1,
            };
            return End::Exit { banner, code };
        }
        let exit_success: bool = match code {
            Some(code) => code == 0,
            None => false,
        };
        match decide(&mut self.state, exit_success, uptime, &self.config) {
            Decision::Stop => {
                banner.append("exited cleanly — stopping supervision");
                End::Exit { banner, code: 0 }
            },
            Decision::GiveUp => {
                // The limit that was reached is the number to report: the count
                // of restarts already holds the one that was not made.
                let restarts: u32 = match self.config.max_restarts {
                    Some(max) => max,
                    None => self.state.total_restarts(),
                };
                banner.append("giving up after ");
                append_decimal(&mut banner, restarts as u128);
                banner.append(" restart(s) (--max-restarts reached)");
                assert(banner@ =~= giving_up_text(restarts as nat));
                End::Exit { banner, code: 1 }
            },
            Decision::Restart(delay) => {
                let failures: u32 = self.state.consecutive_failures();
                banner.append("restarting in ");
                append_seconds(&mut banner, delay);
                banner.append("s (consecutive failures: ");
                append_decimal(&mut banner, failures as u128);
                banner.append(")");
                assert(banner@ =~= restarting_text(delay@, failures as nat));
                End::Sleep { banner, delay }
            },
        }
    }

    /// Whether [`Supervisor::end`] can be asked: whether a shutdown is requested,
    /// or the counters and the delay stay in range.
    pub fn can_end(&self, shutdown: bool, code: Option<i32>, uptime: Duration) -> (r: bool)
        ensures
            r == (shutdown || in_range(
                self@.counts,
                code == Some(0i32),
                uptime@,
                self@.settings,
            )),
    {
        let exit_success: bool = match code {
            Some(code) => code == 0,
            None => false,
        };
        shutdown || can_decide(&self.state, exit_success, uptime, &self.config)
    }

    /// The runs started so far.
    pub fn attempt(&self) -> (r: u64)
        ensures
            r == self@.attempt,
    {
        self.attempt
    }

    /// The restarts that were asked for so far.
    pub fn total_restarts(&self) -> (r: u32)
        ensures
            r == self@.counts.total_restarts,
    {
        self.state.total_restarts()
    }
}

/// The longest sleep without a look at whether a shutdown is requested, in
/// nanoseconds: 50 milliseconds.
pub const SLEEP_STEP: u64 = 50_000_000;

/// The next stretch of a sleep: how long to sleep now, and how much is left
/// after it. `None` ends the sleep: nothing is left of it, or a shutdown is
/// requested.
pub fn next_sleep(remaining: Duration, shutdown: bool) -> (r: Option<(Duration, Duration)>)
    ensures
        r is None <==> shutdown || remaining@ == 0,
        r matches Some((now, left)) ==> {
            &&& now@ == if remaining@ < SLEEP_STEP {
                remaining@
            } else {
                SLEEP_STEP as nat
            }
            &&& now@ + left@ == remaining@
            &&& stretches(remaining@) == seq![now@] + stretches(left@)
        },
{
    let nanos: u128 = remaining.as_nanos();
    if shutdown || nanos == 0 {
        return None;
    }
    let now: u128 = if nanos < SLEEP_STEP as u128 {
        nanos
    } else {
        SLEEP_STEP as u128
    };
    assert(stretches(remaining@) =~= seq![now as nat] + stretches((nanos - now) as nat));
    Some((Duration::from_nanos(now), Duration::from_nanos(nanos - now)))
}

/// The stretches that a sleep without interruption takes, in nanoseconds.
pub open spec fn stretches(remaining: nat) -> Seq<nat>
    decreases remaining,
{
    if remaining == 0 {
        seq![]
    } else if remaining < SLEEP_STEP {
        seq![remaining]
    } else {
        seq![SLEEP_STEP as nat] + stretches((remaining - SLEEP_STEP) as nat)
    }
}

/// A sum.
pub open spec fn total(s: Seq<nat>) -> nat
    decreases s.len(),
{
    if s.len() == 0 {
        0
    } else {
        s[0] + total(s.skip(1))
    }
}

/// A sleep without interruption lasts exactly as long as it was to, and never
/// goes on for more than 50 milliseconds without a look at whether a shutdown
/// is requested.
pub proof fn law_sleep_is_whole_and_interruptible(remaining: nat)
    ensures
        total(stretches(remaining)) == remaining,
        forall|i: int|
            0 <= i < stretches(remaining).len() ==> 0 < #[trigger] stretches(remaining)[i]
                <= SLEEP_STEP,
    decreases remaining,
{
    if remaining > 0 {
        let s = stretches(remaining);
        if remaining < SLEEP_STEP {
            assert(s.skip(1) =~= seq![]);
            assert(total(s.skip(1)) == 0);
        } else {
            let rest = stretches((remaining - SLEEP_STEP) as nat);
            law_sleep_is_whole_and_interruptible((remaining - SLEEP_STEP) as nat);
            assert(s.skip(1) =~= rest);
            assert forall|i: int| 0 <= i < s.len() implies 0 < #[trigger] s[i] <= SLEEP_STEP by {
                if i > 0 {
                    assert(s[i] == rest[i - 1]);
                }
            }
        }
    }
}

/// What happens around one run of the child.
pub struct Run {
    /// Whether a shutdown is requested before the run.
    pub shutdown_before: bool,
    pub code: Option<i32>,
    pub uptime: nat,
    /// Whether a shutdown is requested by the time the child has ended.
    pub shutdown_after: bool,
}

/// What comes of a row of runs: how many children were started, and with which
/// code supervision ended, if it has.
pub struct Course {
    pub started: nat,
    pub exit: Option<i32>,
}

impl Supervision {
    /// The course of supervision over the given runs.
    pub open spec fn course(self, runs: Seq<Run>) -> Course
        decreases runs.len(),
    {
        if runs.len() == 0 {
            Course { started: 0, exit: None }
        } else {
            let run = runs[0];
            let running = self.begun(run.shutdown_before);
            match self.begin_step(run.shutdown_before) {
                BeginStep::Exit { code, .. } => Course { started: 0, exit: Some(code) },
                BeginStep::Start { .. } => {
                    let after = run.shutdown_after;
                    match running.end_step(after, run.code, run.uptime) {
                        EndStep::Exit { code, .. } => Course { started: 1, exit: Some(code) },
                        EndStep::Sleep { .. } => {
                            let next = running.ended(after, run.code, run.uptime);
                            let rest = next.course(runs.skip(1));
                            Course { started: rest.started + 1, exit: rest.exit }
                        },
                    }
                },
            }
        }
    }
}

/// With `max_restarts`, no more children are started than the first one and
/// that many more, whatever happens.
pub proof fn law_no_more_starts_than_max_restarts(s: Supervision, runs: Seq<Run>, max: u32)
    requires
        s.settings.max_restarts == Some(max),
        s.counts.total_restarts <= max,
    ensures
        s.course(runs).started <= max - s.counts.total_restarts + 1,
    decreases runs.len(),
{
    if runs.len() > 0 {
        let run = runs[0];
        if !run.shutdown_before && !run.shutdown_after {
            let running = s.begun(false);
            let success = run.code == Some(0i32);
            if choice(running.counts, success, run.uptime, running.settings) is Restart {
                law_no_more_starts_than_max_restarts(
                    running.ended(false, run.code, run.uptime),
                    runs.skip(1),
                    max,
                );
            }
        }
    }
}

/// A child that keeps asking for a restart is started once and then restarted
/// exactly `max_restarts` times; then supervision ends with code 1.
pub proof fn law_gives_up_with_code_one(s: Supervision, runs: Seq<Run>, max: u32)
    requires
        s.settings.max_restarts == Some(max),
        s.counts.total_restarts <= max,
        runs.len() > max - s.counts.total_restarts,
        forall|i: int|
            0 <= i < runs.len() ==> {
                let run = #[trigger] runs[i];
                !run.shutdown_before && !run.shutdown_after && !stops(
                    run.code == Some(0i32),
                    s.settings,
                )
            },
    ensures
        s.course(runs).started == max - s.counts.total_restarts + 1,
        s.course(runs).exit == Some(1i32),
    decreases runs.len(),
{
    let run = runs[0];
    let running = s.begun(false);
    if s.counts.total_restarts < max {
        let next = running.ended(false, run.code, run.uptime);
        let rest = runs.skip(1);
        assert forall|i: int| 0 <= i < rest.len() implies {
            let run = #[trigger] rest[i];
            !run.shutdown_before && !run.shutdown_after && !stops(
                run.code == Some(0i32),
                next.settings,
            )
        } by {
            assert(rest[i] == runs[i + 1]);
        }
        law_gives_up_with_code_one(next, rest, max);
    }
}

/// Without `max_restarts`, a child that keeps asking for a restart is started
/// again and again.
pub proof fn law_unlimited_supervision_goes_on(s: Supervision, runs: Seq<Run>)
    requires
        s.settings.max_restarts is None,
        forall|i: int|
            0 <= i < runs.len() ==> {
                let run = #[trigger] runs[i];
                !run.shutdown_before && !run.shutdown_after && !stops(
                    run.code == Some(0i32),
                    s.settings,
                )
            },
    ensures
        s.course(runs) == (Course { started: runs.len(), exit: None }),
    decreases runs.len(),
{
    if runs.len() > 0 {
        let run = runs[0];
        let next = s.begun(false).ended(false, run.code, run.uptime);
        let rest = runs.skip(1);
        assert forall|i: int| 0 <= i < rest.len() implies {
            let run = #[trigger] rest[i];
            !run.shutdown_before && !run.shutdown_after && !stops(
                run.code == Some(0i32),
                next.settings,
            )
        } by {
            assert(rest[i] == runs[i + 1]);
        }
        law_unlimited_supervision_goes_on(next, rest);
    }
}

/// A child that exits with a code other than 0, or is ended by a signal, is
/// restarted under either policy, as long as restarts are left.
pub proof fn law_failures_are_restarted(s: Supervision, code: Option<i32>, uptime: nat)
    requires
        code != Some(0i32),
        !gives_up(s.counts, s.settings),
    ensures
        s.end_step(false, code, uptime) is Sleep,
{
}

/// A clean exit under `RestartPolicy::OnFailure` ends supervision with code 0,
/// without a restart.
pub proof fn law_clean_exit_is_not_restarted(s: Supervision, runs: Seq<Run>)
    requires
        runs.len() > 0,
        !runs[0].shutdown_before,
        !runs[0].shutdown_after,
        stops(runs[0].code == Some(0i32), s.settings),
    ensures
        s.course(runs) == (Course { started: 1, exit: Some(0i32) }),
{
}

/// A shutdown ends supervision without another start: with code 0 where no
/// child is running, else with the child's exit code, or 1 where a signal
/// ended it.
pub proof fn law_shutdown_ends_supervision(s: Supervision, runs: Seq<Run>)
    requires
        runs.len() > 0,
    ensures
        runs[0].shutdown_before ==> s.course(runs) == (Course { started: 0, exit: Some(0i32) }),
        !runs[0].shutdown_before && runs[0].shutdown_after ==> s.course(runs) == (Course {
            started: 1,
            exit: Some(
                match runs[0].code {
                    Some(code) => code,
                    None => 1i32,
                },
            ),
        }),
{
}

/// Every run that is started gets the next number; neither the command nor the
/// settings ever change.
pub proof fn law_attempts_are_numbered(
    s: Supervision,
    shutdown: bool,
    code: Option<i32>,
    uptime: nat,
)
    ensures
        s.begun(false).attempt == s.attempt + 1,
        s.begin_step(false) == (BeginStep::Start {
            banner: starting_text(s.command, s.begun(false).attempt),
        }),
        s.ended(shutdown, code, uptime).attempt == s.attempt,
        s.begun(shutdown).command == s.command,
        s.begun(shutdown).settings == s.settings,
        s.ended(shutdown, code, uptime).command == s.command,
        s.ended(shutdown, code, uptime).settings == s.settings,
{
}

/// Whenever the loop is to sleep, whatever the exit code and under either
/// policy, it sleeps for the backoff delay of the attempt that is numbered by
/// the failures in a row, this one included, and the banner says just that
/// delay and that number. The row starts over after a run of `reset_after` or
/// more.
pub proof fn law_sleep_is_the_backoff_delay(
    s: Supervision,
    shutdown: bool,
    code: Option<i32>,
    uptime: nat,
)
    ensures
        s.end_step(shutdown, code, uptime) matches EndStep::Sleep { banner, delay } ==> {
            let row: nat = if uptime < s.settings.reset_after {
                s.counts.consecutive_failures + 1
            } else {
                1
            };
            &&& delay == delay_nanos(
                row,
                s.settings.backoff_base,
                s.settings.backoff_max,
                s.settings.backoff_multiplier,
            )
            &&& banner == "restarting in "@ + seconds_text(delay) + "s (consecutive failures: "@
                + decimal_text(row) + ")"@
        },
{
}

/// A run of `reset_after` or more resets the backoff: the sleep after it is that
/// of a first attempt, and one failure is kept, however many came before.
pub proof fn law_stable_run_starts_over(s: Supervision, code: Option<i32>, uptime: nat)
    requires
        uptime >= s.settings.reset_after,
        s.end_step(false, code, uptime) is Sleep,
    ensures
        s.end_step(false, code, uptime)->delay == delay_nanos(
            1,
            s.settings.backoff_base,
            s.settings.backoff_max,
            s.settings.backoff_multiplier,
        ),
        s.ended(false, code, uptime).counts.consecutive_failures == 1,
        s.ended(false, code, uptime).counts.total_restarts == s.counts.total_restarts + 1,
{
}

/// A shorter run goes on with the row: one more failure is kept, and the sleep
/// is that of the attempt with this number.
pub proof fn law_short_run_goes_on(s: Supervision, code: Option<i32>, uptime: nat)
    requires
        uptime < s.settings.reset_after,
        s.end_step(false, code, uptime) is Sleep,
    ensures
        s.ended(false, code, uptime).counts.consecutive_failures == s.counts.consecutive_failures
            + 1,
        s.ended(false, code, uptime).counts.total_restarts == s.counts.total_restarts + 1,
        s.end_step(false, code, uptime)->delay == delay_nanos(
            s.ended(false, code, uptime).counts.consecutive_failures,
            s.settings.backoff_base,
            s.settings.backoff_max,
            s.settings.backoff_multiplier,
        ),
{
}

/// The loop goes on after a run exactly if no shutdown is requested, the exit is
/// not a clean one under `RestartPolicy::OnFailure`, and not as many restarts as
/// are allowed have been counted; if it does not, it ends with the child's code
/// or 1 on a shutdown, with 0 on a clean exit and with 1 when it gives up.
pub proof fn law_end_follows_from_the_exit(
    s: Supervision,
    shutdown: bool,
    code: Option<i32>,
    uptime: nat,
)
    ensures
        ({
            let clean = code == Some(0i32) && s.settings.policy == RestartPolicy::OnFailure;
            let spent = s.settings.max_restarts matches Some(max) && s.counts.total_restarts
                >= max;
            let step = s.end_step(shutdown, code, uptime);
            &&& step is Sleep <==> !shutdown && !clean && !spent
            &&& shutdown ==> step == (EndStep::Exit {
                banner: "shutdown requested — not restarting"@,
                code: match code {
                    Some(code) => code,
                    None => 1i32,
                },
            })
            &&& !shutdown && clean ==> step == (EndStep::Exit {
                banner: "exited cleanly — stopping supervision"@,
                code: 0i32,
            })
            &&& !shutdown && !clean && spent ==> step == (EndStep::Exit {
                banner: "giving up after "@ + decimal_text(s.settings.max_restarts->0 as nat)
                    + " restart(s) (--max-restarts reached)"@,
                code: 1i32,
            })
        }),
{
}

/// Where the loop ends, it keeps what it has counted, but for the restart that
/// it gave up on.
pub proof fn law_end_keeps_the_counts(
    s: Supervision,
    shutdown: bool,
    code: Option<i32>,
    uptime: nat,
)
    requires
        s.end_step(shutdown, code, uptime) is Exit,
    ensures
        s.ended(shutdown, code, uptime).counts.consecutive_failures
            == s.counts.consecutive_failures,
        s.ended(shutdown, code, uptime).counts.total_restarts == s.counts.total_restarts + if
            !shutdown && !(code == Some(0i32) && s.settings.policy == RestartPolicy::OnFailure) {
            1nat
        } else {
            0
        },
{
}

/// A shutdown that is requested before a run ends the loop with code 0, and
/// nothing changes; if none is, the child is started, and counting the start is
/// all that changes.
pub proof fn law_begin_follows_from_the_shutdown(s: Supervision)
    ensures
        s.begin_step(true) == (BeginStep::Exit {
            banner: "shutdown requested before starting — exiting"@,
            code: 0i32,
        }),
        s.begun(true) == s,
        s.begin_step(false) is Start,
        s.begun(false) == (Supervision {
            command: s.command,
            settings: s.settings,
            counts: s.counts,
            attempt: s.attempt + 1,
        }),
{
}

/// The sleeps of a row of short runs that all ask for a restart are those of one
/// attempt after the other, and the run after them goes on with the row.
pub proof fn law_row_of_short_runs(s: Supervision, runs: Seq<Run>)
    requires
        forall|i: int|
            0 <= i < runs.len() ==> {
                let run = #[trigger] runs[i];
                &&& !run.shutdown_after
                &&& run.uptime < s.settings.reset_after
                &&& run.code != Some(0i32) || s.settings.policy == RestartPolicy::Always
            },
        s.settings.max_restarts matches Some(max) ==> s.counts.total_restarts + runs.len() <= max,
    ensures
        s.slept(runs).len() == runs.len(),
        forall|i: int|
            0 <= i < runs.len() ==> #[trigger] s.slept(runs)[i] == delay_nanos(
                s.counts.consecutive_failures + i as nat + 1,
                s.settings.backoff_base,
                s.settings.backoff_max,
                s.settings.backoff_multiplier,
            ),
    decreases runs.len(),
{
    if runs.len() > 0 {
        let run = runs[0];
        let next = s.begun(false).ended(false, run.code, run.uptime);
        let rest = runs.skip(1);
        assert forall|i: int| 0 <= i < rest.len() implies {
            let run = #[trigger] rest[i];
            &&& !run.shutdown_after
            &&& run.uptime < next.settings.reset_after
            &&& run.code != Some(0i32) || next.settings.policy == RestartPolicy::Always
        } by {
            assert(rest[i] == runs[i + 1]);
        }
        law_row_of_short_runs(next, rest);
        let slept = s.slept(runs);
        assert forall|i: int| 0 <= i < runs.len() implies #[trigger] slept[i] == delay_nanos(
            s.counts.consecutive_failures + i as nat + 1,
            s.settings.backoff_base,
            s.settings.backoff_max,
            s.settings.backoff_multiplier,
        ) by {
            if i > 0 {
                assert(slept[i] == next.slept(rest)[i - 1]);
            }
        }
    }
}

impl Supervision {
    /// The sleeps, in nanoseconds, after a row of runs before which no shutdown
    /// is requested.
    pub open spec fn slept(self, runs: Seq<Run>) -> Seq<nat>
        decreases runs.len(),
    {
        if runs.len() == 0 {
            seq![]
        } else {
            let run = runs[0];
            let running = self.begun(false);
            match running.end_step(run.shutdown_after, run.code, run.uptime) {
                EndStep::Exit { .. } => seq![],
                EndStep::Sleep { delay, .. } => seq![delay] + running.ended(
                    run.shutdown_after,
                    run.code,
                    run.uptime,
                ).slept(runs.skip(1)),
            }
        }
    }
}

/// The steps say what they hold.
pub proof fn law_steps_say_what_they_hold(begin: Begin, end: End)
    ensures
        match begin {
            Begin::Exit { banner, code } => begin@ == (BeginStep::Exit { banner: banner@, code }),
            Begin::Start { banner } => begin@ == (BeginStep::Start { banner: banner@ }),
        },
        match end {
            End::Exit { banner, code } => end@ == (EndStep::Exit { banner: banner@, code }),
            End::Sleep { banner, delay } => end@ == (EndStep::Sleep {
                banner: banner@,
                delay: delay@,
            }),
        },
{
}

/// The banner before a run holds the whole command and the number of the
/// attempt.
pub proof fn law_starting_banner_names_its_parts(command: Seq<char>, attempt: nat)
    ensures
        starting_text(command, attempt).take(10) == "starting '"@,
        starting_text(command, attempt).subrange(10, 10 + command.len() as int) == command,
        starting_text(command, attempt).skip(10 + command.len() as int) == "' (attempt "@
            + decimal_text(attempt) + ")"@,
{
    reveal_strlit("starting '");
    let t = starting_text(command, attempt);
    assert(t.take(10) =~= "starting '"@);
    assert(t.subrange(10, 10 + command.len() as int) =~= command);
    assert(t.skip(10 + command.len() as int) =~= "' (attempt "@ + decimal_text(attempt) + ")"@);
}

/// The banner after a run holds the whole command, the child's process ID, how
/// it ended and how long it ran.
pub proof fn law_exited_banner_names_its_parts(
    command: Seq<char>,
    pid: nat,
    code: Option<i32>,
    uptime: nat,
)
    ensures
        exited_text(command, pid, code, uptime).take(1) == "'"@,
        exited_text(command, pid, code, uptime).subrange(1, 1 + command.len() as int) == command,
        exited_text(command, pid, code, uptime).skip(1 + command.len() as int) == "' (pid "@
            + decimal_text(pid) + ") exited "@ + (match code {
            Some(code) => "with code "@ + signed_text(code as int),
            None => "via signal"@,
        }) + " after "@ + seconds_text(uptime) + "s"@,
{
    reveal_strlit("'");
    let t = exited_text(command, pid, code, uptime);
    assert(t.take(1) =~= "'"@);
    assert(t.subrange(1, 1 + command.len() as int) =~= command);
    assert(t.skip(1 + command.len() as int) =~= "' (pid "@ + decimal_text(pid) + ") exited "@
        + status_text(code) + " after "@ + seconds_text(uptime) + "s"@);
}

/// How a child ended is told by its code, or as a signal where it has none.
pub proof fn law_status_names_the_code(code: i32)
    ensures
        status_text(Some(code)).take(10) == "with code "@,
        status_text(Some(code)).skip(10) == signed_text(code as int),
        status_text(None) == "via signal"@,
{
    reveal_strlit("with code ");
    let t = status_text(Some(code));
    assert(t.take(10) =~= "with code "@);
    assert(t.skip(10) =~= signed_text(code as int));
}

/// All stretches of a sleep but the last one are 50 milliseconds long, and the
/// last one is no longer.
pub proof fn law_sleep_is_cut_every_50_milliseconds(remaining: nat)
    ensures
        forall|i: int|
            0 <= i < stretches(remaining).len() - 1 ==> #[trigger] stretches(remaining)[i]
                == 50_000_000,
        stretches(remaining).len() > 0 ==> 0 < stretches(remaining).last() <= 50_000_000,
        stretches(remaining).len() == 0 <==> remaining == 0,
    decreases remaining,
{
    if remaining >= SLEEP_STEP {
        let s = stretches(remaining);
        let rest = stretches((remaining - SLEEP_STEP) as nat);
        law_sleep_is_cut_every_50_milliseconds((remaining - SLEEP_STEP) as nat);
        assert forall|i: int| 0 <= i < s.len() - 1 implies #[trigger] s[i] == 50_000_000 by {
            if i > 0 {
                assert(s[i] == rest[i - 1]);
            }
        }
        if rest.len() > 0 {
            assert(s.last() == rest.last());
        }
    }
}

} // verus!
