//! Decides what to do after a supervised child exits: stop, give up, or restart
//! after some backoff delay. Pure decision logic: no process spawning, no
//! sleeping, no clock reads.

use crate::backoff::{
    at_least_one, delay_fits, delay_nanos, delay_seconds, in_double_precision,
    law_delays_never_shrink, next_delay,
};
use crate::binary64::{Binary64, Number};
use crate::time::{fits, to_seconds, Duration};
use vstd::arithmetic::power2::lemma_pow2_pos;
use vstd::prelude::*;

verus! {

/// Whether a clean (exit code 0) run ends supervision, or whether the child is
/// restarted no matter how it exited.
#[derive(Clone, Copy, Debug, PartialEq, Eq, Structural)]
pub enum RestartPolicy {
    OnFailure,
    Always,
}

/// How a child is supervised.
#[derive(Clone, Copy, Debug)]
pub struct Config {
    pub policy: RestartPolicy,
    pub max_restarts: Option<u32>,
    pub backoff_base: Duration,
    pub backoff_max: Duration,
    pub backoff_multiplier: Binary64,
    /// A run that stayed up at least this long counts as stable and resets the
    /// backoff delay to `backoff_base` for the next crash, so that a process
    /// that has been healthy for hours does not inherit a huge delay from a
    /// crash loop it had days ago.
    pub reset_after: Duration,
}

/// What a [`Config`] says, with the spans of time in nanoseconds.
pub struct Settings {
    pub policy: RestartPolicy,
    pub max_restarts: Option<u32>,
    pub backoff_base: nat,
    pub backoff_max: nat,
    pub backoff_multiplier: Number,
    pub reset_after: nat,
}

impl View for Config {
    type V = Settings;

    open spec fn view(&self) -> Settings {
        Settings {
            policy: self.policy,
            max_restarts: self.max_restarts,
            backoff_base: self.backoff_base@,
            backoff_max: self.backoff_max@,
            backoff_multiplier: self.backoff_multiplier@,
            reset_after: self.reset_after@,
        }
    }
}

/// What is counted from one run of the child to the next.
#[derive(Debug)]
pub struct RestartState {
    /// Starts over whenever a run lasted at least `reset_after`; drives the
    /// exponential backoff.
    consecutive_failures: u32,
    /// Never starts over: every restart that was asked for, to be held against
    /// `max_restarts`.
    total_restarts: u32,
}

/// The two counts of a [`RestartState`].
pub struct Counts {
    pub consecutive_failures: nat,
    pub total_restarts: nat,
}

impl View for RestartState {
    type V = Counts;

    closed spec fn view(&self) -> Counts {
        Counts {
            consecutive_failures: self.consecutive_failures as nat,
            total_restarts: self.total_restarts as nat,
        }
    }
}

impl Default for RestartState {
    fn default() -> (r: RestartState)
        ensures
            r@ == (Counts { consecutive_failures: 0, total_restarts: 0 }),
    {
        RestartState { consecutive_failures: 0, total_restarts: 0 }
    }
}

impl RestartState {
    /// No failure is counted that is not counted as a restart, too.
    #[verifier::type_invariant]
    spec fn consistent(self) -> bool {
        self.consecutive_failures <= self.total_restarts
    }

    /// The failures since the last stable run.
    pub fn consecutive_failures(&self) -> (r: u32)
        ensures
            r == self@.consecutive_failures,
            r <= self@.total_restarts,
    {
        proof {
            use_type_invariant(self);
        }
        self.consecutive_failures
    }

    /// The restarts that were asked for so far.
    pub fn total_restarts(&self) -> (r: u32)
        ensures
            r == self@.total_restarts,
            r >= self@.consecutive_failures,
    {
        proof {
            use_type_invariant(self);
        }
        self.total_restarts
    }
}

/// What happens after a run of the child.
#[derive(Debug, PartialEq, Eq, Structural)]
pub enum Decision {
    /// The child exited 0 under `RestartPolicy::OnFailure`: supervision ends
    /// successfully.
    Stop,
    /// `max_restarts` has been reached: supervision ends with failure.
    GiveUp,
    /// Restart the child after this delay.
    Restart(Duration),
}

/// A [`Decision`], with the delay in nanoseconds.
pub enum Choice {
    Stop,
    GiveUp,
    Restart(nat),
}

impl View for Decision {
    type V = Choice;

    open spec fn view(&self) -> Choice {
        match self {
            Decision::Stop => Choice::Stop,
            Decision::GiveUp => Choice::GiveUp,
            Decision::Restart(delay) => Choice::Restart(delay@),
        }
    }
}

/// Whether the exit ends supervision successfully.
pub open spec fn stops(exit_success: bool, settings: Settings) -> bool {
    exit_success && settings.policy == RestartPolicy::OnFailure
}

/// Whether one restart more is too many.
pub open spec fn gives_up(counts: Counts, settings: Settings) -> bool {
    settings.max_restarts matches Some(max) && counts.total_restarts + 1 > max
}

/// The number of the next attempt since the last stable run.
pub open spec fn next_attempt(counts: Counts, uptime: nat, settings: Settings) -> nat {
    if uptime >= settings.reset_after {
        1
    } else {
        counts.consecutive_failures + 1
    }
}

/// What is decided after a run.
pub open spec fn choice(
    counts: Counts,
    exit_success: bool,
    uptime: nat,
    settings: Settings,
) -> Choice {
    if stops(exit_success, settings) {
        Choice::Stop
    } else if gives_up(counts, settings) {
        Choice::GiveUp
    } else {
        Choice::Restart(
            delay_nanos(
                next_attempt(counts, uptime, settings),
                settings.backoff_base,
                settings.backoff_max,
                settings.backoff_multiplier,
            ),
        )
    }
}

/// The counts after a run.
pub open spec fn counted(
    counts: Counts,
    exit_success: bool,
    uptime: nat,
    settings: Settings,
) -> Counts {
    if stops(exit_success, settings) {
        counts
    } else if gives_up(counts, settings) {
        Counts { total_restarts: counts.total_restarts + 1, ..counts }
    } else {
        Counts {
            consecutive_failures: next_attempt(counts, uptime, settings),
            total_restarts: counts.total_restarts + 1,
        }
    }
}

/// Whether the counters and the delay after a run stay in range.
pub open spec fn in_range(
    counts: Counts,
    exit_success: bool,
    uptime: nat,
    settings: Settings,
) -> bool {
    stops(exit_success, settings) || {
        &&& counts.total_restarts < u32::MAX
        &&& gives_up(counts, settings) || fits(
            delay_seconds(
                next_attempt(counts, uptime, settings),
                settings.backoff_base,
                settings.backoff_max,
                settings.backoff_multiplier,
            ),
        )
    }
}

/// Decides what happens next after a child exited, given whether it exited
/// successfully (code 0) and how long it had been running.
pub fn decide(
    state: &mut RestartState,
    exit_success: bool,
    uptime: Duration,
    config: &Config,
) -> (r: Decision)
    requires
        in_range(old(state)@, exit_success, uptime@, config@),
    ensures
        r@ == choice(old(state)@, exit_success, uptime@, config@),
        final(state)@ == counted(old(state)@, exit_success, uptime@, config@),
{
    proof {
        use_type_invariant(&*state);
    }
    if exit_success && config.policy == RestartPolicy::OnFailure {
        return Decision::Stop;
    }
    state.total_restarts = state.total_restarts + 1;
    if let Some(max) = config.max_restarts {
        if state.total_restarts > max {
            return Decision::GiveUp;
        }
    }
    if uptime.as_nanos() >= config.reset_after.as_nanos() {
        state.consecutive_failures = 0;
    }
    state.consecutive_failures = state.consecutive_failures + 1;
    let delay: Duration = next_delay(
        state.consecutive_failures,
        config.backoff_base,
        config.backoff_max,
        config.backoff_multiplier,
    );
    Decision::Restart(delay)
}

/// Whether the counters and the delay after a run stay in range, so that
/// [`decide`] can be asked.
pub fn can_decide(
    state: &RestartState,
    exit_success: bool,
    uptime: Duration,
    config: &Config,
) -> (r: bool)
    ensures
        r == in_range(state@, exit_success, uptime@, config@),
{
    proof {
        use_type_invariant(state);
    }
    if exit_success && config.policy == RestartPolicy::OnFailure {
        return true;
    }
    if state.total_restarts == u32::MAX {
        return false;
    }
    if let Some(max) = config.max_restarts {
        if state.total_restarts + 1 > max {
            return true;
        }
    }
    let attempt: u32 = if uptime.as_nanos() >= config.reset_after.as_nanos() {
        1
    } else {
        state.consecutive_failures + 1
    };
    delay_fits(attempt, config.backoff_base, config.backoff_max, config.backoff_multiplier)
}

/// A run that stayed up at least `reset_after` resets the backoff: the next
/// delay is that of a first attempt, however many failures came before.
pub proof fn law_stable_run_resets_backoff(
    counts: Counts,
    exit_success: bool,
    uptime: nat,
    settings: Settings,
)
    requires
        uptime >= settings.reset_after,
        choice(counts, exit_success, uptime, settings) is Restart,
    ensures
        choice(counts, exit_success, uptime, settings) == Choice::Restart(
            delay_nanos(
                1,
                settings.backoff_base,
                settings.backoff_max,
                settings.backoff_multiplier,
            ),
        ),
        counted(counts, exit_success, uptime, settings).consecutive_failures == 1,
{
}

/// With a multiplier of 1 or more, the delay after a short run is no shorter
/// than that of the attempt before it.
pub proof fn law_backoff_grows_with_failures(
    counts: Counts,
    exit_success: bool,
    uptime: nat,
    settings: Settings,
)
    requires
        uptime < settings.reset_after,
        choice(counts, exit_success, uptime, settings) is Restart,
        at_least_one(settings.backoff_multiplier),
        in_double_precision(settings.backoff_multiplier),
    ensures
        choice(counts, exit_success, uptime, settings)->Restart_0 >= delay_nanos(
            counts.consecutive_failures,
            settings.backoff_base,
            settings.backoff_max,
            settings.backoff_multiplier,
        ),
{
    law_delays_never_shrink(
        counts.consecutive_failures,
        settings.backoff_base,
        settings.backoff_max,
        settings.backoff_multiplier,
    );
}

/// Supervision ends successfully exactly on a clean exit under
/// `RestartPolicy::OnFailure`, and nothing is counted then; under
/// `RestartPolicy::Always` it never does.
pub proof fn law_only_a_clean_exit_stops(
    counts: Counts,
    exit_success: bool,
    uptime: nat,
    settings: Settings,
)
    ensures
        choice(counts, exit_success, uptime, settings) is Stop <==> exit_success
            && settings.policy == RestartPolicy::OnFailure,
        choice(counts, exit_success, uptime, settings) is Stop ==> counted(
            counts,
            exit_success,
            uptime,
            settings,
        ) == counts,
{
}

/// How a run of the child ended.
pub struct Exit {
    pub success: bool,
    pub uptime: nat,
}

/// The counts after a row of runs.
pub open spec fn counted_all(counts: Counts, exits: Seq<Exit>, settings: Settings) -> Counts
    decreases exits.len(),
{
    if exits.len() == 0 {
        counts
    } else {
        let exit = exits.last();
        counted(
            counted_all(counts, exits.drop_last(), settings),
            exit.success,
            exit.uptime,
            settings,
        )
    }
}

/// Every restart is counted, stable runs or not, and the failures in a row are
/// never more than the restarts.
pub proof fn law_total_restarts_never_resets(counts: Counts, exits: Seq<Exit>, settings: Settings)
    requires
        counts.consecutive_failures <= counts.total_restarts,
        forall|i: int| 0 <= i < exits.len() ==> !stops(#[trigger] exits[i].success, settings),
    ensures
        counted_all(counts, exits, settings).total_restarts == counts.total_restarts + exits.len(),
        counted_all(counts, exits, settings).consecutive_failures <= counted_all(
            counts,
            exits,
            settings,
        ).total_restarts,
    decreases exits.len(),
{
    if exits.len() > 0 {
        let before = exits.drop_last();
        assert forall|i: int| 0 <= i < before.len() implies !stops(
            #[trigger] before[i].success,
            settings,
        ) by {
            assert(before[i] == exits[i]);
        }
        assert(!stops(exits[exits.len() - 1].success, settings));
        law_total_restarts_never_resets(counts, before, settings);
    }
}

/// Short runs in a row count up one by one, and so each of them waits for the
/// delay of the next attempt.
pub proof fn law_short_runs_count_up(
    counts: Counts,
    exits: Seq<Exit>,
    exit: Exit,
    settings: Settings,
)
    requires
        forall|i: int|
            0 <= i < exits.len() ==> {
                let before = #[trigger] exits[i];
                !stops(before.success, settings) && before.uptime < settings.reset_after
            },
        !stops(exit.success, settings),
        exit.uptime < settings.reset_after,
        settings.max_restarts matches Some(max) ==> counts.total_restarts + exits.len() < max,
    ensures
        counted_all(counts, exits, settings) == (Counts {
            consecutive_failures: counts.consecutive_failures + exits.len(),
            total_restarts: counts.total_restarts + exits.len(),
        }),
        choice(counted_all(counts, exits, settings), exit.success, exit.uptime, settings)
            == Choice::Restart(
            delay_nanos(
                counts.consecutive_failures + exits.len() + 1,
                settings.backoff_base,
                settings.backoff_max,
                settings.backoff_multiplier,
            ),
        ),
    decreases exits.len(),
{
    if exits.len() > 0 {
        let before = exits.drop_last();
        let last = exits.last();
        assert(last == exits[exits.len() - 1]);
        assert forall|i: int| 0 <= i < before.len() implies {
            let e = #[trigger] before[i];
            !stops(e.success, settings) && e.uptime < settings.reset_after
        } by {
            assert(before[i] == exits[i]);
        }
        law_short_runs_count_up(counts, before, last, settings);
    }
}

/// `max_restarts` restarts are made, and no more: from a fresh start, the
/// supervisor gives up on an exit that asks for a restart exactly if that many
/// came before it.
pub proof fn law_gives_up_after_max_restarts(
    exits: Seq<Exit>,
    success: bool,
    uptime: nat,
    settings: Settings,
    max: u32,
)
    requires
        settings.max_restarts == Some(max),
        forall|i: int| 0 <= i < exits.len() ==> !stops(#[trigger] exits[i].success, settings),
        !stops(success, settings),
    ensures
        choice(
            counted_all(
                Counts { consecutive_failures: 0, total_restarts: 0 },
                exits,
                settings,
            ),
            success,
            uptime,
            settings,
        ) is GiveUp <==> exits.len() >= max,
{
    law_total_restarts_never_resets(
        Counts { consecutive_failures: 0, total_restarts: 0 },
        exits,
        settings,
    );
}

/// Without `max_restarts`, the supervisor never gives up.
pub proof fn law_unlimited_restarts_by_default(
    counts: Counts,
    exit_success: bool,
    uptime: nat,
    settings: Settings,
)
    requires
        settings.max_restarts is None,
    ensures
        !(choice(counts, exit_success, uptime, settings) is GiveUp),
{
}

/// Where `backoff_max` fits in a span of time once it is rounded to
/// double-precision seconds, only the count of restarts can run out of range.
pub proof fn law_capped_delays_stay_in_range(
    counts: Counts,
    exit_success: bool,
    uptime: nat,
    settings: Settings,
)
    requires
        fits(to_seconds(settings.backoff_max)),
        counts.total_restarts < u32::MAX,
    ensures
        in_range(counts, exit_success, uptime, settings),
{
    lemma_pow2_pos(1074);
}

/// What is decided, exit by exit: a clean exit stops under
/// `RestartPolicy::OnFailure` only; any other exit gives up if as many restarts
/// as are allowed have been counted; and if not, the delay is that of an attempt
/// numbered by the failures in a row, this one included, where a run of
/// `reset_after` or more starts the row over.
pub proof fn law_every_exit_is_decided(
    counts: Counts,
    exit_success: bool,
    uptime: nat,
    settings: Settings,
)
    ensures
        ({
            let clean = exit_success && settings.policy == RestartPolicy::OnFailure;
            let spent = settings.max_restarts matches Some(max) && counts.total_restarts >= max;
            let row: nat = if uptime < settings.reset_after {
                counts.consecutive_failures + 1
            } else {
                1
            };
            let decided = choice(counts, exit_success, uptime, settings);
            &&& decided is Stop <==> clean
            &&& decided is GiveUp <==> !clean && spent
            &&& decided matches Choice::Restart(delay) ==> delay == delay_nanos(
                row,
                settings.backoff_base,
                settings.backoff_max,
                settings.backoff_multiplier,
            )
        }),
{
}

/// What is counted, exit by exit: nothing on a stop; every other exit is one
/// more restart; and only an exit that is followed by a restart counts as a
/// failure in the row.
pub proof fn law_every_exit_is_counted(
    counts: Counts,
    exit_success: bool,
    uptime: nat,
    settings: Settings,
)
    ensures
        match choice(counts, exit_success, uptime, settings) {
            Choice::Stop => counted(counts, exit_success, uptime, settings) == counts,
            Choice::GiveUp => counted(counts, exit_success, uptime, settings) == (Counts {
                consecutive_failures: counts.consecutive_failures,
                total_restarts: counts.total_restarts + 1,
            }),
            Choice::Restart(delay) => counted(counts, exit_success, uptime, settings) == (Counts {
                consecutive_failures: if uptime < settings.reset_after {
                    counts.consecutive_failures + 1
                } else {
                    1
                },
                total_restarts: counts.total_restarts + 1,
            }),
        },
{
}

/// A decision can be asked for exactly if a restart that has to be counted can
/// be, and a delay that has to be waited for fits in a span of time.
pub proof fn law_range_is_what_is_needed(
    counts: Counts,
    exit_success: bool,
    uptime: nat,
    settings: Settings,
)
    ensures
        in_range(counts, exit_success, uptime, settings) <==> match choice(
            counts,
            exit_success,
            uptime,
            settings,
        ) {
            Choice::Stop => true,
            Choice::GiveUp => counts.total_restarts < 0xffff_ffff,
            Choice::Restart(delay) => counts.total_restarts < 0xffff_ffff && fits(
                delay_seconds(
                    counted(counts, exit_success, uptime, settings).consecutive_failures,
                    settings.backoff_base,
                    settings.backoff_max,
                    settings.backoff_multiplier,
                ),
            ),
        },
{
}

/// A decision and a configuration say what they hold.
pub proof fn law_decisions_say_what_they_hold(decision: Decision, config: Config)
    ensures
        decision is Stop <==> decision@ is Stop,
        decision is GiveUp <==> decision@ is GiveUp,
        decision matches Decision::Restart(delay) ==> decision@ == Choice::Restart(delay@),
        config@.policy == config.policy,
        config@.max_restarts == config.max_restarts,
        config@.backoff_base == config.backoff_base@,
        config@.backoff_max == config.backoff_max@,
        config@.backoff_multiplier == config.backoff_multiplier@,
        config@.reset_after == config.reset_after@,
{
}

} // verus!
