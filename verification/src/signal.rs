//! What a signal to the supervisor does to the supervised child.

use vstd::prelude::*;

verus! {

/// The signals that are passed on.
#[derive(Clone, Copy, Debug, PartialEq, Eq, Structural)]
pub enum Signal {
    Interrupt,
    Terminate,
}

/// Something to do about a signal.
#[derive(Clone, Copy, Debug, PartialEq, Eq, Structural)]
pub enum Action {
    /// Request the shutdown: no child is to be started any more.
    MarkShutdown,
    /// Send the signal to the process. Whether that succeeds makes no
    /// difference.
    Send { pid: i32, signal: Signal },
}

/// How far the handling of a signal has come.
#[derive(Clone, Copy, Debug, PartialEq, Eq, Structural)]
pub enum Stage {
    Received,
    Marked,
    Done,
}

/// A signal that is being handled.
#[derive(Clone, Copy, Debug, PartialEq, Eq, Structural)]
pub struct Handling {
    pub signal: Signal,
    pub stage: Stage,
}

/// What is next to do about a signal, if anything, given the child's process
/// ID, which is 0 while none is running: the shutdown is requested in any case,
/// and after that a running child is sent the same signal.
pub open spec fn next_action(handling: Handling, current_pid: i32) -> Option<Action> {
    match handling.stage {
        Stage::Received => Some(Action::MarkShutdown),
        Stage::Marked => if current_pid > 0 {
            Some(Action::Send { pid: current_pid, signal: handling.signal })
        } else {
            None
        },
        Stage::Done => None,
    }
}

/// How far the handling has come then.
pub open spec fn next_stage(stage: Stage) -> Stage {
    match stage {
        Stage::Received => Stage::Marked,
        _ => Stage::Done,
    }
}

impl Handling {
    /// A signal that has just been received.
    pub fn new(signal: Signal) -> (r: Handling)
        ensures
            r == (Handling { signal, stage: Stage::Received }),
    {
        Handling { signal, stage: Stage::Received }
    }

    /// Says what is next to do, given the child's process ID as it is now;
    /// `None` once everything is done.
    pub fn step(&mut self, current_pid: i32) -> (r: Option<Action>)
        ensures
            r == next_action(*old(self), current_pid),
            final(self).signal == old(self).signal,
            final(self).stage == next_stage(old(self).stage),
    {
        match self.stage {
            Stage::Received => {
                self.stage = Stage::Marked;
                Some(Action::MarkShutdown)
            },
            Stage::Marked => {
                self.stage = Stage::Done;
                if current_pid > 0 {
                    Some(Action::Send { pid: current_pid, signal: self.signal })
                } else {
                    None
                }
            },
            Stage::Done => None,
        }
    }
}

/// Everything that is done about a signal, in order, where each step finds the
/// next of the process IDs in `pids`.
pub open spec fn actions(handling: Handling, pids: Seq<i32>) -> Seq<Action>
    decreases pids.len(),
{
    if pids.len() == 0 {
        seq![]
    } else {
        match next_action(handling, pids[0]) {
            Some(action) => seq![action] + actions(
                Handling { signal: handling.signal, stage: next_stage(handling.stage) },
                pids.skip(1),
            ),
            None => seq![],
        }
    }
}

/// A received signal has exactly these effects, in this order: the shutdown is
/// requested, and then, if a child is running at that time, the very signal is
/// sent to it, once.
pub proof fn law_shutdown_comes_before_the_signal(signal: Signal, pids: Seq<i32>)
    requires
        pids.len() >= 3,
    ensures
        actions(Handling { signal, stage: Stage::Received }, pids) == if pids[1] > 0 {
            seq![Action::MarkShutdown, Action::Send { pid: pids[1], signal }]
        } else {
            seq![Action::MarkShutdown]
        },
{
    reveal_with_fuel(actions, 4);
    let rest = pids.skip(1);
    assert(rest[0] == pids[1]);
    assert(rest.skip(1).len() > 0);
    assert(actions(Handling { signal, stage: Stage::Received }, pids) =~= if pids[1] > 0 {
        seq![Action::MarkShutdown, Action::Send { pid: pids[1], signal }]
    } else {
        seq![Action::MarkShutdown]
    });
}

/// A signal that was sent, and whether the shutdown had been requested by then.
pub struct Sent {
    pub pid: i32,
    pub signal: Signal,
    pub after_shutdown: bool,
}

/// What the handling of signals acts on.
pub struct World {
    pub shutdown: bool,
    pub current_pid: i32,
    pub sent: Seq<Sent>,
}

/// What an action leads to.
pub open spec fn performed(world: World, action: Action) -> World {
    match action {
        Action::MarkShutdown => World { shutdown: true, ..world },
        Action::Send { pid, signal } => World {
            sent: world.sent.push(Sent { pid, signal, after_shutdown: world.shutdown }),
            ..world
        },
    }
}

/// What a row of actions leads to.
pub open spec fn performed_all(world: World, actions: Seq<Action>) -> World
    decreases actions.len(),
{
    if actions.len() == 0 {
        world
    } else {
        performed(performed_all(world, actions.drop_last()), actions.last())
    }
}

/// A signal that arrives, and the process IDs that its handling finds.
pub struct Arrival {
    pub signal: Signal,
    pub pids: Seq<i32>,
}

/// What a row of signals leads to.
pub open spec fn handled(world: World, arrivals: Seq<Arrival>) -> World
    decreases arrivals.len(),
{
    if arrivals.len() == 0 {
        world
    } else {
        performed_all(
            handled(world, arrivals.drop_last()),
            actions(
                Handling { signal: arrivals.last().signal, stage: Stage::Received },
                arrivals.last().pids,
            ),
        )
    }
}

/// The signals that are passed on: each that finds a child running once the
/// shutdown is requested, to that child.
pub open spec fn forwarded(arrivals: Seq<Arrival>) -> Seq<Sent>
    decreases arrivals.len(),
{
    if arrivals.len() == 0 {
        seq![]
    } else {
        let before = forwarded(arrivals.drop_last());
        let pid = arrivals.last().pids[1];
        if pid > 0 {
            before.push(Sent { pid, signal: arrivals.last().signal, after_shutdown: true })
        } else {
            before
        }
    }
}

/// However many signals arrive, every one of them requests the shutdown and is
/// then sent once to the child that is running, if there is one; nothing else
/// is sent, and the child's process ID stays as it is.
pub proof fn law_every_signal_is_forwarded(world: World, arrivals: Seq<Arrival>)
    requires
        forall|i: int| 0 <= i < arrivals.len() ==> (#[trigger] arrivals[i]).pids.len() >= 3,
    ensures
        handled(world, arrivals).shutdown == (world.shutdown || arrivals.len() > 0),
        handled(world, arrivals).current_pid == world.current_pid,
        handled(world, arrivals).sent == world.sent + forwarded(arrivals),
    decreases arrivals.len(),
{
    if arrivals.len() > 0 {
        let before = arrivals.drop_last();
        let last = arrivals.last();
        assert(last == arrivals[arrivals.len() - 1]);
        assert forall|i: int| 0 <= i < before.len() implies (#[trigger] before[i]).pids.len()
            >= 3 by {
            assert(before[i] == arrivals[i]);
        }
        law_every_signal_is_forwarded(world, before);
        law_shutdown_comes_before_the_signal(last.signal, last.pids);
        let middle = handled(world, before);
        let done = actions(Handling { signal: last.signal, stage: Stage::Received }, last.pids);
        reveal_with_fuel(performed_all, 3);
        assert(done[0] == Action::MarkShutdown);
        if last.pids[1] > 0 {
            assert(done.drop_last() =~= seq![Action::MarkShutdown]);
            assert(done.drop_last().drop_last() =~= seq![]);
        } else {
            assert(done.drop_last() =~= seq![]);
        }
        assert(handled(world, arrivals).sent =~= world.sent + forwarded(arrivals));
    } else {
        assert(world.sent + forwarded(arrivals) =~= world.sent);
    }
}

} // verus!
