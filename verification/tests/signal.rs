use keepalive::signal::{Action, Handling, Signal, Stage};

/// Everything that is done about a signal, where each step finds the next of
/// the process IDs.
fn handle(signal: Signal, pids: [i32; 4]) -> Vec<Action> {
    let mut handling = Handling::new(signal);
    let mut done = Vec::new();
    for pid in pids {
        match handling.step(pid) {
            Some(action) => done.push(action),
            None => break,
        }
    }
    assert_eq!(handling, Handling { signal, stage: Stage::Done });
    done
}

#[test]
fn a_running_child_is_sent_the_same_signal() {
    for signal in [Signal::Interrupt, Signal::Terminate] {
        assert_eq!(
            handle(signal, [4242; 4]),
            [Action::MarkShutdown, Action::Send { pid: 4242, signal }]
        );
    }
}

#[test]
fn without_a_child_a_signal_only_ends_supervision() {
    for pid in [0, -1] {
        assert_eq!(handle(Signal::Interrupt, [pid; 4]), [Action::MarkShutdown]);
    }
}

#[test]
fn the_child_that_counts_is_the_one_after_the_shutdown_is_marked() {
    let signal = Signal::Terminate;
    assert_eq!(
        handle(signal, [0, 7, 8, 9]),
        [Action::MarkShutdown, Action::Send { pid: 7, signal }]
    );
    assert_eq!(handle(signal, [7, 0, 8, 9]), [Action::MarkShutdown]);
}

#[test]
fn nothing_follows_a_handled_signal() {
    let mut handling = Handling { signal: Signal::Interrupt, stage: Stage::Done };
    for pid in [0, 1, 4242] {
        assert_eq!(handling.step(pid), None);
        assert_eq!(handling.stage, Stage::Done);
    }
}
