use cthulu::scheduler::{LoopAction, LoopState, Scheduler};

#[test]
fn enabled_flows_get_one_loop() {
    let mut s = Scheduler::new();
    assert_eq!(s.ensure_flow("a", true), LoopAction::Start);
    assert_eq!(s.ensure_flow("a", true), LoopAction::Nothing);
    assert_eq!(s.ensure_flow("b", false), LoopAction::Nothing);
    assert_eq!(s.state_of("a"), Some(LoopState::Running));
    assert_eq!(s.state_of("b"), None);
}

#[test]
fn restart_waits_for_the_old_loop_to_end() {
    let mut s = Scheduler::new();
    s.ensure_flow("a", true);
    assert_eq!(s.restart_flow("a", true), LoopAction::Cancel);
    assert_eq!(s.state_of("a"), Some(LoopState::Stopping { restart: true }));
    // A second change while the old loop is still ending starts nothing.
    assert_eq!(s.restart_flow("a", true), LoopAction::Nothing);
    assert_eq!(s.ensure_flow("a", true), LoopAction::Nothing);
    assert_eq!(s.loop_ended("a"), LoopAction::Start);
    assert_eq!(s.state_of("a"), Some(LoopState::Running));
}

#[test]
fn restart_of_a_disabled_flow_only_stops() {
    let mut s = Scheduler::new();
    s.ensure_flow("a", true);
    assert_eq!(s.restart_flow("a", false), LoopAction::Cancel);
    assert_eq!(s.loop_ended("a"), LoopAction::Nothing);
    assert_eq!(s.state_of("a"), None);
    assert_eq!(s.restart_flow("a", false), LoopAction::Nothing);
    assert_eq!(s.restart_flow("a", true), LoopAction::Start);
}

#[test]
fn stop_forgets_the_flow() {
    let mut s = Scheduler::new();
    assert_eq!(s.stop_flow("a"), LoopAction::Nothing);
    s.ensure_flow("a", true);
    s.ensure_flow("b", true);
    assert_eq!(s.stop_flow("a"), LoopAction::Cancel);
    assert_eq!(s.stop_flow("a"), LoopAction::Nothing);
    assert_eq!(s.state_of("a"), Some(LoopState::Stopping { restart: false }));
    assert_eq!(s.loop_ended("a"), LoopAction::Nothing);
    assert_eq!(s.state_of("a"), None);
    assert_eq!(s.state_of("b"), Some(LoopState::Running));
    assert_eq!(s.loop_ended("a"), LoopAction::Nothing);
}

#[test]
fn stop_overrides_a_pending_restart() {
    let mut s = Scheduler::new();
    s.ensure_flow("a", true);
    s.restart_flow("a", true);
    assert_eq!(s.stop_flow("a"), LoopAction::Nothing);
    assert_eq!(s.loop_ended("a"), LoopAction::Nothing);
    assert_eq!(s.state_of("a"), None);
}

#[test]
fn a_loop_that_ends_by_itself_is_forgotten() {
    let mut s = Scheduler::new();
    s.ensure_flow("a", true);
    assert_eq!(s.loop_ended("a"), LoopAction::Nothing);
    assert_eq!(s.state_of("a"), None);
    assert_eq!(s.ensure_flow("a", true), LoopAction::Start);
}
