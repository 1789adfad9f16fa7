use argus::engine::{Action, Event, Executor, Phase};
use argus::scrolls::Scroll;
use argus::tasks::{Bash, Task, TaskContainer, TaskExec};

fn scroll(name: &str, task_names: &[&str]) -> Scroll {
    let tasks = task_names
        .iter()
        .map(|n| TaskContainer {
            scroll_dir_path: format!("proj/scrolls/{}", name),
            task: Task {
                name: n.to_string(),
                task_exec: TaskExec::Bash(Bash { command: format!("echo {}", n) }),
            },
        })
        .collect();
    Scroll { name: name.to_string(), tasks }
}

fn connect(ex: &mut Executor) {
    assert_eq!(ex.action(), Action::Dial);
    ex.step(Event::DialOk);
    assert_eq!(ex.action(), Action::Handshake);
    ex.step(Event::HandshakeOk);
    assert_eq!(ex.action(), Action::Authenticate);
    ex.step(Event::AuthOk);
}

#[test]
fn single_host_single_command_succeeds() {
    let mut ex = Executor::new(vec![scroll("basics", &["hello"])]);
    connect(&mut ex);
    assert_eq!(ex.action(), Action::RunTask { scroll: 0, task: 0 });
    ex.step(Event::TaskExited(0));
    assert_eq!(ex.action(), Action::Finish { fatal: false });
}

#[test]
fn scrolls_run_in_reverse_declared_order() {
    // declared [a, b]: all of b's tasks run first, then all of a's
    let mut ex = Executor::new(vec![scroll("a", &["a0", "a1"]), scroll("b", &["b0"])]);
    connect(&mut ex);
    let mut order: Vec<(usize, usize)> = Vec::new();
    loop {
        match ex.action() {
            Action::RunTask { scroll, task } => {
                order.push((scroll, task));
                ex.step(Event::TaskExited(0));
            }
            Action::Finish { fatal } => {
                assert!(!fatal);
                break;
            }
            other => panic!("unexpected action {:?}", other),
        }
    }
    assert_eq!(order, vec![(1, 0), (0, 0), (0, 1)]);
}

#[test]
fn positive_status_aborts_scroll_but_not_the_next() {
    // the failing task's scroll is abandoned; the next scroll still runs
    let mut ex = Executor::new(vec![scroll("low", &["l0"]), scroll("high", &["h0", "h1", "h2"])]);
    connect(&mut ex);
    assert_eq!(ex.action(), Action::RunTask { scroll: 1, task: 0 });
    ex.step(Event::TaskExited(0));
    assert_eq!(ex.action(), Action::RunTask { scroll: 1, task: 1 });
    ex.step(Event::TaskExited(3));
    // h2 is skipped; the first task of the next scroll is still attempted
    assert_eq!(ex.action(), Action::RunTask { scroll: 0, task: 0 });
    ex.step(Event::TaskExited(0));
    assert_eq!(ex.action(), Action::Finish { fatal: false });
}

#[test]
fn negative_status_does_not_abort() {
    let mut ex = Executor::new(vec![scroll("s", &["t0", "t1"])]);
    connect(&mut ex);
    ex.step(Event::TaskExited(-1));
    assert_eq!(ex.action(), Action::RunTask { scroll: 0, task: 1 });
}

#[test]
fn transport_error_aborts_scroll_but_not_the_next() {
    let mut ex = Executor::new(vec![scroll("low", &["l0"]), scroll("high", &["h0", "h1"])]);
    connect(&mut ex);
    assert_eq!(ex.action(), Action::RunTask { scroll: 1, task: 0 });
    ex.step(Event::TaskError);
    assert_eq!(ex.action(), Action::RunTask { scroll: 0, task: 0 });
    ex.step(Event::TaskExited(0));
    assert_eq!(ex.action(), Action::Finish { fatal: false });
}

#[test]
fn setup_failures_are_fatal_for_the_host() {
    let mut ex = Executor::new(vec![scroll("s", &["t"])]);
    assert_eq!(ex.action(), Action::Dial);
    ex.step(Event::DialFailed);
    assert_eq!(ex.action(), Action::Finish { fatal: true });

    let mut ex = Executor::new(vec![scroll("s", &["t"])]);
    ex.step(Event::DialOk);
    ex.step(Event::HandshakeFailed);
    assert_eq!(ex.action(), Action::Finish { fatal: true });

    let mut ex = Executor::new(vec![scroll("s", &["t"])]);
    ex.step(Event::DialOk);
    ex.step(Event::HandshakeOk);
    ex.step(Event::AuthFailed);
    assert_eq!(ex.action(), Action::Finish { fatal: true });
}

#[test]
fn no_scrolls_means_done_after_auth() {
    let mut ex = Executor::new(vec![]);
    connect(&mut ex);
    assert_eq!(ex.action(), Action::Finish { fatal: false });
}

#[test]
fn empty_scrolls_are_skipped() {
    let mut ex = Executor::new(vec![scroll("low", &["l0"]), scroll("empty", &[])]);
    connect(&mut ex);
    assert_eq!(ex.action(), Action::RunTask { scroll: 0, task: 0 });
    ex.step(Event::TaskExited(0));
    assert_eq!(ex.action(), Action::Finish { fatal: false });
}

#[test]
fn out_of_phase_events_leave_the_machine_unchanged() {
    let mut ex = Executor::new(vec![scroll("s", &["t"])]);
    assert_eq!(ex.phase, Phase::Dialing);
    ex.step(Event::TaskExited(0));
    assert_eq!(ex.phase, Phase::Dialing);
    ex.step(Event::AuthOk);
    assert_eq!(ex.phase, Phase::Dialing);
    ex.step(Event::DialOk);
    assert_eq!(ex.phase, Phase::Handshaking);
}

#[test]
fn phases_follow_the_protocol() {
    let mut ex = Executor::new(vec![scroll("s", &["t"])]);
    assert_eq!(ex.phase, Phase::Dialing);
    ex.step(Event::DialOk);
    assert_eq!(ex.phase, Phase::Handshaking);
    ex.step(Event::HandshakeOk);
    assert_eq!(ex.phase, Phase::Authenticating);
    ex.step(Event::AuthOk);
    assert_eq!(ex.phase, Phase::Running { scroll: 0, task: 0 });
    ex.step(Event::TaskExited(0));
    assert_eq!(ex.phase, Phase::Done);
}
