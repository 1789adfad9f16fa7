use argus::capture::{bpf_filter, pcap_file_name, CapEvent, CaptureRun};
use argus::hosts::{hosts_file, run_exit_code, Host};
use argus::script::{script_status, ScriptRunner};
use argus::scrolls::{last_component, resolve_source, scroll_dirs, scroll_from_dir, scroll_manifest};
use argus::sync::file_chunks;
use argus::tasks::{Bash, Task, TaskExec};

fn bash_task(name: &str, command: &str) -> Task {
    Task {
        name: name.to_string(),
        task_exec: TaskExec::Bash(Bash { command: command.to_string() }),
    }
}

#[test]
fn script_status_empty_is_success() {
    assert_eq!(script_status(&vec![]), 0);
}

#[test]
fn script_status_all_zero_is_success() {
    assert_eq!(script_status(&vec![0, 0, 0]), 0);
}

#[test]
fn script_status_reports_first_positive() {
    assert_eq!(script_status(&vec![0, 2, 3]), 2);
    assert_eq!(script_status(&vec![5, 1]), 5);
}

#[test]
fn script_status_ignores_negative_statuses() {
    assert_eq!(script_status(&vec![-1, 0, -7]), 0);
    assert_eq!(script_status(&vec![-1, 4]), 4);
}

#[test]
fn script_status_middle_failure() {
    // statuses of a `["true", "false", "true"]` script
    assert_eq!(script_status(&vec![0, 1, 0]), 1);
}

#[test]
fn script_runner_hands_out_all_commands_in_order() {
    let cmds = vec!["true".to_string(), "false".to_string(), "true".to_string()];
    let mut runner = ScriptRunner::new(cmds.clone());
    let mut seen: Vec<String> = Vec::new();
    let statuses = [0, 1, 0];
    let mut i = 0;
    while !runner.done() {
        seen.push(runner.current_command().clone());
        runner.record(statuses[i]);
        i += 1;
    }
    // every command runs, even after the failure in the middle
    assert_eq!(seen, cmds);
    assert_eq!(runner.status(), 1);
}

#[test]
fn script_runner_success_reports_zero() {
    let mut runner = ScriptRunner::new(vec!["a".to_string(), "b".to_string()]);
    while !runner.done() {
        runner.current_command();
        runner.record(0);
    }
    assert_eq!(runner.status(), 0);
}

#[test]
fn file_chunks_of_20000_bytes() {
    let content: Vec<u8> = (0..20000u32).map(|i| (i % 251) as u8).collect();
    let chunks = file_chunks(&content);
    assert_eq!(chunks.len(), 3);
    assert_eq!(chunks[0].len(), 8192);
    assert_eq!(chunks[1].len(), 8192);
    assert_eq!(chunks[2].len(), 3616);
    let rebuilt: Vec<u8> = chunks.concat();
    assert_eq!(rebuilt, content);
}

#[test]
fn file_chunks_empty_file() {
    let chunks = file_chunks(&vec![]);
    assert_eq!(chunks.len(), 0);
}

#[test]
fn file_chunks_at_the_boundary() {
    let exact: Vec<u8> = vec![7u8; 8192];
    let chunks = file_chunks(&exact);
    assert_eq!(chunks.len(), 1);
    assert_eq!(chunks[0], exact);

    let over: Vec<u8> = vec![9u8; 8193];
    let chunks = file_chunks(&over);
    assert_eq!(chunks.len(), 2);
    assert_eq!(chunks[0].len(), 8192);
    assert_eq!(chunks[1].len(), 1);
    assert_eq!(chunks.concat(), over);
}

#[test]
fn last_component_of_paths() {
    assert_eq!(last_component("proj/scrolls/basics"), "basics");
    assert_eq!(last_component("basics"), "basics");
    assert_eq!(last_component("a/b/c"), "c");
    assert_eq!(last_component(""), "");
}

#[test]
fn scroll_from_dir_names_and_tags() {
    let tasks = vec![bash_task("hello", "echo hi"), bash_task("bye", "echo bye")];
    let scroll = scroll_from_dir("proj/scrolls/basics", tasks.clone());
    assert_eq!(scroll.name, "basics");
    assert_eq!(scroll.tasks.len(), 2);
    for (container, task) in scroll.tasks.iter().zip(tasks.iter()) {
        assert_eq!(container.scroll_dir_path, "proj/scrolls/basics");
        assert_eq!(&container.task, task);
    }
}

#[test]
fn scroll_dirs_keeps_declared_order() {
    let names = vec!["alpha".to_string(), "beta".to_string()];
    let dirs = scroll_dirs("proj", &names);
    assert_eq!(dirs, vec!["proj/scrolls/alpha".to_string(), "proj/scrolls/beta".to_string()]);
}

#[test]
fn config_file_locations() {
    assert_eq!(hosts_file("proj"), "proj/hosts.yml");
    assert_eq!(scroll_manifest("proj/scrolls/basics"), "proj/scrolls/basics/main.yml");
}

#[test]
fn resolve_source_joins_scroll_dir() {
    assert_eq!(
        resolve_source("proj/scrolls/basics", "fixtures/payload.bin"),
        "proj/scrolls/basics/fixtures/payload.bin"
    );
}

#[test]
fn login_user_defaults_to_root() {
    let mut host = Host {
        host: "10.0.0.5".to_string(),
        pubkey_path: "id.pub".to_string(),
        privkey_path: "id".to_string(),
        ssh_passphrase: None,
        user: None,
    };
    assert_eq!(host.login_user(), "root");
    host.user = Some("admin".to_string());
    assert_eq!(host.login_user(), "admin");
}

#[test]
fn run_exit_code_reports_any_fatal_host() {
    assert_eq!(run_exit_code(&vec![]), 0);
    assert_eq!(run_exit_code(&vec![false, false]), 0);
    assert_eq!(run_exit_code(&vec![false, true]), 1);
    assert_eq!(run_exit_code(&vec![true]), 1);
}

#[test]
fn pcap_names_and_filter() {
    assert_eq!(pcap_file_name("10.0.0.5"), "10.0.0.5.pcap");
    assert_eq!(bpf_filter("10.0.0.5"), "host 10.0.0.5");
}

#[test]
fn capture_runs_until_executor_finishes() {
    let mut run = CaptureRun::new();
    assert!(!run.stopped);
    run.step(CapEvent::PacketRead);
    assert!(!run.stopped);
    run.step(CapEvent::PacketRead);
    assert!(!run.stopped);
    run.step(CapEvent::ExecutorFinished);
    assert!(run.stopped);
}

#[test]
fn capture_stops_on_read_failure() {
    let mut run = CaptureRun::new();
    run.step(CapEvent::ReadFailed);
    assert!(run.stopped);
}
