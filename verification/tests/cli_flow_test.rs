use unbind::cli::{
    find_report, format_entries_table, is_affirmative, KillCommand, KillFlow, KillStage,
};
use unbind::ports::{PortEntry, Protocol};
use unbind::process::{checked_pid, signal_failure};

fn node() -> PortEntry {
    PortEntry {
        port: 3000,
        protocol: Protocol::Tcp,
        address: "127.0.0.1".to_string(),
        pid: 18422,
        process_name: "node".to_string(),
        command: Some("next dev".to_string()),
    }
}

#[test]
fn table_has_exact_columns() {
    let output = format_entries_table(&[node()]);
    assert_eq!(
        output,
        "PORT    PROTOCOL  PID      PROCESS          ADDRESS            COMMAND\n3000    TCP       18422    node             127.0.0.1          next dev\n"
    );
}

#[test]
fn table_does_not_cut_long_values_and_shows_no_command_as_empty() {
    let e = PortEntry {
        port: 5432,
        protocol: Protocol::Tcp,
        address: "0000:0000:0000:0000:0000".to_string(),
        pid: 902,
        process_name: "a-very-long-process-name".to_string(),
        command: None,
    };
    let output = format_entries_table(&[e]);
    assert!(output.ends_with(
        "5432    TCP       902      a-very-long-process-name 0000:0000:0000:0000:0000 \n"
    ));
}

#[test]
fn empty_table_is_the_header() {
    assert_eq!(
        format_entries_table(&[]),
        "PORT    PROTOCOL  PID      PROCESS          ADDRESS            COMMAND\n"
    );
}

#[test]
fn find_report_for_a_free_port() {
    assert_eq!(find_report(8080, &None), "Port 8080 is free.\n");
    assert_eq!(
        find_report(3000, &Some(node())),
        "Port 3000 is used by:\n\nProcess: node\nPID:     18422\nCommand: next dev\n"
    );
}

#[test]
fn affirmative_answers() {
    assert!(is_affirmative("y\n"));
    assert!(is_affirmative("  Y  "));
    assert!(is_affirmative("yes\r\n"));
    assert!(is_affirmative("YES"));
    assert!(!is_affirmative("Yes"));
    assert!(!is_affirmative("n"));
    assert!(!is_affirmative(""));
    assert!(!is_affirmative("yess"));
}

#[test]
fn pids_beyond_i32_are_invalid() {
    assert_eq!(checked_pid(1234), Ok(1234));
    assert_eq!(checked_pid(2147483647), Ok(2147483647));
    assert_eq!(checked_pid(2147483648), Err("invalid PID 2147483648".to_string()));
    assert_eq!(signal_failure(42), "Could not signal process PID 42");
}

#[test]
fn kill_of_a_free_port_says_so() {
    let (flow, command) = KillFlow::start(80, false, None);
    assert_eq!(flow.stage(), KillStage::Finished);
    assert_eq!(command, KillCommand::Finish(Some("Port 80 is free.".to_string())));
}

#[test]
fn kill_asks_and_can_be_cancelled() {
    let (mut flow, command) = KillFlow::start(3000, false, Some(node()));
    assert_eq!(
        command,
        KillCommand::Prompt("Kill node PID 18422 using port 3000? [y/N] ".to_string())
    );
    let command = flow.answer("no\n");
    assert_eq!(command, KillCommand::Finish(Some("Cancelled.".to_string())));
    assert_eq!(flow.stage(), KillStage::Finished);
}

#[test]
fn forced_kill_terminates_at_once_and_reports_errors() {
    let (mut flow, command) = KillFlow::start(3000, true, Some(node()));
    assert_eq!(command, KillCommand::Terminate(18422));
    let command = flow.terminated(Err("Could not signal process PID 18422".to_string()));
    assert_eq!(
        command,
        KillCommand::Fail(
            "Could not signal process PID 18422\n\nTry running with sudo or terminate it manually."
                .to_string()
        )
    );
}

#[test]
fn kill_escalates_to_sigkill_when_asked() {
    let (mut flow, _) = KillFlow::start(3000, false, Some(node()));
    assert_eq!(flow.answer("y\n"), KillCommand::Terminate(18422));
    assert_eq!(
        flow.terminated(Ok(())),
        KillCommand::Wait { notice: "Sent SIGTERM to node PID 18422.".to_string(), pid: 18422 }
    );
    assert_eq!(
        flow.checked(true),
        KillCommand::Prompt("Process is still running. Force kill with SIGKILL? [y/N] ".to_string())
    );
    assert_eq!(flow.answer("yes"), KillCommand::ForceKill(18422));
    assert_eq!(
        flow.force_killed(Ok(())),
        KillCommand::Finish(Some("Sent SIGKILL to node PID 18422.".to_string()))
    );
    assert_eq!(flow.stage(), KillStage::Finished);
}

#[test]
fn kill_ends_quietly_when_the_process_exited_or_sigkill_is_declined() {
    let (mut flow, _) = KillFlow::start(3000, true, Some(node()));
    flow.terminated(Ok(()));
    assert_eq!(flow.checked(false), KillCommand::Finish(None));

    let (mut flow, _) = KillFlow::start(3000, true, Some(node()));
    flow.terminated(Ok(()));
    flow.checked(true);
    assert_eq!(flow.answer("N"), KillCommand::Finish(None));
}
