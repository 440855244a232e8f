use unbind::ports::{
    fill_commands, find_port, lsof_failure, parse_lsof, parse_ps_command, pids_to_look_up,
    PortEntry, Protocol,
};

fn entry(port: u16, pid: u32, name: &str) -> PortEntry {
    PortEntry {
        port,
        protocol: Protocol::Tcp,
        address: "*".to_string(),
        pid,
        process_name: name.to_string(),
        command: Some(name.to_string()),
    }
}

#[test]
fn empty_output_lists_nothing() {
    assert!(parse_lsof("").is_empty());
    assert!(parse_lsof("COMMAND PID USER FD TYPE DEVICE SIZE/OFF NODE NAME\n").is_empty());
}

#[test]
fn field_output_sets_command_to_process_name() {
    let entries = parse_lsof("p7\ncsshd\nf3\nPTCP\nn*:22\n");
    assert_eq!(entries.len(), 1);
    assert_eq!(entries[0].command, Some("sshd".to_string()));
    assert_eq!(entries[0].protocol, Protocol::Tcp);
    assert_eq!(entries[0].port, 22);
}

#[test]
fn field_output_forgets_a_pid_that_is_no_u32() {
    let entries = parse_lsof("p1\ncinit\nn*:1\np99999999999\ncbig\nn*:2\n");
    assert_eq!(entries.len(), 1);
    assert_eq!(entries[0].port, 1);
}

#[test]
fn field_output_needs_a_process_name_before_an_endpoint() {
    let entries = parse_lsof("p10\nn*:80\ncnginx\nn*:443\n");
    assert_eq!(entries.len(), 1);
    assert_eq!(entries[0].port, 443);
    assert_eq!(entries[0].process_name, "nginx");
}

#[test]
fn field_output_accepts_crlf_and_trailing_arrows() {
    let entries = parse_lsof("p5\r\ncweb\r\nn*:8080->\r\n");
    assert_eq!(entries.len(), 1);
    assert_eq!(entries[0].port, 8080);
    assert_eq!(entries[0].address, "*");
    assert_eq!(entries[0].process_name, "web");
}

#[test]
fn endpoint_with_port_out_of_range_is_skipped() {
    let entries = parse_lsof("p5\ncweb\nn*:70000\nn*:65535\n");
    assert_eq!(entries.len(), 1);
    assert_eq!(entries[0].port, 65535);
}

#[test]
fn table_rows_need_nine_columns_and_tcp_in_the_eighth() {
    let output = "\
COMMAND PID USER FD TYPE DEVICE SIZE/OFF NODE NAME
short 1 user
dns   53 user 5u IPv4 1 0t0 UDP *:53
ok    80 user 5u IPv4 1 0t0 TCP *:80 (LISTEN)
";
    let entries = parse_lsof(output);
    assert_eq!(entries.len(), 1);
    assert_eq!(entries[0].process_name, "ok");
    assert_eq!(entries[0].pid, 80);
}

#[test]
fn table_pid_accepts_a_plus_sign_as_str_parse_does() {
    let output = "\
COMMAND PID USER FD TYPE DEVICE SIZE/OFF NODE NAME
app +42 user 5u IPv4 1 0t0 TCP 10.0.0.1:9000 (LISTEN)
bad 4x2 user 5u IPv4 1 0t0 TCP 10.0.0.1:9001 (LISTEN)
";
    let entries = parse_lsof(output);
    assert_eq!(entries.len(), 1);
    assert_eq!(entries[0].pid, 42);
    assert_eq!(entries[0].address, "10.0.0.1");
    assert_eq!(entries[0].port, 9000);
}

#[test]
fn table_keeps_the_first_of_repeated_rows_in_order() {
    let output = "\
COMMAND PID USER FD TYPE DEVICE SIZE/OFF NODE NAME
a 1 user 5u IPv4 1 0t0 TCP *:1 (LISTEN)
b 2 user 5u IPv4 1 0t0 TCP *:2 (LISTEN)
a 1 user 6u IPv6 1 0t0 TCP *:1 (LISTEN)
a 1 user 7u IPv6 1 0t0 TCP [::]:1 (LISTEN)
";
    let entries = parse_lsof(output);
    assert_eq!(entries.len(), 3);
    assert_eq!(entries[0].process_name, "a");
    assert_eq!(entries[1].process_name, "b");
    assert_eq!(entries[2].address, "::");
    for i in 0..entries.len() {
        for j in (i + 1)..entries.len() {
            let (a, b) = (&entries[i], &entries[j]);
            assert!(
                (a.port, &a.address, a.pid, &a.process_name)
                    != (b.port, &b.address, b.pid, &b.process_name)
            );
        }
    }
}

#[test]
fn find_port_gives_the_first_entry_on_the_port() {
    let entries = vec![entry(80, 1, "a"), entry(443, 2, "b"), entry(80, 3, "c")];
    let found = find_port(&entries, 80).unwrap();
    assert_eq!(found.pid, 1);
    assert!(find_port(&entries, 8080).is_none());
    assert!(find_port(&[], 80).is_none());
}

#[test]
fn pids_to_look_up_lists_each_pid_once_in_order() {
    let entries = vec![entry(1, 5, "a"), entry(2, 3, "b"), entry(3, 5, "a"), entry(4, 7, "c")];
    assert_eq!(pids_to_look_up(&entries), vec![5, 3, 7]);
}

#[test]
fn fill_commands_uses_lookups_then_the_first_name() {
    let mut entries = vec![entry(1, 1, "one"), entry(2, 2, "two"), entry(3, 1, "uno"), entry(4, 9, "nine")];
    let found = vec![(1, Some("/bin/one --serve".to_string())), (2, None)];
    fill_commands(&mut entries, &found);
    assert_eq!(entries[0].command.as_deref(), Some("/bin/one --serve"));
    assert_eq!(entries[1].command.as_deref(), Some("two"));
    assert_eq!(entries[2].command.as_deref(), Some("/bin/one --serve"));
    assert_eq!(entries[3].command.as_deref(), Some("nine"));
    assert_eq!(entries[2].process_name, "uno");
}

#[test]
fn fill_commands_falls_back_to_the_first_entry_of_the_pid() {
    let mut entries = vec![entry(1, 4, "first"), entry(2, 4, "second")];
    fill_commands(&mut entries, &vec![(4, None)]);
    assert_eq!(entries[0].command.as_deref(), Some("first"));
    assert_eq!(entries[1].command.as_deref(), Some("first"));
}

#[test]
fn ps_output_is_trimmed_and_empty_output_is_none() {
    assert_eq!(
        parse_ps_command("  /usr/bin/node server.js \n"),
        Some("/usr/bin/node server.js".to_string())
    );
    assert_eq!(parse_ps_command(" \t\n"), None);
    assert_eq!(parse_ps_command(""), None);
    assert_eq!(parse_ps_command("\u{3000}x\u{A0}"), Some("x".to_string()));
}

#[test]
fn lsof_failure_only_when_it_failed_without_output() {
    assert_eq!(lsof_failure(true, true, "warning"), None);
    assert_eq!(lsof_failure(false, false, "warning"), None);
    assert_eq!(
        lsof_failure(false, true, "  \n"),
        Some(
            "Could not inspect listening ports.\nTry running with sudo if you need full process details."
                .to_string()
        )
    );
    assert_eq!(
        lsof_failure(false, true, "permission denied\n"),
        Some(
            "Could not inspect listening ports.\nReason: permission denied\nTry running with sudo if you need full process details."
                .to_string()
        )
    );
}
