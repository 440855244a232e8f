use unbind::ports::{PortEntry, Protocol};
use unbind::tui::{inner, table_cells, App, Area, Effect, Key, Mode};

fn entry(port: u16, pid: u32, name: &str, command: Option<&str>) -> PortEntry {
    PortEntry {
        port,
        protocol: Protocol::Tcp,
        address: "127.0.0.1".to_string(),
        pid,
        process_name: name.to_string(),
        command: command.map(|c| c.to_string()),
    }
}

fn app() -> App {
    App::new(Ok(vec![
        entry(3000, 18422, "node", Some("next dev")),
        entry(5432, 902, "PostgreSQL", Some("/usr/lib/postgresql/bin/postgres")),
        entry(8080, 77, "java", None),
    ]))
}

fn type_text(app: &mut App, text: &str) {
    for c in text.chars() {
        assert_eq!(app.handle_key(Key::Char(c)), Effect::Nothing);
    }
}

fn row_names(app: &App) -> Vec<String> {
    app.rows().iter().map(|e| e.process_name.clone()).collect()
}

#[test]
fn new_view_lists_everything_and_counts() {
    let app = app();
    assert_eq!(app.rows().len(), 3);
    assert_eq!(app.status(), "3 listening process(es)");
    assert_eq!(app.mode(), Mode::Normal);
    assert_eq!(app.selected_index(), 0);
    assert_eq!(app.title(), "Unbind - Local listening ports (3)");
    assert_eq!(app.empty_notice(), None);
}

#[test]
fn failed_listing_shows_the_error() {
    let app = App::new(Err("Could not find lsof.".to_string()));
    assert_eq!(app.rows().len(), 0);
    assert_eq!(app.status(), "Could not find lsof.");
    assert_eq!(app.empty_notice(), Some("No local TCP listening ports found.".to_string()));
    assert!(app.selected().is_none());
}

#[test]
fn search_is_case_insensitive_on_names_and_commands() {
    let mut app = app();
    assert_eq!(app.handle_key(Key::Char('/')), Effect::Nothing);
    assert_eq!(app.mode(), Mode::Search);
    type_text(&mut app, "POSTGRES");
    assert_eq!(row_names(&app), vec!["PostgreSQL"]);
    assert_eq!(app.help_text(), "Search: POSTGRES  [Enter] Confirm  [Esc] Cancel");
}

#[test]
fn search_matches_ports_and_pids() {
    let mut app = app();
    app.handle_key(Key::Char('/'));
    type_text(&mut app, "80");
    assert_eq!(row_names(&app), vec!["java"]);
    app.handle_key(Key::Backspace);
    type_text(&mut app, "42");
    assert_eq!(row_names(&app), vec!["node"]);
}

#[test]
fn backspace_removes_the_last_character() {
    let mut app = app();
    app.handle_key(Key::Char('/'));
    type_text(&mut app, "javx");
    assert!(app.rows().is_empty());
    assert_eq!(app.empty_notice(), Some("No ports match the current search.".to_string()));
    app.handle_key(Key::Backspace);
    assert_eq!(app.search(), "jav");
    assert_eq!(row_names(&app), vec!["java"]);
}

#[test]
fn esc_cancels_the_search_and_enter_keeps_it() {
    let mut app = app();
    app.handle_key(Key::Char('/'));
    type_text(&mut app, "node");
    assert_eq!(app.handle_key(Key::Esc), Effect::Nothing);
    assert_eq!(app.search(), "");
    assert_eq!(app.rows().len(), 3);
    assert_eq!(app.mode(), Mode::Normal);

    app.handle_key(Key::Char('/'));
    type_text(&mut app, "node");
    app.handle_key(Key::Enter);
    assert_eq!(app.mode(), Mode::Normal);
    assert_eq!(row_names(&app), vec!["node"]);
}

#[test]
fn selection_moves_within_the_rows() {
    let mut app = app();
    app.handle_key(Key::Up);
    assert_eq!(app.selected_index(), 0);
    app.handle_key(Key::Down);
    app.handle_key(Key::Char('j'));
    app.handle_key(Key::Down);
    assert_eq!(app.selected_index(), 2);
    app.handle_key(Key::Char('k'));
    assert_eq!(app.selected_index(), 1);
    app.handle_key(Key::Down);
    app.handle_key(Key::Up);
    assert_eq!(app.selected_index(), 1);
}

#[test]
fn filtering_keeps_the_selection_on_a_row() {
    let mut app = app();
    app.handle_key(Key::Down);
    app.handle_key(Key::Down);
    assert_eq!(app.selected_index(), 2);
    app.handle_key(Key::Char('/'));
    type_text(&mut app, "node");
    assert_eq!(app.selected_index(), 0);
    assert_eq!(app.selected().unwrap().process_name, "node");
}

#[test]
fn refresh_key_asks_for_a_listing() {
    let mut app = app();
    assert_eq!(app.handle_key(Key::Char('r')), Effect::Refresh);
    app.refresh(Ok(vec![entry(22, 1, "sshd", None)]));
    assert_eq!(app.status(), "1 listening process(es)");
    assert_eq!(row_names(&app), vec!["sshd"]);
}

#[test]
fn details_and_quit() {
    let mut app = app();
    app.handle_key(Key::Enter);
    assert_eq!(app.mode(), Mode::Details);
    assert_eq!(
        app.details().unwrap(),
        vec![
            "Port:      3000",
            "Protocol:  TCP",
            "Address:   127.0.0.1",
            "Process:   node",
            "PID:       18422",
            "Command:   next dev",
            "",
            "[Esc] Back  [x] Kill",
        ]
    );
    app.handle_key(Key::Esc);
    assert_eq!(app.mode(), Mode::Normal);
    assert!(!app.should_quit());
    app.handle_key(Key::Char('q'));
    assert!(app.should_quit());
}

#[test]
fn kill_from_the_view_escalates_and_reports() {
    let mut app = app();
    app.handle_key(Key::Char('x'));
    assert_eq!(app.mode(), Mode::ConfirmKill);
    assert_eq!(app.confirmation(false).unwrap()[0], "Kill this process with SIGTERM?");
    assert_eq!(app.handle_key(Key::Char('y')), Effect::Terminate(18422));
    assert_eq!(app.terminate_result(Ok(())), Effect::CheckRunning(18422));
    assert_eq!(app.status(), "Sent SIGTERM to node PID 18422");
    assert_eq!(app.running_result(true), Effect::Nothing);
    assert_eq!(app.mode(), Mode::ConfirmForceKill);
    assert_eq!(
        app.confirmation(true).unwrap()[0],
        "Process did not exit. Force kill with SIGKILL?"
    );
    assert_eq!(app.handle_key(Key::Char('Y')), Effect::ForceKill(18422));
    assert_eq!(app.force_kill_result(Err("Could not signal process PID 18422".to_string())), Effect::Nothing);
    assert_eq!(
        app.status(),
        "Could not signal process PID 18422\nTry running with sudo or terminate it manually."
    );
    assert_eq!(app.mode(), Mode::Normal);
}

#[test]
fn kill_from_the_view_refreshes_when_done() {
    let mut app = app();
    app.handle_key(Key::Char('x'));
    app.handle_key(Key::Char('y'));
    app.terminate_result(Ok(()));
    assert_eq!(app.running_result(false), Effect::Refresh);
    assert_eq!(app.mode(), Mode::Normal);

    let mut app = app_with_force();
    assert_eq!(app.force_kill_result(Ok(())), Effect::Refresh);
    assert_eq!(app.status(), "Sent SIGKILL to node PID 18422");
}

fn app_with_force() -> App {
    let mut app = app();
    app.handle_key(Key::Char('x'));
    app.handle_key(Key::Char('y'));
    app.terminate_result(Ok(()));
    app.running_result(true);
    app
}

#[test]
fn declining_or_failing_sigterm_returns_to_the_table() {
    let mut app = app();
    app.handle_key(Key::Char('x'));
    app.handle_key(Key::Char('n'));
    assert_eq!(app.mode(), Mode::Normal);
    app.handle_key(Key::Char('x'));
    app.handle_key(Key::Char('y'));
    assert_eq!(app.terminate_result(Err("denied".to_string())), Effect::Nothing);
    assert_eq!(app.status(), "denied\nTry running with sudo or terminate it manually.");
    assert_eq!(app.mode(), Mode::Normal);
}

#[test]
fn nothing_selected_means_no_details_and_no_kill() {
    let mut app = App::new(Ok(vec![]));
    app.handle_key(Key::Enter);
    assert_eq!(app.mode(), Mode::Normal);
    app.handle_key(Key::Char('x'));
    assert_eq!(app.mode(), Mode::Normal);
    assert!(app.details().is_none());
}

#[test]
fn help_line_shows_the_status_and_keys() {
    let app = app();
    assert_eq!(
        app.help_text(),
        "3 listening process(es)  [j/k] Move  [/] Search  [Enter] Details  [x] Kill  [r] Refresh  [q] Quit"
    );
}

#[test]
fn cells_of_a_row() {
    assert_eq!(
        table_cells(&entry(8080, 77, "java", None)),
        vec!["8080", "TCP", "77", "java", "127.0.0.1", ""]
    );
}

#[test]
fn inner_leaves_margins_and_saturates() {
    let a = Area { x: 1, y: 2, width: 20, height: 10 };
    assert_eq!(inner(a, 2, 2), Area { x: 3, y: 4, width: 16, height: 6 });
    let small = Area { x: 65534, y: 0, width: 3, height: 1 };
    assert_eq!(inner(small, 2, 2), Area { x: 65535, y: 2, width: 0, height: 0 });
}
