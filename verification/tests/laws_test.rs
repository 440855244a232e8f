use unbind::ports::parse_lsof;
use unbind::tui::{App, Key};
use unbind::ports::{PortEntry, Protocol};

fn entry(port: u16, pid: u32, name: &str) -> PortEntry {
    PortEntry {
        port,
        protocol: Protocol::Tcp,
        address: "*".to_string(),
        pid,
        process_name: name.to_string(),
        command: None,
    }
}

fn keys(entries: &[PortEntry]) -> Vec<(u16, String, u32, String)> {
    entries
        .iter()
        .map(|e| (e.port, e.address.clone(), e.pid, e.process_name.clone()))
        .collect()
}

#[test]
fn other_field_lines_change_nothing() {
    let bare = "p10\ncweb\nn*:80\np11\ncdb\nn127.0.0.1:5432\n";
    let noisy = "p10\n\ncweb\nf4\ntIPv4\nPTCP\nLuser\nn*:80\n\np11\nf6\ncdb\nn127.0.0.1:5432\nf7\n";
    assert_eq!(keys(&parse_lsof(bare)), keys(&parse_lsof(noisy)));
    assert_eq!(parse_lsof(noisy).len(), 2);
}

#[test]
fn table_header_text_does_not_matter() {
    let rows = "web 10 user 5u IPv4 1 0t0 TCP *:80 (LISTEN)\ndb 11 user 6u IPv4 1 0t0 TCP 127.0.0.1:5432 (LISTEN)\n";
    let a = parse_lsof(&format!("COMMAND PID USER FD TYPE DEVICE SIZE/OFF NODE NAME\n{rows}"));
    let b = parse_lsof(&format!("anything at all here\n{rows}"));
    let c = parse_lsof(&format!("\n{rows}"));
    assert_eq!(keys(&a), keys(&b));
    assert_eq!(keys(&a), keys(&c));
    assert_eq!(a.len(), 2);
}

#[test]
fn endpoints_parse_back() {
    let output = "p1\ncsrv\nn10.1.2.3:65535\nn[fe80::1]:8080\nnlocalhost:0 (LISTEN)\nn:22\n";
    let entries = parse_lsof(output);
    let got: Vec<(String, u16)> = entries.iter().map(|e| (e.address.clone(), e.port)).collect();
    assert_eq!(
        got,
        vec![
            ("10.1.2.3".to_string(), 65535),
            ("fe80::1".to_string(), 8080),
            ("localhost".to_string(), 0),
            ("".to_string(), 22),
        ]
    );
}

#[test]
fn parsing_lists_each_key_once() {
    let output = "p1\ncsrv\nn*:80\nn*:80\nn*:81\nn*:80\n";
    let entries = parse_lsof(output);
    assert_eq!(keys(&entries), vec![(80, "*".to_string(), 1, "srv".to_string()), (81, "*".to_string(), 1, "srv".to_string())]);
}

#[test]
fn narrowing_the_search_never_adds_rows_and_empty_shows_all() {
    let mut app = App::new(Ok(vec![
        entry(3000, 1, "node"),
        entry(3001, 2, "nodemon"),
        entry(8080, 3, "java"),
    ]));
    app.handle_key(Key::Char('/'));
    let mut previous = app.rows().len();
    for c in "nodem".chars() {
        app.handle_key(Key::Char(c));
        assert!(app.rows().len() <= previous);
        previous = app.rows().len();
    }
    assert_eq!(app.rows().len(), 1);
    for _ in 0..5 {
        app.handle_key(Key::Backspace);
    }
    assert_eq!(app.search(), "");
    assert_eq!(app.rows().len(), 3);
}
