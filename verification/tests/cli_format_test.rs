use unbind::cli::{format_entries_table, format_find_result};
use unbind::ports::{PortEntry, Protocol};

fn entry() -> PortEntry {
    PortEntry {
        port: 3000,
        protocol: Protocol::Tcp,
        address: "127.0.0.1".to_string(),
        pid: 18422,
        process_name: "node".to_string(),
        command: Some("next dev".to_string()),
    }
}

#[test]
fn formats_table_output() {
    let output = format_entries_table(&[entry()]);

    assert!(output.contains("PORT"));
    assert!(output.contains("3000"));
    assert!(output.contains("node"));
    assert!(output.contains("next dev"));
}

#[test]
fn formats_find_output() {
    let output = format_find_result(3000, &entry());

    assert_eq!(
        output,
        "Port 3000 is used by:\n\nProcess: node\nPID:     18422\nCommand: next dev\n"
    );
}
