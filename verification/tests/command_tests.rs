//! The decisions of the commands, exercised on an in-memory registry and a
//! socket whose occupied ports are given.

use std::collections::HashSet;

use portman::commands::assign::{release, ReleaseOutcome};
use portman::commands::check::{check_port, find_next_port, port_report, SocketState};
use portman::commands::export::{env_export_lines, merge_import, parse_format, ExportFormat};
use portman::commands::list::{list_rows, probe_ports, rows_from};
use portman::domain::{Assignment, PortmanError, ProcessInfo, Registry, SocketChecker};

/// Socket checker where all ports are free by default.
/// Specific ports can be marked as occupied.
struct MockSocket {
    occupied: HashSet<u16>,
}

impl MockSocket {
    fn all_free() -> Self {
        Self {
            occupied: HashSet::new(),
        }
    }

    fn with_occupied(ports: &[u16]) -> Self {
        Self {
            occupied: ports.iter().copied().collect(),
        }
    }
}

impl SocketChecker for MockSocket {
    fn is_port_free(&self, port: u16) -> bool {
        !self.occupied.contains(&port)
    }

    fn get_process_info(&self, port: u16) -> Option<ProcessInfo> {
        if self.occupied.contains(&port) {
            Some(ProcessInfo {
                pid: 12345,
                name: "mock".into(),
            })
        } else {
            None
        }
    }
}

fn assignment(port: u16) -> Assignment {
    Assignment {
        port,
        assigned_at: "2026-01-01T00:00:00Z".to_string(),
        notes: None,
    }
}

// ---------------------------------------------------------------------------
// assign / release
// ---------------------------------------------------------------------------

#[test]
fn assign_command_persists_entry() {
    let mut reg = Registry::new();
    reg.assign("traderbot", 8420, Some("API".into()), false).unwrap();

    assert_eq!(reg.assignments.get("traderbot").unwrap().port, 8420);
    assert_eq!(reg.assignments.get("traderbot").unwrap().notes.as_deref(), Some("API"));
}

#[test]
fn assign_command_rejects_conflict() {
    let mut reg = Registry::new();
    reg.assign("traderbot", 8420, None, false).unwrap();
    let result = reg.assign("other", 8420, None, false);
    assert!(result.is_err());
}

#[test]
fn assign_command_force_overwrites() {
    let mut reg = Registry::new();
    reg.assign("traderbot", 8420, None, false).unwrap();
    reg.assign("other", 8420, None, true).unwrap();

    assert!(!reg.assignments.contains_key("traderbot"));
    assert_eq!(reg.assignments.get("other").unwrap().port, 8420);
}

#[test]
fn release_command_removes_entry() {
    let mut reg = Registry::new();
    reg.assign("app", 8500, None, false).unwrap();
    release(&mut reg, Some("app"), false).unwrap();
    assert!(reg.assignments.is_empty());
}

#[test]
fn release_all_clears_store() {
    let mut reg = Registry::new();
    reg.assign("a", 8001, None, false).unwrap();
    reg.assign("b", 8002, None, false).unwrap();
    release(&mut reg, None, true).unwrap();
    assert!(reg.assignments.is_empty());
}

#[test]
fn release_without_name_or_all_errors() {
    let mut reg = Registry::new();
    let result = release(&mut reg, None, false);
    assert!(result.is_err());
}

#[test]
fn release_command_reports_what_it_took() {
    let mut reg = Registry::new();
    reg.assign("a", 8001, None, false).unwrap();
    reg.assign("b", 8002, None, false).unwrap();
    match release(&mut reg, Some("b"), false).unwrap() {
        ReleaseOutcome::One(a) => assert_eq!(a.port, 8002),
        other => panic!("Expected one assignment, got: {:?}", other),
    }
    match release(&mut reg, None, true).unwrap() {
        ReleaseOutcome::All(n) => assert_eq!(n, 1),
        other => panic!("Expected all assignments, got: {:?}", other),
    }
}

#[test]
fn release_command_error_messages() {
    let mut reg = Registry::new();
    let e = release(&mut reg, None, false).unwrap_err();
    assert_eq!(
        e.message(),
        "Provide a project name or use --all to clear everything"
    );
    let e = release(&mut reg, Some("ghost"), false).unwrap_err();
    assert_eq!(e.message(), "Project 'ghost' not found in registry");
}

// ---------------------------------------------------------------------------
// next
// ---------------------------------------------------------------------------

#[test]
fn next_finds_first_available_port() {
    let reg = Registry::new();
    let socket = MockSocket::all_free();
    let port = find_next_port(&reg, &socket, Some(8400), None).unwrap();
    assert_eq!(port, 8400);
}

#[test]
fn next_skips_assigned_ports() {
    let mut reg = Registry::new();
    reg.assign("a", 8400, None, false).unwrap();
    reg.assign("b", 8401, None, false).unwrap();
    let socket = MockSocket::all_free();
    // Should succeed — 8402 is available
    let port = find_next_port(&reg, &socket, Some(8400), Some("8400-8410")).unwrap();
    assert_eq!(port, 8402);
}

#[test]
fn next_skips_os_occupied_ports() {
    let reg = Registry::new();
    let socket = MockSocket::with_occupied(&[8400, 8401]);
    // Should succeed — 8402 is free at OS level
    let port = find_next_port(&reg, &socket, Some(8400), Some("8400-8410")).unwrap();
    assert_eq!(port, 8402);
}

#[test]
fn next_errors_when_range_exhausted() {
    let mut reg = Registry::new();
    reg.assign("a", 8400, None, false).unwrap();
    reg.assign("b", 8401, None, false).unwrap();
    let socket = MockSocket::all_free();
    let result = find_next_port(&reg, &socket, None, Some("8400-8401"));
    assert!(result.is_err());
    match result.unwrap_err() {
        PortmanError::NoAvailablePort(a, b) => {
            assert_eq!((a, b), (8400, 8401));
        }
        other => panic!("Expected NoAvailablePort, got: {}", other.message()),
    }
}

#[test]
fn next_starts_from_inside_the_range() {
    let reg = Registry::new();
    let socket = MockSocket::all_free();
    let port = find_next_port(&reg, &socket, Some(8405), Some("8400-8410")).unwrap();
    assert_eq!(port, 8405);
    let port = find_next_port(&reg, &socket, Some(8300), Some("8400-8410")).unwrap();
    assert_eq!(port, 8400);
    let result = find_next_port(&reg, &socket, Some(8420), Some("8400-8410"));
    assert!(matches!(result, Err(PortmanError::NoAvailablePort(8420, 8410))));
}

#[test]
fn next_uses_default_range_when_no_flags() {
    let reg = Registry::new();
    let socket = MockSocket::all_free();
    let port = find_next_port(&reg, &socket, None, None).unwrap();
    assert_eq!(port, 8400);
}

#[test]
fn next_skips_ports_taken_either_way() {
    let mut reg = Registry::new();
    reg.assign("a", 8400, None, false).unwrap();
    reg.assign("b", 8402, None, false).unwrap();
    let socket = MockSocket::with_occupied(&[8401, 8403]);
    let port = find_next_port(&reg, &socket, Some(8400), None).unwrap();
    assert_eq!(port, 8404);
}

#[test]
fn next_reports_a_malformed_range() {
    let reg = Registry::new();
    let socket = MockSocket::all_free();
    let e = find_next_port(&reg, &socket, None, Some("8400")).unwrap_err();
    assert_eq!(
        e.message(),
        "Invalid range format '8400'. Expected: start-end (e.g. 8400-8999)"
    );
}

// ---------------------------------------------------------------------------
// list / status
// ---------------------------------------------------------------------------

#[test]
fn list_runs_on_empty_registry() {
    let reg = Registry::new();
    let socket = MockSocket::all_free();
    let rows = list_rows(&reg, &socket, false);
    assert!(rows.is_empty());
}

#[test]
fn list_active_filters_idle_ports() {
    let mut reg = Registry::new();
    reg.assign("running", 8500, None, false).unwrap();
    reg.assign("idle", 8501, None, false).unwrap();
    let socket = MockSocket::with_occupied(&[8500]);
    let rows = list_rows(&reg, &socket, true);
    assert_eq!(rows.len(), 1);
    assert_eq!(rows[0].name, "running");
    assert_eq!(rows[0].port, 8500);
    assert!(rows[0].active);
}

#[test]
fn status_runs_without_error() {
    let mut reg = Registry::new();
    reg.assign("app", 8500, None, false).unwrap();
    let socket = MockSocket::with_occupied(&[8500]);
    let rows = list_rows(&reg, &socket, false);
    assert_eq!(rows.len(), 1);
    assert!(rows[0].active);
    let info = socket.get_process_info(rows[0].port).unwrap();
    assert_eq!(info.pid, 12345);
}

#[test]
fn list_rows_follow_name_order() {
    let mut reg = Registry::new();
    reg.assign("zebra", 8001, None, false).unwrap();
    reg.assign("alpha", 8002, None, false).unwrap();
    reg.assign("middle", 8003, None, false).unwrap();
    let socket = MockSocket::with_occupied(&[8002]);
    let rows = list_rows(&reg, &socket, false);
    let names: Vec<&str> = rows.iter().map(|r| r.name.as_str()).collect();
    assert_eq!(names, vec!["alpha", "middle", "zebra"]);
    assert_eq!(
        rows.iter().map(|r| r.active).collect::<Vec<bool>>(),
        vec![true, false, false]
    );
}

// ---------------------------------------------------------------------------
// export / import
// ---------------------------------------------------------------------------

#[test]
fn export_env_runs_without_error() {
    let mut reg = Registry::new();
    reg.assign("my-app", 8500, None, false).unwrap();
    let lines = env_export_lines(&reg);
    assert_eq!(lines, vec!["export MY_APP_PORT=8500".to_string()]);
}

#[test]
fn export_unknown_format_errors() {
    let result = parse_format("xml");
    assert!(result.is_err());
    assert_eq!(
        result.unwrap_err().message(),
        "Unknown format 'xml'. Supported: json, env"
    );
}

#[test]
fn export_formats_are_recognised() {
    assert_eq!(parse_format("json").unwrap(), ExportFormat::Json);
    assert_eq!(parse_format("env").unwrap(), ExportFormat::Env);
    assert!(parse_format("JSON").is_err());
}

#[test]
fn import_merge_preserves_existing() {
    let mut reg = Registry::new();
    reg.assign("existing", 9000, None, false).unwrap();

    let mut imported = Registry::new();
    imported.assignments.insert("existing".to_string(), assignment(7777));
    imported.assignments.insert("newproject".to_string(), assignment(7000));

    let added = merge_import(&mut reg, imported);

    assert_eq!(added, 1);
    assert_eq!(reg.assignments.len(), 2);
    // existing entry should keep its original port (not overwritten)
    assert_eq!(reg.assignments.get("existing").unwrap().port, 9000);
    assert_eq!(reg.assignments.get("newproject").unwrap().port, 7000);
}

// ---------------------------------------------------------------------------
// check
// ---------------------------------------------------------------------------

#[test]
fn check_runs_without_error_on_free_port() {
    let reg = Registry::new();
    let socket = MockSocket::all_free();
    let report = check_port(&reg, &socket, 9999);
    assert_eq!(report.holder, None);
    assert_eq!(report.socket, SocketState::Free);
}

#[test]
fn check_runs_without_error_on_assigned_port() {
    let mut reg = Registry::new();
    reg.assign("app", 8500, None, false).unwrap();
    let socket = MockSocket::with_occupied(&[8500]);
    let report = check_port(&reg, &socket, 8500);
    assert_eq!(report.holder.as_deref(), Some("app"));
    assert_eq!(
        report.socket,
        SocketState::InUse(Some(ProcessInfo {
            pid: 12345,
            name: "mock".into()
        }))
    );
}

#[test]
fn port_report_follows_the_answers() {
    let mut reg = Registry::new();
    reg.assign("app", 8500, None, false).unwrap();
    let info = ProcessInfo { pid: 7, name: "node".into() };
    let report = port_report(&reg, 8500, false, Some(info.clone()));
    assert_eq!(report.holder.as_deref(), Some("app"));
    assert_eq!(report.socket, SocketState::InUse(Some(info)));
    let report = port_report(&reg, 8501, true, None);
    assert_eq!(report.holder, None);
    assert_eq!(report.socket, SocketState::Free);
    let report = port_report(&reg, 8501, false, None);
    assert_eq!(report.socket, SocketState::InUse(None));
}

#[test]
fn rows_follow_the_answers() {
    let mut reg = Registry::new();
    reg.assign("c", 8003, None, false).unwrap();
    reg.assign("a", 8001, None, false).unwrap();
    reg.assign("b", 8002, None, false).unwrap();
    assert_eq!(probe_ports(&reg), vec![8001, 8002, 8003]);
    let in_use = vec![false, true, false];
    let all = rows_from(&reg, &in_use, false);
    assert_eq!(
        all.iter().map(|r| (r.name.as_str(), r.port, r.active)).collect::<Vec<_>>(),
        vec![("a", 8001, false), ("b", 8002, true), ("c", 8003, false)]
    );
    let active = rows_from(&reg, &in_use, true);
    assert_eq!(
        active.iter().map(|r| (r.name.as_str(), r.port, r.active)).collect::<Vec<_>>(),
        vec![("b", 8002, true)]
    );
}
