//! The laws of the registry, each on concrete values.

use portman::commands::export::merge_import;
use portman::domain::{Assignment, PortmanError, Registry};

fn ports_unique(reg: &Registry) -> bool {
    let mut seen = std::collections::HashSet::new();
    let mut i = 0;
    while let Some((_, a)) = reg.assignments.entry(i) {
        if !seen.insert(a.port) {
            return false;
        }
        i += 1;
    }
    true
}

#[test]
fn forced_assignment_keeps_ports_unique() {
    let mut reg = Registry::new();
    reg.assign("a", 8001, None, false).unwrap();
    reg.assign("b", 8002, None, false).unwrap();
    reg.assign("b", 8001, None, true).unwrap();
    assert!(ports_unique(&reg));
    assert!(!reg.assignments.contains_key("a"));
    assert_eq!(reg.assignments.get("b").unwrap().port, 8001);
    assert!(!reg.is_port_assigned(8002));
}

#[test]
fn assigned_port_is_found() {
    let mut reg = Registry::new();
    reg.assign("a", 8001, None, false).unwrap();
    reg.assign("b", 8001, None, true).unwrap();
    let (name, a) = reg.find_by_port(8001).unwrap();
    assert_eq!(name, "b");
    assert_eq!(a.port, 8001);
    assert!(reg.is_port_assigned(8001));
}

#[test]
fn release_undoes_assign() {
    let mut reg = Registry::new();
    reg.assign("a", 8001, None, false).unwrap();
    reg.assign("b", 8002, None, false).unwrap();
    reg.assign_at("c", 8003, Some("note".into()), false, "t".to_string())
        .unwrap();
    let released = reg.release("c").unwrap();
    assert_eq!(released.port, 8003);
    assert_eq!(released.assigned_at, "t");
    assert_eq!(released.notes.as_deref(), Some("note"));
    assert_eq!(reg.assignments.len(), 2);
    assert_eq!(reg.assignments.get("a").unwrap().port, 8001);
    assert_eq!(reg.assignments.get("b").unwrap().port, 8002);
}

#[test]
fn refused_assignment_changes_nothing() {
    let mut reg = Registry::new();
    reg.assign("a", 8001, None, false).unwrap();
    reg.assign("b", 8002, None, false).unwrap();
    assert!(matches!(
        reg.assign("c", 8001, None, false),
        Err(PortmanError::PortConflict { .. })
    ));
    assert!(matches!(
        reg.assign("a", 8003, None, false),
        Err(PortmanError::NameConflict(_, 8001))
    ));
    assert_eq!(reg.assignments.len(), 2);
    assert_eq!(reg.assignments.get("a").unwrap().port, 8001);
}

#[test]
fn entries_walk_in_name_order() {
    let mut reg = Registry::new();
    reg.assign("zebra", 8001, None, false).unwrap();
    reg.assign("alpha", 8002, None, false).unwrap();
    reg.assign("middle", 8003, None, false).unwrap();
    let mut names = Vec::new();
    let mut i = 0;
    while let Some((name, _)) = reg.assignments.entry(i) {
        names.push(name.to_string());
        i += 1;
    }
    assert_eq!(names, vec!["alpha", "middle", "zebra"]);
}

#[test]
fn first_holder_in_name_order_is_found() {
    let mut reg = Registry::new();
    let mut imported = Registry::new();
    imported.assignments.insert(
        "zeta".to_string(),
        Assignment { port: 8001, assigned_at: String::new(), notes: None },
    );
    imported.assignments.insert(
        "beta".to_string(),
        Assignment { port: 8001, assigned_at: String::new(), notes: None },
    );
    assert_eq!(merge_import(&mut reg, imported), 2);
    assert_eq!(reg.find_by_port(8001).unwrap().0, "beta");
    // The first holder in name order is the one that a forced request evicts.
    reg.assign("new", 8001, None, true).unwrap();
    assert!(!reg.assignments.contains_key("beta"));
    assert!(reg.assignments.contains_key("zeta"));
}

#[test]
fn timestamps_come_from_the_clock() {
    let mut reg = Registry::new();
    reg.assign("a", 8001, None, false).unwrap();
    let stamp = &reg.assignments.get("a").unwrap().assigned_at;
    assert_eq!(stamp.len(), 20);
    assert!(stamp.ends_with('Z'));
    let bytes = stamp.as_bytes();
    assert_eq!((bytes[4], bytes[7], bytes[10], bytes[13], bytes[16]), (b'-', b'-', b'T', b':', b':'));
    assert!(stamp.as_str() >= "2020-01-01T00:00:00Z");
}

#[test]
fn assign_conflict_release_cycle() {
    // Assign
    let mut registry = Registry::new();
    registry.assign("app", 8500, None, false).unwrap();
    let saved = registry.clone();

    // Conflict
    let mut registry = saved.clone();
    let result = registry.assign("other", 8500, None, false);
    assert!(result.is_err());

    // Release
    let mut registry = saved.clone();
    registry.release("app").unwrap();
    let saved = registry.clone();

    // Now the port is free in the registry
    let mut registry = saved.clone();
    registry.assign("other", 8500, None, false).unwrap();

    assert_eq!(registry.assignments.len(), 1);
    assert_eq!(registry.assignments.get("other").unwrap().port, 8500);
}

#[test]
fn check_assign_agrees_with_assign() {
    let mut reg = Registry::new();
    reg.assign("a", 8001, None, false).unwrap();
    assert!(reg.check_assign("b", 8002, false).is_ok());
    assert!(reg.check_assign("a", 8001, false).is_ok());
    assert!(reg.check_assign("b", 8001, true).is_ok());
    assert!(reg.check_assign("a", 8002, true).is_ok());
    assert!(matches!(
        reg.check_assign("b", 8001, false),
        Err(PortmanError::PortConflict { port: 8001, .. })
    ));
    assert!(matches!(
        reg.check_assign("a", 8002, false),
        Err(PortmanError::NameConflict(_, 8001))
    ));
    assert_eq!(reg.assignments.len(), 1);
}
