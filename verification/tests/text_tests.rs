//! Character-level helpers, ranges and messages on concrete values.

use portman::commands::check::{after_probe, first_step, parse_range, search_range, NextStep};
use portman::domain::{PortmanError, Registry, RegistryConfig};
use portman::infrastructure::json_store::JsonRegistryStore;
use portman::infrastructure::socket::{parse_pid, process_info, process_name};
use portman::text::{
    decimal_string, is_blank, name_order, parse_decimal, same_text, trim_string, NameOrder,
};

#[test]
fn decimal_string_writes_numbers() {
    assert_eq!(decimal_string(0), "0");
    assert_eq!(decimal_string(7), "7");
    assert_eq!(decimal_string(8400), "8400");
    assert_eq!(decimal_string(65535), "65535");
    assert_eq!(decimal_string(4294967295), "4294967295");
}

#[test]
fn parse_decimal_follows_str_parse() {
    assert_eq!(parse_decimal("8400", 65535), Some(8400));
    assert_eq!(parse_decimal("+8400", 65535), Some(8400));
    assert_eq!(parse_decimal("008400", 65535), Some(8400));
    assert_eq!(parse_decimal("65535", 65535), Some(65535));
    assert_eq!(parse_decimal("65536", 65535), None);
    assert_eq!(parse_decimal("", 65535), None);
    assert_eq!(parse_decimal("+", 65535), None);
    assert_eq!(parse_decimal("-1", 65535), None);
    assert_eq!(parse_decimal(" 1", 65535), None);
    assert_eq!(parse_decimal("12a", 65535), None);
    assert_eq!(parse_decimal("99999999999999999999", 65535), None);
    for s in ["0", "+7", "1234", "65535", "65536", "x", "", "+", "-3", "4294967295"] {
        assert_eq!(parse_decimal(s, 65535).map(|v| v as u16), s.parse::<u16>().ok());
        assert_eq!(parse_decimal(s, 4294967295), s.parse::<u32>().ok());
    }
}

#[test]
fn parse_range_reads_both_ends() {
    assert_eq!(parse_range("8400-8999").unwrap(), (8400, 8999));
    assert_eq!(parse_range("9000-8000").unwrap(), (9000, 8000));
    assert_eq!(parse_range("+1-+2").unwrap(), (1, 2));
}

#[test]
fn parse_range_reports_each_kind_of_error() {
    let e = parse_range("8400").unwrap_err();
    assert_eq!(
        e.message(),
        "Invalid range format '8400'. Expected: start-end (e.g. 8400-8999)"
    );
    let e = parse_range("1-2-3").unwrap_err();
    assert_eq!(
        e.message(),
        "Invalid range format '1-2-3'. Expected: start-end (e.g. 8400-8999)"
    );
    let e = parse_range("abc-8999").unwrap_err();
    assert_eq!(e.message(), "Invalid range start: 'abc'");
    let e = parse_range("8400-").unwrap_err();
    assert_eq!(e.message(), "Invalid range end: ''");
    let e = parse_range("70000-1").unwrap_err();
    assert_eq!(e.message(), "Invalid range start: '70000'");
}

#[test]
fn search_range_defaults() {
    let config = RegistryConfig {
        default_range_start: 8400,
        default_range_end: 8999,
    };
    assert_eq!(search_range(&config, None, None).unwrap(), (8400, 8999));
    assert_eq!(search_range(&config, Some(8500), None).unwrap(), (8500, 8999));
    assert_eq!(search_range(&config, None, Some("1-2")).unwrap(), (1, 2));
    // --from starts the search and --range bounds it.
    assert_eq!(search_range(&config, Some(8405), Some("8400-8410")).unwrap(), (8405, 8410));
    assert_eq!(search_range(&config, Some(8300), Some("8400-8410")).unwrap(), (8400, 8410));
    assert!(search_range(&config, Some(8405), Some("8400")).is_err());
}

#[test]
fn search_steps_probe_unassigned_ports_in_order() {
    let mut reg = Registry::new();
    reg.assign("a", 8400, None, false).unwrap();
    reg.assign("b", 8402, None, false).unwrap();
    assert_eq!(first_step(&reg, 8400, 8403), NextStep::Probe(8401));
    assert_eq!(after_probe(&reg, 8401, false, 8403), NextStep::Probe(8403));
    assert_eq!(after_probe(&reg, 8403, false, 8403), NextStep::Exhausted);
    assert_eq!(after_probe(&reg, 8403, true, 8403), NextStep::Found(8403));
    assert_eq!(first_step(&reg, 8400, 8400), NextStep::Exhausted);
    assert_eq!(after_probe(&reg, 65535, false, 65535), NextStep::Exhausted);
}

#[test]
fn error_messages_match_the_tool() {
    let e = PortmanError::PortConflict {
        port: 8420,
        name: "traderbot".to_string(),
    };
    assert_eq!(e.message(), "Port 8420 is already assigned to 'traderbot'");
    let e = PortmanError::NameConflict("traderbot".to_string(), 8420);
    assert_eq!(
        e.message(),
        "'traderbot' is already assigned to port 8420. Use --force to reassign."
    );
    let e = PortmanError::NoAvailablePort(8400, 8401);
    assert_eq!(e.message(), "No available port found in range 8400-8401");
    let e = PortmanError::ProjectNotFound("ghost".to_string());
    assert_eq!(e.message(), "Project 'ghost' not found in registry");
    let e = PortmanError::Other("anything".to_string());
    assert_eq!(e.message(), "anything");
}

#[test]
fn names_compare_like_strings() {
    let names = ["", "a", "ab", "b", "B", "zebra", "alpha", "é", "a-b", "a_b"];
    for x in names {
        for y in names {
            let expected = match x.cmp(y) {
                std::cmp::Ordering::Less => NameOrder::Before,
                std::cmp::Ordering::Equal => NameOrder::Same,
                std::cmp::Ordering::Greater => NameOrder::After,
            };
            assert_eq!(name_order(x, y), expected);
            assert_eq!(same_text(x, y), x == y);
        }
    }
}

#[test]
fn trimming_follows_str_trim() {
    for s in ["", "  ", "\t\n x y \r\n", "abc", "\u{3000}z\u{85}", " \u{a0}"] {
        assert_eq!(trim_string(s), s.trim());
        assert_eq!(is_blank(s), s.trim().is_empty());
    }
}

#[test]
fn lsof_output_gives_the_first_pid() {
    assert_eq!(parse_pid("12345\n"), Some(12345));
    assert_eq!(parse_pid("  77\n88\n"), Some(77));
    assert_eq!(parse_pid("91\r\n92\r\n"), Some(91));
    assert_eq!(parse_pid(""), None);
    assert_eq!(parse_pid(" \n"), None);
    assert_eq!(parse_pid("abc\n"), None);
    assert_eq!(parse_pid("4294967296\n"), None);
    for s in ["12345\n", "  77\n88\n", "91\r\n92\r\n", "", "x", "5 \n6", "1\r\r\n"] {
        let expected = s.trim().lines().next().and_then(|l| l.parse::<u32>().ok());
        assert_eq!(parse_pid(s), expected);
    }
}

#[test]
fn ps_output_gives_the_process_name() {
    assert_eq!(process_name("node\n"), "node");
    assert_eq!(process_name("  \n"), "unknown");
    let info = process_info(42, "python3\n");
    assert_eq!(info.pid, 42);
    assert_eq!(info.name, "python3");
}

#[test]
fn store_keeps_its_path() {
    let store = JsonRegistryStore::with_path(std::path::PathBuf::from("/tmp/registry.json"));
    assert_eq!(store.path(), &std::path::PathBuf::from("/tmp/registry.json"));
}

