use bootmgr::catalog::{format_grub_entry, plan_set_entry};
use bootmgr::grub_cfg::{find_grub_entry, parse_grub_entries, parse_grub_env, GrubEntry};
use bootmgr::grub_env::rewrite_env;
use bootmgr::BootError;

const CFG: &str = "menuentry 'A' --class gnu $menuentry_id_option 'idA' {\n\
\tlinux /vmlinuz\n\
}\n\
submenu 'S' $menuentry_id_option 'idS' {\n\
\tmenuentry 'B' --class gnu $menuentry_id_option 'idB' {\n\
\t\tlinux /vmlinuz\n\
\t}\n\
}\n\
menuentry 'C' $menuentry_id_option 'idC' {\n\
}\n";

#[test]
fn nesting_and_order() {
    let entries = parse_grub_entries(CFG, "saved_entry=idB\n");
    assert_eq!(entries.len(), 3);
    assert_eq!(entries[0].entry_name, "A");
    assert_eq!(entries[0].entry_id, "idA");
    assert!(!entries[0].entry_in_submenu);
    assert_eq!(entries[1].entry_name, "B");
    assert_eq!(entries[1].entry_id, "idB");
    assert!(entries[1].entry_in_submenu);
    assert_eq!(entries[2].entry_name, "C");
    assert_eq!(entries[2].entry_id, "idC");
    assert!(!entries[2].entry_in_submenu);
}

#[test]
fn default_marking_matches_saved_entry() {
    let entries = parse_grub_entries(CFG, "saved_entry=idB\n");
    assert!(!entries[0].entry_is_default);
    assert!(entries[1].entry_is_default);
    assert!(!entries[2].entry_is_default);
}

#[test]
fn no_matching_saved_entry_marks_nothing() {
    let entries = parse_grub_entries(CFG, "saved_entry=idZ\n");
    assert!(entries.iter().all(|e| !e.entry_is_default));
}

#[test]
fn menuentry_without_id_gets_empty_id() {
    let entries = parse_grub_entries("menuentry 'Plain' {\n}\n", "");
    assert_eq!(entries.len(), 1);
    assert_eq!(entries[0].entry_name, "Plain");
    assert_eq!(entries[0].entry_id, "");
}

#[test]
fn env_last_saved_entry_wins_and_is_trimmed() {
    assert_eq!(parse_grub_env("saved_entry=one\nsaved_entry= two \n"), "two");
    assert_eq!(parse_grub_env("# header\nboot_success=1\n"), "");
    assert_eq!(parse_grub_env(""), "");
}

#[test]
fn rewrite_touches_only_the_saved_entry_line() {
    let env = "# GRUB Environment Block\nsaved_entry=old\nboot_success=1\n";
    let out = rewrite_env(env, "idC");
    assert_eq!(out, "# GRUB Environment Block\nsaved_entry=idC\nboot_success=1\n");
}

#[test]
fn rewrite_without_saved_entry_line_changes_nothing() {
    let env = "# GRUB Environment Block\nboot_success=1\n";
    assert_eq!(rewrite_env(env, "idC"), env);
}

#[test]
fn selector_index_and_identifier_agree() {
    let env = "saved_entry=idA\n";
    let by_index = plan_set_entry(CFG, env, "1").unwrap();
    let by_id = plan_set_entry(CFG, env, "idB").unwrap();
    assert_eq!(by_index.0, by_id.0);
    assert_eq!(by_index.1, "B");
    assert_eq!(by_id.1, "B");
}

#[test]
fn set_then_get_reports_new_default() {
    let env = "saved_entry=idA\nboot_success=0\n";
    let (new_env, name) = plan_set_entry(CFG, env, "idC").unwrap();
    assert_eq!(name, "C");
    let entries = parse_grub_entries(CFG, new_env.as_str());
    assert!(!entries[0].entry_is_default);
    assert!(!entries[1].entry_is_default);
    assert!(entries[2].entry_is_default);
}

#[test]
fn selector_out_of_range_index_is_not_found() {
    let env = "saved_entry=idA\n";
    assert_eq!(plan_set_entry(CFG, env, "3").unwrap_err(), BootError::NotFound);
}

#[test]
fn selector_unknown_identifier_is_not_found() {
    let env = "saved_entry=idA\n";
    assert_eq!(plan_set_entry(CFG, env, "idZ").unwrap_err(), BootError::NotFound);
}

#[test]
fn selector_with_leading_zeros_is_an_index() {
    let entries = parse_grub_entries(CFG, "saved_entry=idA\n");
    let i = find_grub_entry(&entries, "02").unwrap();
    assert_eq!(i, 2);
}

#[test]
fn find_grub_entry_prefers_index_reading() {
    let entries = parse_grub_entries(CFG, "saved_entry=idA\n");
    assert_eq!(find_grub_entry(&entries, "0").unwrap(), 0);
    assert_eq!(find_grub_entry(&entries, "idC").unwrap(), 2);
    assert_eq!(find_grub_entry(&entries, "").unwrap_err(), BootError::NotFound);
}

#[test]
fn display_line_shape() {
    let e = GrubEntry {
        entry_name: String::from("A"),
        entry_id: String::from("idA"),
        entry_in_submenu: false,
        entry_is_default: true,
    };
    assert_eq!(format_grub_entry(&e), "* A (idA)");
    let n = GrubEntry {
        entry_name: String::from("B"),
        entry_id: String::from("idB"),
        entry_in_submenu: true,
        entry_is_default: false,
    };
    assert_eq!(format_grub_entry(&n), "    B (idB)");
}

#[test]
fn error_descriptions() {
    assert_eq!(BootError::NotFound.describe(), "not found");
    assert_eq!(BootError::PermissionDenied.describe(), "permission denied");
    assert_eq!(BootError::ToolError.describe(), "external tool failed");
    assert_eq!(BootError::ParseError.describe(), "malformed text");
    assert_eq!(BootError::IoError.describe(), "i/o failure");
}

#[test]
fn carriage_returns_are_tolerated() {
    let cfg = "menuentry 'A' $menuentry_id_option 'idA' {\r\n}\r\n";
    let env = "saved_entry=idA\r\n";
    let entries = parse_grub_entries(cfg, env);
    assert_eq!(entries.len(), 1);
    assert_eq!(entries[0].entry_id, "idA");
    assert!(entries[0].entry_is_default);
}

#[test]
fn rewrite_keeps_other_lines_with_their_line_endings() {
    // The matched line's whole content is replaced, its carriage return
    // included; every other line keeps its bytes.
    let env = "# header\r\nsaved_entry=old\r\nboot_success=1\r\n";
    let out = rewrite_env(env, "idA");
    assert_eq!(out, "# header\r\nsaved_entry=idA\nboot_success=1\r\n");
}

#[test]
fn duplicate_identifier_resolves_to_the_first_match() {
    let cfg = "menuentry 'One' $menuentry_id_option 'dup' {\n}\n\
menuentry 'Two' $menuentry_id_option 'dup' {\n}\n";
    let entries = parse_grub_entries(cfg, "");
    assert_eq!(find_grub_entry(&entries, "dup").unwrap(), 0);
}
