use bootmgr::catalog::format_fw_entries;
use bootmgr::firmware::{find_fw_entry, parse_bcd_entries, parse_entry, split_sections, BcdEntry};
use bootmgr::resolver::get_grub_location;

const DUMP: &str = "Firmware Boot Manager\n\
---------------------\n\
identifier              {fwbootmgr}\n\
displayorder            {1111}\n\
                        {2222}\n\
timeout                 2\n\
\n\
Firmware Application (101fffff)\n\
-------------------------------\n\
identifier              {1111}\n\
device                  partition=C:\n\
path                    \\EFI\\grub\\grubx64.efi\n\
description             ubuntu\n\
\n\
Firmware Application (101fffff)\n\
-------------------------------\n\
identifier              {2222}\n\
description             Windows Boot Manager\n";

#[test]
fn three_records_with_identity_from_order_membership() {
    let entries = parse_bcd_entries(DUMP);
    assert_eq!(entries.len(), 3);
    assert_eq!(entries[0].id.as_deref(), Some("{fwbootmgr}"));
    assert_eq!(entries[0].displayorder, vec!["{1111}", "{2222}"]);
    assert_eq!(entries[1].id.as_deref(), Some("{1111}"));
    assert!(entries[1].displayorder.is_empty());
    assert_eq!(entries[2].id.as_deref(), Some("{2222}"));
    assert!(entries[2].displayorder.is_empty());
}

#[test]
fn boot_manager_record_gets_fixed_label() {
    let entries = parse_bcd_entries(DUMP);
    assert_eq!(entries[0].description.as_deref(), Some("UEFI Loader"));
    assert_eq!(entries[0].timeout, 2);
}

#[test]
fn unknown_identifier_value_is_not_adopted() {
    let entries = parse_bcd_entries(
        "identifier {fwbootmgr}\ndisplayorder {1111}\n\nidentifier {9999}\ndescription lost\n",
    );
    assert_eq!(entries.len(), 2);
    assert_eq!(entries[1].id, None);
    assert_eq!(entries[1].description.as_deref(), Some("lost"));
}

#[test]
fn unparsable_timeout_degrades_to_zero() {
    let one = parse_entry("timeout notanumber\n", &Vec::new());
    assert_eq!(one.timeout, 0);
    let two = parse_entry("timeout 30\n", &Vec::new());
    assert_eq!(two.timeout, 30);
}

#[test]
fn entry_on_disk_needs_device_and_path() {
    let entries = parse_bcd_entries(DUMP);
    assert!(!entries[0].entry_on_disk());
    assert!(entries[1].entry_on_disk());
    assert!(!entries[2].entry_on_disk());
}

#[test]
fn sections_split_on_blank_lines_with_crlf_normalized() {
    let secs = split_sections("a 1\r\nb 2\r\n\r\nc 3\r\n");
    assert_eq!(secs.len(), 2);
    assert_eq!(secs[0], "a 1\nb 2");
    assert_eq!(secs[1], "c 3\n");
}

#[test]
fn empty_record_parses_to_empty_entry() {
    let e: BcdEntry = parse_entry("", &Vec::new());
    assert_eq!(e.id, None);
    assert_eq!(e.device, None);
    assert!(e.displayorder.is_empty());
    assert_eq!(e.timeout, 0);
}

#[test]
fn firmware_selector_matches_case_insensitively() {
    let entries = parse_bcd_entries(DUMP);
    assert!(find_fw_entry(&entries, "UBUNTU"));
    assert!(find_fw_entry(&entries, "windows boot manager"));
    assert!(find_fw_entry(&entries, "{2222}"));
    assert!(!find_fw_entry(&entries, "fedora"));
}

#[test]
fn firmware_selector_skips_the_boot_manager_record() {
    let entries = parse_bcd_entries(DUMP);
    assert!(!find_fw_entry(&entries, "UEFI Loader"));
    assert!(!find_fw_entry(&entries, "{fwbootmgr}"));
}

#[test]
fn location_comes_from_first_matching_on_disk_entry() {
    let entries = parse_bcd_entries(DUMP);
    assert_eq!(get_grub_location(&entries, &None).as_deref(), Some("C:"));
}

#[test]
fn location_uses_the_lowercased_hint() {
    let dump = "identifier {fwbootmgr}\ndisplayorder {1111}\n\n\
identifier {1111}\ndevice partition=D:\npath \\loader.efi\ndescription My Custom Loader\n";
    let entries = parse_bcd_entries(dump);
    assert_eq!(get_grub_location(&entries, &None), None);
    let hint = Some(String::from("CUSTOM"));
    assert_eq!(get_grub_location(&entries, &hint).as_deref(), Some("D:"));
}

#[test]
fn location_skips_entries_without_equals_in_device() {
    let dump = "identifier {fwbootmgr}\ndisplayorder {1111}\n                  {2222}\n\n\
identifier {1111}\ndevice rawdisk\npath \\a.efi\ndescription grub one\n\n\
identifier {2222}\ndevice partition=E:\npath \\b.efi\ndescription grub two\n";
    let entries = parse_bcd_entries(dump);
    assert_eq!(get_grub_location(&entries, &None).as_deref(), Some("E:"));
}

#[test]
fn location_none_without_on_disk_match() {
    let entries = parse_bcd_entries("identifier {fwbootmgr}\ndescription grub\n");
    assert_eq!(get_grub_location(&entries, &None), None);
}

#[test]
fn firmware_display_lines() {
    let entries = parse_bcd_entries(DUMP);
    let lines = format_fw_entries(&entries);
    assert_eq!(lines.len(), 3);
    assert_eq!(lines[0], ">  UEFI Loader ({fwbootmgr})");
    assert_eq!(lines[1], "  * ubuntu ({1111})");
    assert_eq!(lines[2], "    Windows Boot Manager ({2222})");
}

#[test]
fn order_continuation_ends_at_a_spaced_line() {
    let e = parse_entry(
        "displayorder {1111}\n{2222}\ntimeout 5\n{3333}\n",
        &Vec::new(),
    );
    assert_eq!(e.displayorder, vec!["{1111}", "{2222}"]);
    assert_eq!(e.timeout, 5);
}
