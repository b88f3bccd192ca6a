use bootmgr::catalog::Handle;
use bootmgr::firmware::parse_bcd_entries;
use bootmgr::mount::{
    mount_step, next_action, volume_device_matches, volume_guid_for_query, mount_dir_name,
    MountAction, MountEvent, MountPhase, TempMount,
};
use bootmgr::text::{parse_index, parse_u32, u64_to_dec};
use bootmgr::BootError;

#[test]
fn reported_device_path_is_cleaned_before_comparing() {
    assert!(volume_device_matches("\\Device\\HarddiskVolume3\u{0}\u{0}", "\\Device\\HarddiskVolume3"));
    assert!(volume_device_matches("\\Device\\HarddiskVolume3 \u{feff}\u{a0}", "\\Device\\HarddiskVolume3"));
    assert!(!volume_device_matches("\\Device\\HarddiskVolume4", "\\Device\\HarddiskVolume3"));
    assert!(!volume_device_matches("\u{0}\\Device\\HarddiskVolume3", "\\Device\\HarddiskVolume3"));
}

#[test]
fn volume_identity_is_normalized_for_querying() {
    assert_eq!(volume_guid_for_query("\\\\?\\Volume{abcd-1234}\\"), "Volume{abcd-1234}");
    assert_eq!(volume_guid_for_query("Volume{abcd-1234}"), "Volume{abcd-1234}");
    assert_eq!(volume_guid_for_query("\\\\?\\Volume{x}\\\\\\"), "Volume{x}");
}

#[test]
fn mount_directory_name_is_process_and_moment_derived() {
    assert_eq!(mount_dir_name(123, 456), "grub_mgr_mount_123_456\\");
    assert_eq!(mount_dir_name(0, 0), "grub_mgr_mount_0_0\\");
}

#[test]
fn decimal_rendering_and_parsing() {
    assert_eq!(u64_to_dec(0), "0");
    assert_eq!(u64_to_dec(10), "10");
    assert_eq!(u64_to_dec(9876543210), "9876543210");
    assert_eq!(parse_index("42"), Some(42));
    assert_eq!(parse_index(""), None);
    assert_eq!(parse_index("4 2"), None);
    assert_eq!(parse_index("-1"), None);
    assert_eq!(parse_u32("4294967295"), Some(u32::MAX));
    assert_eq!(parse_u32("4294967296"), None);
}

#[test]
fn failed_access_still_releases_and_keeps_its_error() {
    let p = MountPhase::Unmounted;
    assert!(matches!(next_action(&p), MountAction::DoMount));
    let p = mount_step(p, MountEvent::MountOk);
    assert!(matches!(next_action(&p), MountAction::DoAccess));
    let p = mount_step(p, MountEvent::AccessFailed(BootError::IoError));
    assert!(matches!(next_action(&p), MountAction::DoUnmount));
    let p = mount_step(p, MountEvent::UnmountFailed);
    assert!(matches!(next_action(&p), MountAction::Report));
    assert!(matches!(p, MountPhase::Finished { outcome: Err(BootError::IoError) }));
}

#[test]
fn successful_access_reports_success_through_release() {
    let p = mount_step(MountPhase::Unmounted, MountEvent::MountOk);
    let p = mount_step(p, MountEvent::AccessOk);
    assert!(matches!(next_action(&p), MountAction::DoUnmount));
    let p = mount_step(p, MountEvent::UnmountOk);
    assert!(matches!(p, MountPhase::Finished { outcome: Ok(()) }));
}

#[test]
fn failed_mount_finishes_with_its_error() {
    let p = mount_step(MountPhase::Unmounted, MountEvent::MountFailed(BootError::NotFound));
    assert!(matches!(p, MountPhase::Finished { outcome: Err(BootError::NotFound) }));
}

#[test]
fn temp_mount_pairs_device_and_mount_point() {
    let m = TempMount::new(String::from("\\Device\\HarddiskVolume3"), String::from("C:\\Temp\\m\\"));
    assert_eq!(m.device, "\\Device\\HarddiskVolume3");
    assert_eq!(m.mount_point, "C:\\Temp\\m\\");
}

#[test]
fn handle_caches_the_resolved_location() {
    let dump = "identifier {fwbootmgr}\ndisplayorder {1111}\n\n\
identifier {1111}\ndevice partition=C:\npath \\EFI\\grub\\grubx64.efi\ndescription ubuntu\n";
    let entries = parse_bcd_entries(dump);
    let mut handle = Handle::new();
    assert_eq!(handle.cached_location(), &None);
    assert_eq!(handle.resolve_location(&entries).unwrap(), "C:");
    assert_eq!(handle.cached_location().as_deref(), Some("C:"));
    let unrelated = Vec::new();
    assert_eq!(handle.resolve_location(&unrelated).unwrap(), "C:");
}

#[test]
fn handle_not_found_leaves_cache_empty() {
    let mut handle = Handle::new();
    let none = Vec::new();
    assert_eq!(handle.resolve_location(&none).unwrap_err(), BootError::NotFound);
    assert_eq!(handle.cached_location(), &None);
}
