use waybar_widgets::diagnostics::{
    any_disk_full, battery_low, diag_common, diag_desktop, diag_laptop, format_info,
    homelab_ok, parse_host_type, HostType, CONTROLLER_MAC, HEADSET_MAC, MOUSE_MAC,
};

fn report_with(mac: &str, percentage_line: &str, gap: usize) -> String {
    let mut r = String::from("Device: /org/freedesktop/UPower/devices/line_power_AC\n  online: yes\n\n");
    r.push_str(&format!("Device: /org/freedesktop/UPower/devices/headset_dev\n  serial:               {}\n", mac));
    for i in 0..gap {
        r.push_str(&format!("  filler{}:            x\n", i));
    }
    r.push_str(percentage_line);
    r.push('\n');
    r
}

#[test]
fn host_types_by_name() {
    assert_eq!(parse_host_type("desktop"), Some(HostType::Desktop));
    assert_eq!(parse_host_type("laptop"), Some(HostType::Laptop));
    assert_eq!(parse_host_type("Desktop"), None);
    assert_eq!(parse_host_type(""), None);
}

#[test]
fn desktop_warnings_in_order() {
    assert_eq!(diag_desktop(false, false, false), Vec::<String>::new());
    assert_eq!(
        diag_desktop(true, true, true),
        vec![
            "\u{f02cb} \u{f12a1}".to_string(),
            "\u{efba} \u{f12a1}".to_string(),
            "\u{f05ba} \u{f12a1}".to_string()
        ]
    );
    assert_eq!(diag_desktop(false, true, false), vec!["\u{efba} \u{f12a1}".to_string()]);
}

#[test]
fn laptop_has_no_warnings() {
    assert!(diag_laptop().is_empty());
}

#[test]
fn common_warnings_in_order() {
    assert_eq!(diag_common(false, true, false), Vec::<String>::new());
    assert_eq!(
        diag_common(true, false, true),
        vec!["\u{ede9} ".to_string(), "\u{f05a9} ".to_string(), "\u{f1214} ".to_string()]
    );
    assert_eq!(diag_common(false, false, false), vec!["\u{f05a9} ".to_string()]);
}

#[test]
fn format_info_joins_with_bars() {
    assert_eq!(
        format_info(vec!["A".to_string(), "B".to_string()]),
        "{ \"text\": \"A | B\", \"tooltip\": \"\", \"class\": \"\" } "
    );
    assert_eq!(
        format_info(Vec::new()),
        "{ \"text\": \"\", \"tooltip\": \"\", \"class\": \"\" } "
    );
}

#[test]
fn battery_low_below_twenty() {
    let report = report_with(HEADSET_MAC, "    percentage:          15%", 3);
    assert!(battery_low(&report, HEADSET_MAC));
    let report = report_with(HEADSET_MAC, "    percentage:          20%", 3);
    assert!(!battery_low(&report, HEADSET_MAC));
}

#[test]
fn battery_of_another_device_is_not_read() {
    let report = report_with(MOUSE_MAC, "    percentage:          5%", 1);
    assert!(!battery_low(&report, HEADSET_MAC));
    assert!(battery_low(&report, MOUSE_MAC));
    assert!(!battery_low("", CONTROLLER_MAC));
}

#[test]
fn battery_reading_within_twenty_lines() {
    // The percentage line is the 20th line after the device line: still read.
    let report = report_with(HEADSET_MAC, "    percentage:          3%", 19);
    assert!(battery_low(&report, HEADSET_MAC));
    // The 21st line after it is not.
    let report = report_with(HEADSET_MAC, "    percentage:          3%", 20);
    assert!(!battery_low(&report, HEADSET_MAC));
}

#[test]
fn battery_unreadable_percentage_is_skipped() {
    let mut report = report_with(HEADSET_MAC, "    percentage:          n/a", 1);
    report.push_str("    percentage:          10%\n");
    assert!(battery_low(&report, HEADSET_MAC));
    let report = report_with(HEADSET_MAC, "    percentage:", 1);
    assert!(!battery_low(&report, HEADSET_MAC));
}

#[test]
fn disk_full_above_eighty() {
    let df = "Filesystem     Use% Mounted on\n/dev/nvme0n1p2  45% /\n/dev/sda1  81% /data\n";
    assert!(any_disk_full(df));
    let df = "Filesystem     Use% Mounted on\n/dev/nvme0n1p2  80% /\n";
    assert!(!any_disk_full(df));
}

#[test]
fn disk_boot_and_pseudo_filesystems_ignored() {
    let df = "Filesystem Use% Mounted on\n/dev/nvme0n1p1 99% /boot\ntmpfs 99% /run\n/dev/x\n/dev/y abc% /\n";
    assert!(!any_disk_full(df));
    assert!(!any_disk_full(""));
}

#[test]
fn homelab_status() {
    assert!(homelab_ok("200"));
    assert!(homelab_ok(" 200\n"));
    assert!(!homelab_ok("404"));
    assert!(!homelab_ok("2000"));
    assert!(!homelab_ok(""));
}

#[test]
fn diagnostics_line_is_one_line() {
    for bits in 0..64u32 {
        let b = |i: u32| bits & (1 << i) != 0;
        let line = format_info([diag_desktop(b(0), b(1), b(2)), diag_common(b(3), b(4), b(5))].concat());
        assert!(!line.contains('\n'));
    }
}

#[test]
fn disk_full_survives_more_lines() {
    let a = "Filesystem Use% Mounted on\n/dev/sda1 91% /data\n";
    let b = "Filesystem Use% Mounted on\n/dev/nvme0n1p2 12% /\n/dev/sda1 91% /data\n/dev/sdb1 3% /x\n";
    assert!(any_disk_full(a));
    assert!(any_disk_full(b));
}
