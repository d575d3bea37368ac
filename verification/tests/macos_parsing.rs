use std::collections::HashMap;
use sysmon::macos::{
    app_name_from_bundle, boot_time_from_sysctl, count_displays, count_established,
    count_lan_devices, count_listening, count_peripherals, disk_totals, disk_writer_report,
    installed_apps, is_peripheral_line, last_sleep_from_pmset, listed_pids,
    os_version_from_output, pid_capacity, uptime_from_boot,
};

#[test]
fn boot_time_and_uptime() {
    let out = "{ sec = 1700000000, usec = 123456 } Tue Nov 14 22:13:20 2023\n";
    assert_eq!(boot_time_from_sysctl(out), 1_700_000_000);
    assert_eq!(boot_time_from_sysctl("garbage"), 0);
    assert_eq!(boot_time_from_sysctl("{ sec = abc, usec = 1 }"), 0);
    let info = uptime_from_boot(1_700_000_000, 1_700_003_600);
    assert_eq!(info.uptime, 3600);
    assert_eq!(info.time_system_started, 1_700_000_000);
    assert_eq!(uptime_from_boot(10, 5).uptime, 0);
}

#[test]
fn bundle_names_and_app_list() {
    assert_eq!(app_name_from_bundle("Safari.app"), Some("Safari".to_string()));
    assert_eq!(app_name_from_bundle("My.app.app"), Some("My".to_string()));
    assert_eq!(app_name_from_bundle(".app"), None);
    assert_eq!(app_name_from_bundle("notes.txt"), None);
    let files: Vec<String> = ["Xcode.app", "Safari.app", "readme", "safari.app", "Safari.app"]
        .iter().map(|s| s.to_string()).collect();
    assert_eq!(installed_apps(&files), vec![
        "Safari".to_string(),
        "safari".to_string(),
        "Xcode".to_string(),
    ]);
}

#[test]
fn version_output() {
    assert_eq!(os_version_from_output("14.1.1\n"), "14.1.1");
    assert_eq!(os_version_from_output("  \n"), "Unknown");
}

#[test]
fn netstat_counts() {
    let netstat = "Active Internet connections (including servers)\nProto Recv-Q Send-Q  Local Address          Foreign Address        (state)\ntcp4       0      0  192.168.1.5.52344      17.57.146.20.5223      ESTABLISHED\ntcp6       0      0  *.5000                 *.*                    LISTEN\ntcp4       0      0  *.7000                 *.*                    LISTEN\nudp4       0      0  *.*                    *.*                    ESTABLISHED\n";
    assert_eq!(count_established(netstat), 1);
    assert_eq!(count_listening(netstat), 2);
}

#[test]
fn arp_devices() {
    let arp = "? (192.168.1.1) at 3c:e1:a1:11:22:33 on en0 ifscope [ethernet]\n? (192.168.1.255) at ff:ff:ff:ff:ff:ff on en0 ifscope [ethernet]\n? (192.168.1.9) at (incomplete) on en0 ifscope [ethernet]\n";
    assert_eq!(count_lan_devices(arp), 1);
}

#[test]
fn usb_profile() {
    assert!(is_peripheral_line("Magic Keyboard:", "magic keyboard:"));
    assert!(!is_peripheral_line("USB 3.1 Bus:", "usb 3.1 bus:"));
    assert!(!is_peripheral_line("USB2.0 Hub:", "usb2.0 hub:"));
    assert!(!is_peripheral_line("Speed:", "speed:"));
    assert!(!is_peripheral_line("Speed: Up to 480 Mb/s", "speed: up to 480 mb/s"));
    let profile = "USB:\n\n    USB 3.1 Bus:\n\n      Host Controller Driver: AppleT8112USBXHCI\n\n        USB2.0 Hub:\n\n          Product ID: 0x0610\n\n            Magic Keyboard:\n\n              Speed: Up to 12 Mb/s\n              Serial Number:\n";
    assert_eq!(count_peripherals(profile), 1);
}

#[test]
fn display_profile() {
    let profile = "Graphics/Displays:\n\n    Apple M2:\n      Displays:\n        Color LCD:\n          Resolution: 2560 x 1664 Retina\n        DELL U2720Q:\n          Resolution: 3840 x 2160 (2160p/4K UHD 1 - Ultra High Definition)\n";
    assert_eq!(count_displays(profile), 2);
}

#[test]
fn ioreg_totals() {
    let ioreg = "+-o IOBlockStorageDriver  <class IOBlockStorageDriver>\n    {\n      \"Statistics\" = {\"Operations (Write)\"=1,\"Bytes (Read)\"=4096,\"Bytes (Write)\"=8192}\n      \"Statistics\" = {\"Bytes (Read)\"=1000,\"Bytes (Write)\"=x}\n    }\n";
    assert_eq!(disk_totals(ioreg), Some((5096, 8192)));
    let overflow = "\"Bytes (Read)\"=18446744073709551615\n\"Bytes (Read)\"=1\n";
    assert_eq!(disk_totals(overflow), None);
}

#[test]
fn pmset_sleep() {
    let log = "2024-01-02 10:00:00 +0100 Sleep                \tEntering Sleep state due to 'Idle Sleep':\n2024-01-03 11:00:00 +0100 Maintenance Sleep    \tEntering Sleep\n2024-01-04 09:30:00 +0100 Wake                 \tWake from Deep Idle\n";
    assert_eq!(last_sleep_from_pmset(log), "2024-01-02 10:00:00");
    assert_eq!(last_sleep_from_pmset("nothing\n"), "no sleep event found in the log");
}

#[test]
fn pid_buffer() {
    assert_eq!(pid_capacity(0), None);
    assert_eq!(pid_capacity(-4), None);
    assert_eq!(pid_capacity(40), Some(10));
    let buffer = vec![1, 0, 300, 42, 7];
    assert_eq!(listed_pids(&buffer, 16), vec![1, 300, 42]);
    assert_eq!(listed_pids(&buffer, 400), vec![1, 300, 42, 7]);
    assert_eq!(listed_pids(&buffer, 0), Vec::<i32>::new());
}

#[test]
fn busiest_mac_writer() {
    let mut history: HashMap<i32, u64> = HashMap::new();
    history.insert(5, 1000);
    history.insert(6, 10);
    let samples = vec![(5, 1500), (6, 510), (7, 99999)];
    let busiest = sysmon::macos::get_last_disk_writer(&mut history, &samples);
    assert_eq!(busiest, Some(5));
    assert_eq!(history.len(), 3);
    assert_eq!(history.get(&7), Some(&99999));
    assert_eq!(sysmon::macos::get_last_disk_writer(&mut history, &samples), None);
    assert_eq!(disk_writer_report(Some(5), Some("kernel_task")), "kernel_task (pid 5)");
    assert_eq!(disk_writer_report(Some(5), None), "unknown (pid 5)");
    assert_eq!(disk_writer_report(None, None), "No currently writing process");
}
