use std::collections::HashMap;
use sysmon::linux::{
    application_dirs, count_connected, count_lan_devices, count_listening, count_monitors,
    count_peripherals, desktop_entry_name, disk_totals, disk_writer_report, get_last_disk_writer,
    get_recent_file_linux, installed_apps, is_desktop_file_name, last_suspend_seconds, last_update_time,
    os_name_from_release, os_version_from_release, proc_pids, real_block_devices,
    uptime_from_seconds, write_bytes_from_io,
};

const TCP: &str = "  sl  local_address rem_address   st tx_queue rx_queue tr tm->when retrnsmt   uid  timeout inode\n   0: 0100007F:0277 00000000:0000 0A 00000000:00000000 00:00000000 00000000     0        0 23045 1 0000000000000000 100 0 0 10 0\n   1: 0F02000A:A4B2 5DB8D822:01BB 01 00000000:00000000 02:00000B8C 00000000  1000        0 59124 2 0000000000000000 20 4 30 10 -1\n   2: 0F02000A:8A2C 8EFAB9AC:01BB 01 00000000:00000000 02:000001F4 00000000  1000        0 59200 2 0000000000000000 20 4 30 10 -1\n";

fn plain_count(contents: &str, state: &str) -> usize {
    contents.lines().skip(1).filter(|line| line.split_whitespace().nth(3) == Some(state)).count()
}

#[test]
fn recent_file_placeholder() {
    assert_eq!(get_recent_file_linux(), "might implement later");
}

#[test]
fn uptime_start_is_now_minus_uptime() {
    let info = uptime_from_seconds(3600, 1_700_000_000);
    assert_eq!(info.uptime, 3600);
    assert_eq!(info.time_system_started, 1_699_996_400);
    let early = uptime_from_seconds(50, 10);
    assert_eq!(early.uptime, 50);
    assert_eq!(early.time_system_started, 0);
}

#[test]
fn counts_tcp_states() {
    assert_eq!(count_connected(TCP), 2);
    assert_eq!(count_listening(TCP), 1);
    assert_eq!(count_connected(TCP), plain_count(TCP, "01"));
    assert_eq!(count_listening(TCP), plain_count(TCP, "0A"));
    assert_eq!(count_connected(""), 0);
    assert_eq!(count_connected("header only\n"), 0);
    // the header line is never counted, even when it looks like a row
    assert_eq!(count_connected("a b c 01\na b c 01\r\n"), 1);
}

#[test]
fn counts_arp_neighbours() {
    let arp = "IP address       HW type     Flags       HW address            Mask     Device\n192.168.1.1      0x1         0x2         3c:e1:a1:11:22:33     *        wlan0\n192.168.1.7      0x1         0x0         00:00:00:00:00:00     *        wlan0\nshort line\n";
    assert_eq!(count_lan_devices(arp), 2);
    let expected = arp.lines().skip(1)
        .filter(|line| line.split_whitespace().nth(3) != Some("00:00:00:00:00:00")).count();
    assert_eq!(count_lan_devices(arp), expected);
}

#[test]
fn os_release_names() {
    let release = "NAME=\"Ubuntu\"\nVERSION_ID=\"22.04\"\nPRETTY_NAME=\"Ubuntu 22.04.3 LTS\"\n";
    assert_eq!(os_name_from_release(Some(release)), "Ubuntu 22.04.3 LTS");
    assert_eq!(os_name_from_release(Some("NAME='Arch Linux'\nBUILD_ID=rolling\n")), "Arch Linux");
    assert_eq!(os_name_from_release(Some("ID=foo\n")), "Linux");
    assert_eq!(os_name_from_release(None), "Linux");
    assert_eq!(os_version_from_release(Some(release)), "22.04");
    assert_eq!(os_version_from_release(Some("NAME=Arch\nBUILD_ID=Rolling\n")), "Rolling Release");
    assert_eq!(os_version_from_release(Some("BUILD_ID=\"20240101\"\n")), "20240101");
    assert_eq!(os_version_from_release(Some("NAME=x\n")), "Unknown");
    assert_eq!(os_version_from_release(None), "Unknown");
}

#[test]
fn block_devices_and_disk_totals() {
    let names: Vec<String> = ["sda", "loop0", "dm-1", "nvme0n1", "ram0", "zram0"]
        .iter().map(|s| s.to_string()).collect();
    let devices = real_block_devices(&names);
    assert_eq!(devices, vec!["sda".to_string(), "nvme0n1".to_string()]);
    let stats = "   8       0 sda 100 0 2000 0 50 0 3000 0 0 0 0\n   8       1 sda1 1 0 99 0 1 0 99 0 0 0 0\n 259       0 nvme0n1 10 0 10 0 10 0 40 0 0 0 0\n   7       0 loop0 1 0 5 0 1 0 5 0 0 0 0\n short line\n";
    assert_eq!(disk_totals(stats, &devices), Some((2010 * 512, 3040 * 512)));
    assert_eq!(disk_totals("", &devices), Some((0, 0)));
    let huge = "1 1 sda 0 0 18446744073709551615 0 0 0 0 0\n";
    assert_eq!(disk_totals(huge, &devices), None);
}

#[test]
fn usb_peripherals_and_monitors() {
    let usb = vec![
        ("usb1".to_string(), "09\n".to_string()),
        ("1-1".to_string(), "00\n".to_string()),
        ("1-1:1.0".to_string(), "".to_string()),
        ("1-2".to_string(), "09\n".to_string()),
        ("2-3".to_string(), "".to_string()),
    ];
    assert_eq!(count_peripherals(&usb), 2);
    let drm = vec![
        ("card0".to_string(), "".to_string()),
        ("card0-HDMI-A-1".to_string(), "connected\n".to_string()),
        ("card0-eDP-1".to_string(), "disconnected\n".to_string()),
        ("card1-DP-2".to_string(), "connected".to_string()),
    ];
    assert_eq!(count_monitors(&drm), 2);
}

#[test]
fn first_package_record_wins() {
    assert_eq!(last_update_time(&vec![None, Some(1700), Some(1800)]), 1700);
    assert_eq!(last_update_time(&vec![None, None]), 0);
    assert_eq!(last_update_time(&vec![]), 0);
}

#[test]
fn pids_and_write_bytes() {
    let names: Vec<String> = ["1", "self", "42", "-3", "+7", "sys"].iter().map(|s| s.to_string()).collect();
    assert_eq!(proc_pids(&names), vec![1, 42, -3, 7]);
    let io = "rchar: 100\nwchar: 200\nsyscr: 1\nsyscw: 2\nread_bytes: 4096\nwrite_bytes: 8192\ncancelled_write_bytes: 0\n";
    assert_eq!(write_bytes_from_io(io), 8192);
    assert_eq!(write_bytes_from_io("write_bytes: 1 2\nwrite_bytes: 5\n"), 0);
    assert_eq!(write_bytes_from_io("rchar: 1\n"), 0);
}

#[test]
fn disk_writer_tracks_growth() {
    let mut history: HashMap<i32, u64> = HashMap::new();
    let first = vec![(10, 100), (20, 500)];
    assert_eq!(get_last_disk_writer(&mut history, &first), None);
    assert_eq!(history.len(), 2);
    let second = vec![(10, 400), (20, 600), (30, 9000)];
    assert_eq!(get_last_disk_writer(&mut history, &second), Some(10));
    assert_eq!(history.get(&30), Some(&9000));
    // the same totals again: nobody wrote
    assert_eq!(get_last_disk_writer(&mut history, &second), None);
    // a process read twice with the same total: still nobody wrote
    let repeated = vec![(10, 400), (10, 400), (20, 600)];
    assert_eq!(get_last_disk_writer(&mut history, &repeated), None);
    assert_eq!(get_last_disk_writer(&mut history, &repeated), None);
    assert_eq!(history.get(&10), Some(&400));
    assert_eq!(disk_writer_report(Some(10), Some("firefox\n")), "firefox (pid 10)");
    assert_eq!(disk_writer_report(Some(-5), None), "unknown (pid -5)");
    assert_eq!(disk_writer_report(None, Some("x")), "(Writing processes)");
}

#[test]
fn journal_suspend_time() {
    let log = "{\"__CURSOR\" : \"s=1\", \"__REALTIME_TIMESTAMP\" : \"1700000000123456\", \"MESSAGE\" : \"x\"}\n{\"MESSAGE\" : \"no time here\"}\n";
    assert_eq!(last_suspend_seconds(log), Some(1_700_000_000));
    assert_eq!(last_suspend_seconds(""), None);
    assert_eq!(last_suspend_seconds("{\"__REALTIME_TIMESTAMP\":\"12\"}"), None);
}

#[test]
fn desktop_entries() {
    let entry = "[Desktop Entry]\nType=Application\nName=Firefox\nName= Firefox Web Browser \n[Desktop Action new]\nName=New Window\n";
    assert_eq!(desktop_entry_name(entry), Some("Firefox Web Browser".to_string()));
    assert_eq!(desktop_entry_name("[Desktop Entry]\nName=Tool\nNoDisplay=true\n"), None);
    assert_eq!(desktop_entry_name("[Desktop Entry]\nHidden=true\nName=Tool\n"), None);
    assert_eq!(desktop_entry_name("[Desktop Entry]\nExec=x\n"), None);
    assert_eq!(desktop_entry_name("[Other]\nName=Late\n"), None);
}

#[test]
fn application_search_dirs() {
    let dirs = application_dirs("/home/ann", None, None);
    assert_eq!(dirs, vec![
        "/home/ann/.local/share/applications".to_string(),
        "/usr/local/share/applications".to_string(),
        "/usr/share/applications".to_string(),
        "/var/lib/flatpak/exports/share/applications".to_string(),
        "/var/lib/snapd/desktop/applications".to_string(),
    ]);
    let custom = application_dirs("/home/ann", Some("/data/"), Some("/a::/b"));
    assert_eq!(custom, vec![
        "/data/applications".to_string(),
        "/a/applications".to_string(),
        "/b/applications".to_string(),
        "/var/lib/flatpak/exports/share/applications".to_string(),
        "/var/lib/snapd/desktop/applications".to_string(),
    ]);
}

#[test]
fn installed_apps_are_unique_and_sorted() {
    let found: Vec<String> = ["zed", "Firefox", "", "FIREFOX", "alacritty", "Émile", "GIMP"]
        .iter().map(|s| s.to_string()).collect();
    let apps = installed_apps(&found);
    assert_eq!(apps, vec![
        "alacritty".to_string(),
        "Firefox".to_string(),
        "GIMP".to_string(),
        "zed".to_string(),
        "Émile".to_string(),
    ]);
}

#[test]
fn desktop_file_names() {
    for name in ["firefox.desktop", ".desktop", "a.b.desktop", "desktop", "x.desktop.bak", "..desktop"] {
        let expected = std::path::Path::new(name).extension().map_or(false, |e| e == "desktop");
        assert_eq!(is_desktop_file_name(name), expected, "{}", name);
    }
}
