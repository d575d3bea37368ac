use sysmon::windows::{
    count_established, count_from_output, count_lan_devices, count_listening, counter_bytes,
    installed_apps, newest_recent_link, os_name_from_output, os_version_from_output,
    seconds_from_output, uptime_from_ticks, TCP_ESTABLISHED, TCP_LISTEN,
};

#[test]
fn ticks_to_uptime() {
    let info = uptime_from_ticks(3_600_999, 1_700_000_000);
    assert_eq!(info.uptime, 3600);
    assert_eq!(info.time_system_started, 1_699_996_400);
}

#[test]
fn tcp_table_states() {
    let states = vec![TCP_ESTABLISHED, TCP_LISTEN, 11, TCP_ESTABLISHED];
    assert_eq!(count_established(&states), 2);
    assert_eq!(count_listening(&states), 1);
    assert_eq!(count_established(&vec![]), 0);
}

#[test]
fn arp_table() {
    let arp = "\nInterface: 192.168.1.5 --- 0x7\n  Internet Address      Physical Address      Type\n  192.168.1.1           3c-e1-a1-11-22-33     dynamic\n  192.168.1.255         ff-ff-ff-ff-ff-ff     static\n  224.0.0.22            01-00-5e-00-00-16     static\n  192.168.1.8           00-00-00-00-00-00     invalid\n";
    assert_eq!(count_lan_devices(arp), 2);
}

#[test]
fn disk_counter_values() {
    assert_eq!(counter_bytes(true, 4096), 4096);
    assert_eq!(counter_bytes(true, -5), 0);
    assert_eq!(counter_bytes(false, 4096), 0);
}

#[test]
fn uninstall_records() {
    let names: Vec<String> = [" Zoom ", "7-Zip", "", "  ", "zoom", "Ärger", "ärger"]
        .iter().map(|s| s.to_string()).collect();
    assert_eq!(installed_apps(&names), vec![
        "7-Zip".to_string(),
        "Zoom".to_string(),
        "Ärger".to_string(),
    ]);
}

#[test]
fn recent_links() {
    let entries = vec![
        ("report.docx.lnk".to_string(), Some(2_000i128)),
        ("desktop.ini".to_string(), Some(9_000i128)),
        ("photo.lnk.lnk".to_string(), Some(5_000i128)),
        ("old.lnk".to_string(), Some(-10i128)),
        ("later.lnk".to_string(), None),
        ("tie.lnk".to_string(), Some(5_000i128)),
    ];
    assert_eq!(newest_recent_link(&entries), "photo");
    assert_eq!(newest_recent_link(&vec![]), "nothing found");
}

#[test]
fn powershell_outputs() {
    assert_eq!(os_name_from_output("Windows 10 Pro\r\n"), "Windows 10 Pro");
    assert_eq!(os_name_from_output(""), "Windows");
    assert_eq!(os_version_from_output("22H2\r\n"), "22H2");
    assert_eq!(os_version_from_output("\r\n"), "Unknown");
    assert_eq!(count_from_output(" 3\r\n"), 3);
    assert_eq!(count_from_output("n/a"), 0);
    assert_eq!(seconds_from_output("1700000000\r\n"), 1_700_000_000);
    assert_eq!(seconds_from_output(""), 0);
}
