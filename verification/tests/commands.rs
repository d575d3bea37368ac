use sysmon::commands::{
    average_cpu_frequency, disk_io_since_last, is_likely_incomplete_download, last_started_process,
    network_totals, newest_file_in, DownloadEntry,
};
use sysmon::{ConnectionInfo, UptimeInfo};

#[test]
fn disk_traffic_between_polls() {
    let mut last = None;
    assert_eq!(disk_io_since_last(&mut last, 1000, 2000), (0, 0));
    assert_eq!(last, Some((1000, 2000)));
    assert_eq!(disk_io_since_last(&mut last, 1500, 2600), (500, 600));
    assert_eq!(disk_io_since_last(&mut last, 1500, 2600), (0, 0));
    assert_eq!(disk_io_since_last(&mut last, 100, 2700), (0, 100));
    assert_eq!(last, Some((100, 2700)));
}

#[test]
fn network_sums() {
    assert_eq!(network_totals(&vec![(10, 20), (1, 2)]), Some((11, 22)));
    assert_eq!(network_totals(&vec![]), Some((0, 0)));
    assert_eq!(network_totals(&vec![(u64::MAX, 0), (1, 0)]), None);
}

#[test]
fn cpu_average() {
    assert_eq!(average_cpu_frequency(&vec![2400, 3600, 3000]), Some(3000));
    assert_eq!(average_cpu_frequency(&vec![1, 2]), Some(1));
    assert_eq!(average_cpu_frequency(&vec![]), Some(0));
    assert_eq!(average_cpu_frequency(&vec![u64::MAX, 1]), None);
}

#[test]
fn newest_process() {
    let procs = vec![
        (100, "init".to_string()),
        (900, "firefox".to_string()),
        (900, "later-tie".to_string()),
        (300, "bash".to_string()),
    ];
    assert_eq!(last_started_process(&procs), "firefox");
    assert_eq!(last_started_process(&vec![]), "no processes found");
}

#[test]
fn incomplete_downloads() {
    assert!(is_likely_incomplete_download(".hidden"));
    assert!(is_likely_incomplete_download("movie.mkv.crdownload"));
    assert!(is_likely_incomplete_download("song.mp3.part"));
    assert!(is_likely_incomplete_download("app.dmg.download"));
    assert!(!is_likely_incomplete_download("report.pdf"));
    assert!(!is_likely_incomplete_download("partial"));
}

fn entry(name: &str, is_file: bool, modified: Option<i128>) -> DownloadEntry {
    DownloadEntry { name: name.to_string(), is_file, modified }
}

#[test]
fn newest_download() {
    let entries = vec![
        entry("a.pdf", true, Some(10)),
        entry("b.zip.part", true, Some(99)),
        entry("folder", false, Some(50)),
        entry("c.png", true, Some(20)),
        entry("d.txt", true, Some(20)),
        entry("e.txt", true, None),
    ];
    assert_eq!(newest_file_in(&entries), "d.txt");
    assert_eq!(newest_file_in(&vec![entry(".DS_Store", true, Some(1))]), "No files in Downloads");
}

#[test]
fn shared_records() {
    let info = UptimeInfo { uptime: 5, time_system_started: 10 };
    assert_eq!(info.uptime + info.time_system_started, 15);
    let c = ConnectionInfo {
        protocol: "tcp".to_string(),
        local_address: "127.0.0.1".to_string(),
        local_port: 80,
        remote_address: "10.0.0.1".to_string(),
        remote_port: 5000,
        state: "ESTABLISHED".to_string(),
        pid: Some(1),
        process_name: None,
    };
    assert_eq!(c.local_port, 80);
}

#[test]
fn disk_traffic_over_a_run_adds_up() {
    let polls: [(u64, u64); 5] = [(100, 7), (150, 7), (150, 40), (900, 41), (1000, 1000)];
    let mut last = None;
    let mut results = Vec::new();
    for (read, written) in polls.iter() {
        results.push(disk_io_since_last(&mut last, *read, *written));
    }
    assert_eq!(results[0], (0, 0));
    let read_sum: u64 = results[1..].iter().map(|d| d.0).sum();
    let written_sum: u64 = results[1..].iter().map(|d| d.1).sum();
    assert_eq!((read_sum, written_sum), (1000 - 100, 1000 - 7));
}
