//! The figures the monitor's commands compute from what the system reports:
//! disk traffic since the last poll, network and CPU totals, the newest
//! process, and the newest finished download.
use vstd::prelude::*;
use crate::strings::chars_to_string;
use crate::text::{ends_with, ends_with_exec, starts_with, starts_with_exec, to_chars};

verus! {

// ---------------------------------------------------------------- disk traffic

/// One poll of the disk counters: the traffic since the previous poll
/// (nothing on the first poll, and nothing for a counter that went down),
/// and the totals to remember for the next one.
pub open spec fn disk_io_step(last: Option<(u64, u64)>, current: (u64, u64)) -> ((u64, u64), Option<(u64, u64)>) {
    let delta = match last {
        Some(prev) => (
            if current.0 >= prev.0 {
                (current.0 - prev.0) as u64
            } else {
                0
            },
            if current.1 >= prev.1 {
                (current.1 - prev.1) as u64
            } else {
                0
            },
        ),
        None => (0, 0),
    };
    (delta, Some(current))
}

/// The bytes read and written since the previous poll, given the totals
/// read now; `last_disk_io` holds the totals of the previous poll and is
/// replaced by the current ones.
pub fn disk_io_since_last(last_disk_io: &mut Option<(u64, u64)>, current_read: u64, current_written: u64) -> (delta: (u64, u64))
    ensures
        (delta, *final(last_disk_io)) == disk_io_step(*old(last_disk_io), (current_read, current_written)),
{
    let delta = match *last_disk_io {
        Some((prev_read, prev_written)) => (
            current_read.saturating_sub(prev_read),
            current_written.saturating_sub(prev_written),
        ),
        None => (0, 0),
    };
    *last_disk_io = Some((current_read, current_written));
    delta
}

/// Polling twice in a row with the same totals reports no traffic the
/// second time.
pub proof fn lemma_disk_io_repeat_poll(last: Option<(u64, u64)>, current: (u64, u64))
    ensures
        disk_io_step(disk_io_step(last, current).1, current).0 == (0u64, 0u64),
{
}

/// With counters that only grow, the traffic reported by two polls adds
/// up to the traffic between the first totals and the last.
pub proof fn lemma_disk_io_polls_add_up(a: (u64, u64), b: (u64, u64), c: (u64, u64))
    requires
        a.0 <= b.0 <= c.0,
        a.1 <= b.1 <= c.1,
    ensures
        disk_io_step(Some(a), b).0.0 + disk_io_step(disk_io_step(Some(a), b).1, c).0.0
            == disk_io_step(Some(a), c).0.0,
        disk_io_step(Some(a), b).0.1 + disk_io_step(disk_io_step(Some(a), b).1, c).0.1
            == disk_io_step(Some(a), c).0.1,
{
}

/// A run of polls with the given totals, starting from the state `last`:
/// the traffic each poll reports, in order, and the state left after the
/// last one.
pub open spec fn disk_io_polls(last: Option<(u64, u64)>, polls: Seq<(u64, u64)>) -> (Seq<(u64, u64)>, Option<(u64, u64)>)
    decreases polls.len(),
{
    if polls.len() == 0 {
        (seq![], last)
    } else {
        let before = disk_io_polls(last, polls.drop_last());
        let step = disk_io_step(before.1, polls.last());
        (before.0.push(step.0), step.1)
    }
}

/// The bytes read over a list of reported traffic.
pub open spec fn total_read(deltas: Seq<(u64, u64)>) -> int
    decreases deltas.len(),
{
    if deltas.len() == 0 {
        0
    } else {
        total_read(deltas.drop_last()) + deltas.last().0
    }
}

/// The bytes written over a list of reported traffic.
pub open spec fn total_written(deltas: Seq<(u64, u64)>) -> int
    decreases deltas.len(),
{
    if deltas.len() == 0 {
        0
    } else {
        total_written(deltas.drop_last()) + deltas.last().1
    }
}

/// Totals that never go down from one poll to a later one.
pub open spec fn never_decrease(polls: Seq<(u64, u64)>) -> bool {
    forall|i: int, j: int|
        0 <= i <= j < polls.len() ==> #[trigger] polls[i].0 <= #[trigger] polls[j].0 && polls[i].1
            <= polls[j].1
}

proof fn lemma_disk_io_polls_from_start(polls: Seq<(u64, u64)>)
    requires
        polls.len() > 0,
        never_decrease(polls),
    ensures
        disk_io_polls(None, polls).0.len() == polls.len(),
        disk_io_polls(None, polls).1 == Some(polls.last()),
        disk_io_polls(None, polls).0[0] == (0u64, 0u64),
        total_read(disk_io_polls(None, polls).0) == polls.last().0 - polls[0].0,
        total_written(disk_io_polls(None, polls).0) == polls.last().1 - polls[0].1,
    decreases polls.len(),
{
    let init = polls.drop_last();
    let last = polls.len() - 1;
    assert(polls.last() == polls[last]);
    if init.len() > 0 {
        assert forall|i: int, j: int| 0 <= i <= j < init.len() implies #[trigger] init[i].0
            <= #[trigger] init[j].0 && init[i].1 <= init[j].1 by {
            assert(init[i] == polls[i] && init[j] == polls[j]);
        }
        lemma_disk_io_polls_from_start(init);
        assert(init.last() == polls[last - 1]);
        assert(init[0] == polls[0]);
        assert(polls[last - 1].0 <= polls[last].0 && polls[last - 1].1 <= polls[last].1);
        let before = disk_io_polls(None, init);
        let after = disk_io_polls(None, polls);
        assert(after.0 == before.0.push(disk_io_step(before.1, polls.last()).0));
        assert(after.0.drop_last() =~= before.0);
        assert(after.0[0] == before.0[0]);
        assert(after.0.last() == disk_io_step(before.1, polls.last()).0);
        assert(total_read(after.0) == total_read(before.0) + after.0.last().0);
        assert(total_written(after.0) == total_written(before.0) + after.0.last().1);
    } else {
        let after = disk_io_polls(None, polls);
        assert(disk_io_polls(None, init).0.len() == 0);
        assert(after.0.drop_last() =~= seq![]);
        assert(total_read(after.0.drop_last()) == 0);
        assert(total_written(after.0.drop_last()) == 0);
        assert(after.0.last() == (0u64, 0u64));
        assert(total_read(after.0) == 0);
        assert(total_written(after.0) == 0);
    }
}

proof fn lemma_totals_first(deltas: Seq<(u64, u64)>)
    requires
        deltas.len() > 0,
    ensures
        total_read(deltas) == deltas[0].0 + total_read(deltas.drop_first()),
        total_written(deltas) == deltas[0].1 + total_written(deltas.drop_first()),
    decreases deltas.len(),
{
    let rest = deltas.drop_first();
    if deltas.len() > 1 {
        lemma_totals_first(deltas.drop_last());
        assert(deltas.drop_last().drop_first() =~= rest.drop_last());
        assert(rest.last() == deltas.last());
        assert(deltas.drop_last()[0] == deltas[0]);
        assert(total_read(rest) == total_read(rest.drop_last()) + rest.last().0);
        assert(total_written(rest) == total_written(rest.drop_last()) + rest.last().1);
        assert(total_read(deltas) == total_read(deltas.drop_last()) + deltas.last().0);
        assert(total_read(deltas.drop_last()) == deltas[0].0 + total_read(rest.drop_last()));
        assert(total_read(deltas) == deltas[0].0 + total_read(rest));
        assert(total_written(deltas) == total_written(deltas.drop_last()) + deltas.last().1);
        assert(total_written(deltas.drop_last()) == deltas[0].1 + total_written(rest.drop_last()));
    } else {
        assert(rest.len() == 0);
        assert(deltas.drop_last().len() == 0);
        assert(deltas.last() == deltas[0]);
        assert(total_read(rest) == 0);
        assert(total_written(rest) == 0);
        assert(total_read(deltas.drop_last()) == 0);
        assert(total_written(deltas.drop_last()) == 0);
        assert(total_read(deltas) == total_read(deltas.drop_last()) + deltas.last().0);
        assert(total_written(deltas) == total_written(deltas.drop_last()) + deltas.last().1);
    }
}

/// Polling from the start with counters that never go down: the first poll
/// reports no traffic, and the traffic the later polls report adds up to
/// the growth of the counters between the first poll and the last.
pub proof fn lemma_disk_io_polls_add_up_over_run(polls: Seq<(u64, u64)>)
    requires
        polls.len() > 0,
        never_decrease(polls),
    ensures
        disk_io_polls(None, polls).0.len() == polls.len(),
        disk_io_polls(None, polls).0[0] == (0u64, 0u64),
        total_read(disk_io_polls(None, polls).0.drop_first()) == polls.last().0 - polls[0].0,
        total_written(disk_io_polls(None, polls).0.drop_first()) == polls.last().1 - polls[0].1,
{
    lemma_disk_io_polls_from_start(polls);
    lemma_totals_first(disk_io_polls(None, polls).0);
}

// ---------------------------------------------------------------- network and CPU

pub open spec fn sum_received(samples: Seq<(u64, u64)>) -> nat
    decreases samples.len(),
{
    if samples.len() == 0 {
        0
    } else {
        sum_received(samples.drop_last()) + samples.last().0 as nat
    }
}

pub open spec fn sum_transmitted(samples: Seq<(u64, u64)>) -> nat
    decreases samples.len(),
{
    if samples.len() == 0 {
        0
    } else {
        sum_transmitted(samples.drop_last()) + samples.last().1 as nat
    }
}

proof fn lemma_sums_grow(samples: Seq<(u64, u64)>, k: int)
    requires
        0 <= k <= samples.len(),
    ensures
        sum_received(samples.take(k)) <= sum_received(samples),
        sum_transmitted(samples.take(k)) <= sum_transmitted(samples),
    decreases samples.len() - k,
{
    if k < samples.len() {
        lemma_sums_grow(samples, k + 1);
        assert(samples.take(k + 1).drop_last() =~= samples.take(k));
    } else {
        assert(samples.take(k) =~= samples);
    }
}

/// The bytes received and transmitted over all network interfaces since
/// their last refresh, from each interface's `(received, transmitted)`;
/// `None` when a sum does not fit in a `u64`.
pub fn network_totals(samples: &Vec<(u64, u64)>) -> (r: Option<(u64, u64)>)
    ensures
        r == if sum_received(samples@) <= u64::MAX && sum_transmitted(samples@) <= u64::MAX {
            Some((sum_received(samples@) as u64, sum_transmitted(samples@) as u64))
        } else {
            None
        },
{
    let mut bytes_in: u64 = 0;
    let mut bytes_out: u64 = 0;
    let mut i: usize = 0;
    while i < samples.len()
        invariant
            i <= samples.len(),
            bytes_in == sum_received(samples@.take(i as int)),
            bytes_out == sum_transmitted(samples@.take(i as int)),
        decreases samples.len() - i,
    {
        assert(samples@.take(i + 1).drop_last() =~= samples@.take(i as int));
        let (received, transmitted) = samples[i];
        proof {
            lemma_sums_grow(samples@, i + 1);
        }
        if bytes_in > u64::MAX - received || bytes_out > u64::MAX - transmitted {
            return None;
        }
        bytes_in = bytes_in + received;
        bytes_out = bytes_out + transmitted;
        i += 1;
    }
    assert(samples@.take(i as int) =~= samples@);
    Some((bytes_in, bytes_out))
}

pub open spec fn sum_of(values: Seq<u64>) -> nat
    decreases values.len(),
{
    if values.len() == 0 {
        0
    } else {
        sum_of(values.drop_last()) + values.last() as nat
    }
}

proof fn lemma_sum_of_grows(values: Seq<u64>, k: int)
    requires
        0 <= k <= values.len(),
    ensures
        sum_of(values.take(k)) <= sum_of(values),
    decreases values.len() - k,
{
    if k < values.len() {
        lemma_sum_of_grows(values, k + 1);
        assert(values.take(k + 1).drop_last() =~= values.take(k));
    } else {
        assert(values.take(k) =~= values);
    }
}

/// The average clock speed over the logical cores (MHz, rounded down), 0
/// when there are none; `None` when the sum of the speeds does not fit in
/// a `u64`.
pub fn average_cpu_frequency(frequencies: &Vec<u64>) -> (r: Option<u64>)
    ensures
        r == if frequencies.len() == 0 {
            Some(0u64)
        } else if sum_of(frequencies@) <= u64::MAX {
            Some((sum_of(frequencies@) / (frequencies.len() as nat)) as u64)
        } else {
            None
        },
{
    if frequencies.len() == 0 {
        return Some(0);
    }
    let mut total: u64 = 0;
    let mut i: usize = 0;
    while i < frequencies.len()
        invariant
            i <= frequencies.len(),
            total == sum_of(frequencies@.take(i as int)),
        decreases frequencies.len() - i,
    {
        assert(frequencies@.take(i + 1).drop_last() =~= frequencies@.take(i as int));
        proof {
            lemma_sum_of_grows(frequencies@, i + 1);
        }
        if total > u64::MAX - frequencies[i] {
            return None;
        }
        total = total + frequencies[i];
        i += 1;
    }
    assert(frequencies@.take(i as int) =~= frequencies@);
    Some(total / (frequencies.len() as u64))
}

// ---------------------------------------------------------------- processes

/// The newest process as the scan keeps it: the first one with the latest
/// start time, with that time; `None` when there are no processes.
pub open spec fn newest_process(processes: Seq<(u64, String)>) -> Option<(Seq<char>, u64)>
    decreases processes.len(),
{
    if processes.len() == 0 {
        None
    } else {
        let best = newest_process(processes.drop_last());
        let p = processes.last();
        match best {
            None => Some((p.1@, p.0)),
            Some(b) => if p.0 > b.1 {
                Some((p.1@, p.0))
            } else {
                best
            },
        }
    }
}

/// The name of the most recently started process, from each process's
/// start time and name; a note when there are none.
pub fn last_started_process(processes: &Vec<(u64, String)>) -> (name: String)
    ensures
        name@ == match newest_process(processes@) {
            Some(b) => b.0,
            None => "no processes found"@,
        },
{
    let mut newest_start_time: u64 = 0;
    let mut newest: Option<usize> = None;
    let mut i: usize = 0;
    while i < processes.len()
        invariant
            i <= processes.len(),
            match newest_process(processes@.take(i as int)) {
                Some(b) => newest matches Some(k) && k < i && processes@[k as int].1@ == b.0
                    && newest_start_time == b.1,
                None => newest is None,
            },
        decreases processes.len() - i,
    {
        assert(processes@.take(i + 1).drop_last() =~= processes@.take(i as int));
        assert(processes@.take(i + 1).last() == processes@[i as int]);
        let start_time = processes[i].0;
        if newest.is_none() || start_time > newest_start_time {
            newest_start_time = start_time;
            newest = Some(i);
        }
        i += 1;
    }
    assert(processes@.take(i as int) =~= processes@);
    match newest {
        Some(k) => processes[k].1.clone(),
        None => "no processes found".to_owned(),
    }
}

/// The process kept is one of them, and none started later.
pub proof fn lemma_newest_process_is_latest(processes: Seq<(u64, String)>)
    ensures
        processes.len() > 0 ==> newest_process(processes) is Some,
        newest_process(processes) matches Some(b) ==> (exists|k: int|
            0 <= k < processes.len() && processes[k].1@ == b.0 && processes[k].0 == b.1) && forall|
            k: int,
        |
            0 <= k < processes.len() ==> #[trigger] processes[k].0 <= b.1,
    decreases processes.len(),
{
    if processes.len() > 0 {
        let init = processes.drop_last();
        lemma_newest_process_is_latest(init);
        let last = processes.len() - 1;
        assert(processes[last] == processes.last());
        assert forall|k: int| 0 <= k < last implies processes[k] == #[trigger] init[k] by {}
        let b = newest_process(processes)->0;
        if newest_process(init) is None {
            assert(init.len() == 0);
            assert(b == (processes[last].1@, processes[last].0));
        } else {
            let bi = newest_process(init)->0;
            if processes[last].0 > bi.1 {
                assert(b == (processes[last].1@, processes[last].0));
                assert forall|k: int| 0 <= k < processes.len() implies #[trigger] processes[k].0
                    <= b.1 by {
                    if k < last {
                        assert(init[k].0 <= bi.1);
                    }
                }
            } else {
                assert(b == bi);
                let j = choose|j: int|
                    0 <= j < init.len() && init[j].1@ == bi.0 && init[j].0 == bi.1;
                assert(processes[j] == init[j]);
                assert forall|k: int| 0 <= k < processes.len() implies #[trigger] processes[k].0
                    <= b.1 by {
                    if k < last {
                        assert(init[k].0 <= bi.1);
                    }
                }
            }
        }
    }
}

// ---------------------------------------------------------------- downloads

/// A file name that is most likely a download still in progress: hidden
/// (leading `.`), or with the partial-download suffix of Chrome
/// (`.crdownload`), Firefox (`.part`) or Safari (`.download`).
pub open spec fn incomplete_download(file_name: Seq<char>) -> bool {
    ||| starts_with(file_name, "."@)
    ||| ends_with(file_name, ".crdownload"@)
    ||| ends_with(file_name, ".part"@)
    ||| ends_with(file_name, ".download"@)
}

pub fn is_likely_incomplete_download(file_name: &str) -> (r: bool)
    ensures
        r == incomplete_download(file_name@),
{
    let v = to_chars(file_name);
    starts_with_exec(&v, &to_chars(".")) || ends_with_exec(&v, &to_chars(".crdownload"))
        || ends_with_exec(&v, &to_chars(".part")) || ends_with_exec(&v, &to_chars(".download"))
}

/// A name counts as a download in progress exactly when it starts with `.`
/// or ends with `.crdownload`, `.part` or `.download` (as a suffix, not
/// anywhere in the name); so a regular file with a known modification time
/// and any other name is a finished download, and one can be reported.
pub proof fn lemma_incomplete_download_exactly(file_name: Seq<char>, e: DownloadEntry)
    ensures
        incomplete_download(file_name) <==> (starts_with(file_name, "."@) || ends_with(
            file_name,
            ".crdownload"@,
        ) || ends_with(file_name, ".part"@) || ends_with(file_name, ".download"@)),
        finished_download(e) <==> (e.is_file && e.modified is Some && !starts_with(e.name@, "."@)
            && !ends_with(e.name@, ".crdownload"@) && !ends_with(e.name@, ".part"@) && !ends_with(
            e.name@,
            ".download"@,
        )),
{
}

/// A folder with a regular file of known modification time whose name
/// neither starts with `.` nor ends with `.crdownload`, `.part` or
/// `.download` has a newest download to report, no older than that file.
pub proof fn lemma_finished_file_is_reported(entries: Seq<DownloadEntry>, k: int)
    requires
        0 <= k < entries.len(),
        entries[k].is_file,
        entries[k].modified is Some,
        !starts_with(entries[k].name@, "."@),
        !ends_with(entries[k].name@, ".crdownload"@),
        !ends_with(entries[k].name@, ".part"@),
        !ends_with(entries[k].name@, ".download"@),
    ensures
        newest_download(entries) matches Some(b) && entries[k].modified->0 <= b.1,
{
    assert(finished_download(entries[k]));
    lemma_newest_download_is_latest(entries);
}

/// An entry of the downloads folder: its name, whether it is a regular
/// file, and its modification time (nanoseconds since the epoch, negative
/// before it) when that could be read.
pub struct DownloadEntry {
    pub name: String,
    pub is_file: bool,
    pub modified: Option<i128>,
}

/// An entry that can be the newest download: a regular file with a known
/// modification time that is not a download in progress.
pub open spec fn finished_download(e: DownloadEntry) -> bool {
    e.is_file && !incomplete_download(e.name@) && e.modified is Some
}

/// The newest finished download as the scan keeps it: among the finished
/// downloads, the last one with the latest modification time.
pub open spec fn newest_download(entries: Seq<DownloadEntry>) -> Option<(Seq<char>, i128)>
    decreases entries.len(),
{
    if entries.len() == 0 {
        None
    } else {
        let best = newest_download(entries.drop_last());
        let e = entries.last();
        let newer = match best {
            None => true,
            Some(b) => e.modified->0 >= b.1,
        };
        if finished_download(e) && newer {
            Some((e.name@, e.modified->0))
        } else {
            best
        }
    }
}

/// The name of the newest finished download among the entries of the
/// downloads folder; a note when there is none.
pub fn newest_file_in(entries: &Vec<DownloadEntry>) -> (name: String)
    ensures
        name@ == match newest_download(entries@) {
            Some(b) => b.0,
            None => "No files in Downloads"@,
        },
{
    let mut newest_time: i128 = 0;
    let mut newest: Option<usize> = None;
    let mut i: usize = 0;
    while i < entries.len()
        invariant
            i <= entries.len(),
            match newest_download(entries@.take(i as int)) {
                Some(b) => newest matches Some(k) && k < i && entries@[k as int].name@ == b.0
                    && newest_time == b.1,
                None => newest is None,
            },
        decreases entries.len() - i,
    {
        assert(entries@.take(i + 1).drop_last() =~= entries@.take(i as int));
        assert(entries@.take(i + 1).last() == entries@[i as int]);
        let entry = &entries[i];
        if entry.is_file && !is_likely_incomplete_download(entry.name.as_str()) {
            if let Some(modified) = entry.modified {
                if newest.is_none() || modified >= newest_time {
                    newest_time = modified;
                    newest = Some(i);
                }
            }
        }
        i += 1;
    }
    assert(entries@.take(i as int) =~= entries@);
    match newest {
        Some(k) => entries[k].name.clone(),
        None => "No files in Downloads".to_owned(),
    }
}

/// The download kept is a finished download of the folder, and no finished
/// download is newer.
pub proof fn lemma_newest_download_is_latest(entries: Seq<DownloadEntry>)
    ensures
        newest_download(entries) is None <==> forall|k: int|
            0 <= k < entries.len() ==> !finished_download(#[trigger] entries[k]),
        newest_download(entries) matches Some(b) ==> (exists|k: int|
            0 <= k < entries.len() && finished_download(entries[k]) && entries[k].name@ == b.0
                && entries[k].modified == Some(b.1)) && forall|k: int|
            0 <= k < entries.len() && finished_download(#[trigger] entries[k])
                ==> entries[k].modified->0 <= b.1,
    decreases entries.len(),
{
    if entries.len() > 0 {
        let init = entries.drop_last();
        lemma_newest_download_is_latest(init);
        let last = entries.len() - 1;
        assert(entries[last] == entries.last());
        assert forall|k: int| 0 <= k < last implies entries[k] == #[trigger] init[k] by {}
        if newest_download(entries) is None {
            assert forall|k: int| 0 <= k < entries.len() implies !finished_download(
                #[trigger] entries[k],
            ) by {
                if k < last {
                    assert(entries[k] == init[k]);
                }
            }
        } else {
            let b = newest_download(entries)->0;
            let e = entries[last];
            if newest_download(init) is None {
                if finished_download(e) {
                    assert(b == (e.name@, e.modified->0));
                    assert forall|k: int|
                        0 <= k < entries.len() && finished_download(#[trigger] entries[k])
                            implies entries[k].modified->0 <= b.1 by {
                        if k < last {
                            assert(!finished_download(init[k]));
                        }
                    }
                }
            } else {
                let bi = newest_download(init)->0;
                if finished_download(e) && e.modified->0 >= bi.1 {
                    assert(b == (e.name@, e.modified->0));
                    assert forall|k: int|
                        0 <= k < entries.len() && finished_download(#[trigger] entries[k])
                            implies entries[k].modified->0 <= b.1 by {
                        if k < last {
                            assert(finished_download(init[k]));
                        }
                    }
                } else {
                    assert(b == bi);
                    let j = choose|j: int|
                        0 <= j < init.len() && finished_download(init[j]) && init[j].name@ == bi.0
                            && init[j].modified == Some(bi.1);
                    assert(entries[j] == init[j]);
                    assert forall|k: int|
                        0 <= k < entries.len() && finished_download(#[trigger] entries[k])
                            implies entries[k].modified->0 <= b.1 by {
                        if k < last {
                            assert(finished_download(init[k]));
                        }
                    }
                }
            }
        }
    }
}

} // verus!
