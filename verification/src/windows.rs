//! What the monitor makes of what Windows reports: the tick count, the TCP
//! tables, the output of `arp` and PowerShell queries, the disk counters,
//! the uninstall records and the Recent folder.
use vstd::prelude::*;
use crate::UptimeInfo;
use crate::names::{
    first_of_each, keep_first_by_lowercase, lemma_first_of_each_represents,
    lemma_lowercase_relation, lemma_sorted_represents, lex_le, lowercase_keys, represents,
    same_lowercase, sort_case_insensitive, stable_sorted_by,
};
use crate::numbers::{parse_u64, parse_u64_spec, parse_usize, parse_usize_spec};
use crate::strings::{chars_to_string, lowercase};
use crate::text::{
    chars_equal, ends_with, ends_with_exec, fields, has_char, has_char_exec, lines, split_fields,
    split_lines, strip_suffix_all, strip_suffix_all_exec, to_chars, trim, trim_chars, trimmed_or,
    trimmed_or_exec, views,
};

verus! {

/// The uptime record for a system up `milliseconds` (the tick count) at
/// time `now`: whole seconds of uptime, and the start that many seconds
/// before `now` (at 0 when that would be earlier).
pub fn uptime_from_ticks(milliseconds: u64, now: u64) -> (info: UptimeInfo)
    ensures
        info.uptime == milliseconds / 1000,
        info.time_system_started == if now >= milliseconds / 1000 {
            now - milliseconds / 1000
        } else {
            0
        },
{
    let total_seconds = milliseconds / 1000;
    UptimeInfo { uptime: total_seconds, time_system_started: now.saturating_sub(total_seconds) }
}

/// `MIB_TCP_STATE_ESTAB`: the state of an established connection.
pub const TCP_ESTABLISHED: u32 = 5;

/// `MIB_TCP_STATE_LISTEN`: the state of a listening socket.
pub const TCP_LISTEN: u32 = 2;

pub open spec fn count_state(states: Seq<u32>, state: u32) -> nat
    decreases states.len(),
{
    if states.len() == 0 {
        0
    } else {
        count_state(states.drop_last(), state) + if states.last() == state {
            1nat
        } else {
            0nat
        }
    }
}

/// The number of rows of a TCP table (given by their states) in `state`.
pub fn count_in_state(states: &Vec<u32>, state: u32) -> (n: usize)
    ensures
        n == count_state(states@, state),
{
    let mut n: usize = 0;
    let mut i: usize = 0;
    while i < states.len()
        invariant
            i <= states.len(),
            n <= i,
            n == count_state(states@.take(i as int), state),
        decreases states.len() - i,
    {
        assert(states@.take(i + 1).drop_last() =~= states@.take(i as int));
        if states[i] == state {
            n += 1;
        }
        i += 1;
    }
    assert(states@.take(i as int) =~= states@);
    n
}

/// The number of established connections in a TCP table.
pub fn count_established(states: &Vec<u32>) -> (n: usize)
    ensures
        n == count_state(states@, TCP_ESTABLISHED),
{
    count_in_state(states, TCP_ESTABLISHED)
}

/// The number of listening sockets in a TCP table.
pub fn count_listening(states: &Vec<u32>) -> (n: usize)
    ensures
        n == count_state(states@, TCP_LISTEN),
{
    count_in_state(states, TCP_LISTEN)
}

/// An `arp -a` line (`  192.168.1.1   3c-e1-a1-…   dynamic`) for a device
/// with a real hardware address: three words, the second a `-`-separated
/// address that is neither all zeros nor the broadcast address.
pub open spec fn arp_device_line(line: Seq<char>) -> bool {
    let f = fields(line);
    &&& f.len() == 3
    &&& has_char(f[1], '-')
    &&& f[1] != "00-00-00-00-00-00"@
    &&& f[1] != "ff-ff-ff-ff-ff-ff"@
}

pub open spec fn count_arp_devices(ls: Seq<Seq<char>>) -> nat
    decreases ls.len(),
{
    if ls.len() == 0 {
        0
    } else {
        count_arp_devices(ls.drop_last()) + if arp_device_line(ls.last()) {
            1nat
        } else {
            0nat
        }
    }
}

/// The number of devices on the local network in the output of `arp -a`.
pub fn count_lan_devices(arp: &str) -> (n: usize)
    ensures
        n == count_arp_devices(lines(arp@)),
{
    let rows = split_lines(&to_chars(arp));
    let ghost ls = lines(arp@);
    let zeros = to_chars("00-00-00-00-00-00");
    let broadcast = to_chars("ff-ff-ff-ff-ff-ff");
    let mut n: usize = 0;
    let mut i: usize = 0;
    while i < rows.len()
        invariant
            i <= rows.len(),
            ls == views(rows@),
            zeros@ == "00-00-00-00-00-00"@,
            broadcast@ == "ff-ff-ff-ff-ff-ff"@,
            n == count_arp_devices(ls.take(i as int)),
            n <= i,
        decreases rows.len() - i,
    {
        assert(ls.take(i + 1).drop_last() =~= ls.take(i as int));
        assert(ls.take(i + 1).last() == rows@[i as int]@);
        let fs = split_fields(&rows[i]);
        assert(views(fs@) == fields(rows@[i as int]@));
        if fs.len() == 3 && has_char_exec(&fs[1], '-') && !chars_equal(&fs[1], &zeros)
            && !chars_equal(&fs[1], &broadcast) {
            n += 1;
        }
        i += 1;
    }
    assert(ls.take(i as int) =~= ls);
    n
}

/// The bytes per second a disk counter reports: its value (0 for a
/// negative one) when the counter's status is valid, else 0.
pub fn counter_bytes(valid: bool, value: i64) -> (n: u64)
    ensures
        n == if valid && value > 0 {
            value as u64
        } else {
            0
        },
{
    if valid {
        if value > 0 {
            value as u64
        } else {
            0
        }
    } else {
        0
    }
}

/// The display names as listed, each trimmed.
pub open spec fn trimmed_all(names: Seq<String>, out: Seq<String>) -> bool {
    names.len() == out.len() && forall|k: int| 0 <= k < names.len() ==> #[trigger] out[k]@ == trim(names[k]@)
}

/// The installed programs from the `DisplayName` values of the uninstall
/// records (in the order read): trimmed, empty ones dropped, each kept
/// only when no earlier kept one has the same lowercase form, then sorted
/// by their lowercase forms.
pub fn installed_apps(display_names: &Vec<String>) -> (apps: Vec<String>)
    ensures
        exists|trimmed: Seq<String>|
            trimmed_all(display_names@, trimmed) && stable_sorted_by(
                apps@,
                first_of_each(trimmed, same_lowercase()),
                lowercase_keys(first_of_each(trimmed, same_lowercase())),
            ) && represents(apps@, trimmed, same_lowercase()),
        forall|i: int, j: int|
            0 <= i < j < apps.len() ==> lex_le(
                lowercase(#[trigger] apps@[i]@),
                lowercase(#[trigger] apps@[j]@),
            ),
{
    let mut trimmed: Vec<String> = Vec::new();
    let mut i: usize = 0;
    while i < display_names.len()
        invariant
            i <= display_names.len(),
            trimmed.len() == i,
            forall|k: int| 0 <= k < i ==> #[trigger] trimmed@[k]@ == trim(display_names@[k]@),
        decreases display_names.len() - i,
    {
        trimmed.push(chars_to_string(&trim_chars(&to_chars(display_names[i].as_str()))));
        i += 1;
    }
    let kept = keep_first_by_lowercase(&trimmed);
    let apps = sort_case_insensitive(&kept);
    proof {
        lemma_lowercase_relation();
        lemma_first_of_each_represents(trimmed@, same_lowercase());
        lemma_sorted_represents(apps@, kept@, trimmed@, same_lowercase());
    }
    assert(trimmed_all(display_names@, trimmed@));
    apps
}

/// The most recent item of the Recent folder, from its entries (file name
/// and modification time in nanoseconds since the epoch, when known), as
/// the fold keeps it: among `.lnk` entries modified after the epoch, the
/// first one with the latest time, with its `.lnk` suffixes removed.
pub open spec fn newest_link(entries: Seq<(String, Option<i128>)>) -> (Seq<char>, i128)
    decreases entries.len(),
{
    if entries.len() == 0 {
        ("nothing found"@, 0)
    } else {
        let best = newest_link(entries.drop_last());
        let e = entries.last();
        if ends_with(e.0@, ".lnk"@) && e.1 is Some && e.1->0 > best.1 {
            (strip_suffix_all(e.0@, ".lnk"@), e.1->0)
        } else {
            best
        }
    }
}

pub fn newest_recent_link(entries: &Vec<(String, Option<i128>)>) -> (name: String)
    ensures
        name@ == newest_link(entries@).0,
{
    let suffix = to_chars(".lnk");
    let mut best_name = to_chars("nothing found");
    let mut best_time: i128 = 0;
    let mut i: usize = 0;
    while i < entries.len()
        invariant
            i <= entries.len(),
            suffix@ == ".lnk"@,
            (best_name@, best_time) == newest_link(entries@.take(i as int)),
        decreases entries.len() - i,
    {
        assert(entries@.take(i + 1).drop_last() =~= entries@.take(i as int));
        assert(entries@.take(i + 1).last() == entries@[i as int]);
        let name = to_chars(entries[i].0.as_str());
        if ends_with_exec(&name, &suffix) {
            if let Some(t) = entries[i].1 {
                if t > best_time {
                    best_time = t;
                    best_name = strip_suffix_all_exec(&name, &suffix);
                }
            }
        }
        i += 1;
    }
    assert(entries@.take(i as int) =~= entries@);
    chars_to_string(&best_name)
}

/// The product name a PowerShell query printed, trimmed; `Windows` when it
/// printed nothing but whitespace.
pub fn os_name_from_output(stdout: &str) -> (name: String)
    ensures
        name@ == trimmed_or(stdout@, "Windows"@),
{
    trimmed_or_exec(stdout, "Windows")
}

/// The display version a PowerShell query printed, trimmed; `Unknown` when
/// it printed nothing but whitespace.
pub fn os_version_from_output(stdout: &str) -> (version: String)
    ensures
        version@ == trimmed_or(stdout@, "Unknown"@),
{
    trimmed_or_exec(stdout, "Unknown")
}

/// The count a PowerShell query printed: the trimmed output read as a
/// `usize`, or 0 when it is not one.
pub fn count_from_output(stdout: &str) -> (n: usize)
    ensures
        n == match parse_usize_spec(trim(stdout@)) {
            Some(v) => v,
            None => 0,
        },
{
    match parse_usize(&trim_chars(&to_chars(stdout))) {
        Some(v) => v,
        None => 0,
    }
}

/// The time a PowerShell query printed (seconds since the epoch): the
/// trimmed output read as a `u64`, or 0 when it is not one.
pub fn seconds_from_output(stdout: &str) -> (t: u64)
    ensures
        t == match parse_u64_spec(trim(stdout@)) {
            Some(v) => v,
            None => 0,
        },
{
    match parse_u64(&trim_chars(&to_chars(stdout))) {
        Some(v) => v,
        None => 0,
    }
}

} // verus!
