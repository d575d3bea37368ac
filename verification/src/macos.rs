//! What the monitor makes of what macOS reports: the output of `sysctl`,
//! `sw_vers`, `netstat`, `arp`, `system_profiler`, `ioreg` and `pmset`,
//! the application bundles, and the per-process disk counters.
use std::collections::HashMap;
use vstd::prelude::*;
use crate::UptimeInfo;
use crate::disk_writer::{busiest_writer, record_disk_writes, totals_of};
use crate::names::{
    first_of_each, keep_first_exact, lemma_first_of_each_represents, lemma_sorted_represents,
    lemma_text_relation, lex_le, lowercase_keys, represents, same_text, sort_case_insensitive,
    stable_sorted_by,
};
use crate::numbers::{parse_u64, parse_u64_spec, push_signed_decimal, signed_decimal};
use crate::strings::{chars_to_string, lowercase, lowercase_chars};
use crate::text::{
    before, before_exec, chars_equal, concat_chars, contains, contains_exec, ends_with,
    ends_with_exec, fields, find, find_exec, has_char, has_char_exec, leading_digits,
    leading_digits_exec, lemma_find_from, lines, string_views, remove_all, remove_all_exec, skip_chars,
    split_fields, split_lines, starts_with, starts_with_exec, to_chars, trim, trim_chars,
    trim_start, trim_start_chars, trimmed_or, trimmed_or_exec, views,
};

verus! {

// ---------------------------------------------------------------- uptime

/// The boot time that `sysctl -n kern.boottime` prints (`{ sec = …, usec =
/// … } …`): the text after the first `sec = `, up to the next `sec = ` and
/// then up to the first `,`, trimmed and read as a `u64`; 0 when any step
/// fails.
pub open spec fn boot_time_spec(out: Seq<char>) -> u64 {
    match find(out, "sec = "@) {
        None => 0,
        Some(i) => {
            let after = out.skip(i + "sec = "@.len());
            match parse_u64_spec(trim(before(before(after, "sec = "@), ","@))) {
                Some(v) => v,
                None => 0,
            }
        },
    }
}

pub fn boot_time_from_sysctl(out: &str) -> (t: u64)
    ensures
        t == boot_time_spec(out@),
{
    let v = to_chars(out);
    let key = to_chars("sec = ");
    proof {
        lemma_find_from(v@, key@, 0);
    }
    match find_exec(&v, &key) {
        None => 0,
        Some(i) => {
            assert(i + key@.len() <= v@.len());
            assert(key.len() == key@.len());
            assert(v.len() == v@.len());
            let start = i + key.len();
            let after = skip_chars(&v, start);
            let piece = before_exec(&before_exec(&after, &key), &to_chars(","));
            match parse_u64(&trim_chars(&piece)) {
                Some(t) => t,
                None => 0,
            }
        },
    }
}

/// The uptime record for a system booted at `boot_time` (seconds since the
/// epoch), at time `now`.
pub fn uptime_from_boot(boot_time: u64, now: u64) -> (info: UptimeInfo)
    ensures
        info.uptime == if now >= boot_time {
            now - boot_time
        } else {
            0
        },
        info.time_system_started == boot_time,
{
    UptimeInfo { uptime: now.saturating_sub(boot_time), time_system_started: boot_time }
}

// ---------------------------------------------------------------- applications

/// The application name of a bundle file name: for a name ending in `.app`,
/// the name with every `.app` removed, unless nothing is left.
pub open spec fn bundle_app_name(file_name: Seq<char>) -> Option<Seq<char>> {
    if ends_with(file_name, ".app"@) && remove_all(file_name, ".app"@).len() > 0 {
        Some(remove_all(file_name, ".app"@))
    } else {
        None
    }
}

pub fn app_name_from_bundle(file_name: &str) -> (name: Option<String>)
    ensures
        match bundle_app_name(file_name@) {
            Some(n) => name matches Some(s) && s@ == n,
            None => name is None,
        },
{
    let v = to_chars(file_name);
    let suffix = to_chars(".app");
    if !ends_with_exec(&v, &suffix) {
        return None;
    }
    let clean = remove_all_exec(&v, &suffix);
    if clean.len() == 0 {
        None
    } else {
        Some(chars_to_string(&clean))
    }
}

/// The application names among the bundle file names, in order.
pub open spec fn bundle_names(file_names: Seq<String>) -> Seq<Seq<char>>
    decreases file_names.len(),
{
    if file_names.len() == 0 {
        seq![]
    } else {
        match bundle_app_name(file_names.last()@) {
            Some(n) => bundle_names(file_names.drop_last()).push(n),
            None => bundle_names(file_names.drop_last()),
        }
    }
}

/// The installed applications from the file names found in `/Applications`
/// and `~/Applications` (in the order found): the bundles' names, each
/// kept once, sorted by their lowercase forms.
pub fn installed_apps(file_names: &Vec<String>) -> (apps: Vec<String>)
    ensures
        exists|found: Seq<String>|
            string_views(found) == bundle_names(file_names@) && stable_sorted_by(
                apps@,
                first_of_each(found, same_text()),
                lowercase_keys(first_of_each(found, same_text())),
            ) && represents(apps@, found, same_text()),
        forall|i: int, j: int|
            0 <= i < j < apps.len() ==> lex_le(
                lowercase(#[trigger] apps@[i]@),
                lowercase(#[trigger] apps@[j]@),
            ),
{
    let mut found: Vec<String> = Vec::new();
    let mut i: usize = 0;
    while i < file_names.len()
        invariant
            i <= file_names.len(),
            string_views(found@) == bundle_names(file_names@.take(i as int)),
        decreases file_names.len() - i,
    {
        assert(file_names@.take(i + 1).drop_last() =~= file_names@.take(i as int));
        assert(file_names@.take(i + 1).last() == file_names@[i as int]);
        match app_name_from_bundle(file_names[i].as_str()) {
            Some(name) => {
                let ghost before = string_views(found@);
                found.push(name);
                assert(string_views(found@) =~= before.push(name@));
            },
            None => {},
        }
        i += 1;
    }
    assert(file_names@.take(i as int) =~= file_names@);
    let kept = keep_first_exact(&found);
    let apps = sort_case_insensitive(&kept);
    proof {
        lemma_text_relation();
        lemma_first_of_each_represents(found@, same_text());
        lemma_sorted_represents(apps@, kept@, found@, same_text());
    }
    apps
}

// ---------------------------------------------------------------- system version

/// The version `sw_vers -productVersion` prints, trimmed; `Unknown` when
/// it prints nothing but whitespace.
pub fn os_version_from_output(stdout: &str) -> (v: String)
    ensures
        v@ == trimmed_or(stdout@, "Unknown"@),
{
    trimmed_or_exec(stdout, "Unknown")
}

// ---------------------------------------------------------------- netstat, arp

/// A `netstat -an` line for a TCP socket in the given state.
pub open spec fn tcp_line_in_state(line: Seq<char>, state: Seq<char>) -> bool {
    starts_with(line, "tcp"@) && contains(line, state)
}

pub open spec fn count_tcp_lines(ls: Seq<Seq<char>>, state: Seq<char>) -> nat
    decreases ls.len(),
{
    if ls.len() == 0 {
        0
    } else {
        count_tcp_lines(ls.drop_last(), state) + if tcp_line_in_state(ls.last(), state) {
            1nat
        } else {
            0nat
        }
    }
}

fn count_tcp_lines_exec(out: &str, state: &str) -> (n: usize)
    ensures
        n == count_tcp_lines(lines(out@), state@),
{
    let rows = split_lines(&to_chars(out));
    let ghost ls = lines(out@);
    let tcp = to_chars("tcp");
    let st = to_chars(state);
    let mut n: usize = 0;
    let mut i: usize = 0;
    while i < rows.len()
        invariant
            i <= rows.len(),
            ls == views(rows@),
            tcp@ == "tcp"@,
            st@ == state@,
            n == count_tcp_lines(ls.take(i as int), state@),
            n <= i,
        decreases rows.len() - i,
    {
        assert(ls.take(i + 1).drop_last() =~= ls.take(i as int));
        assert(ls.take(i + 1).last() == rows@[i as int]@);
        if starts_with_exec(&rows[i], &tcp) && contains_exec(&rows[i], &st) {
            n += 1;
        }
        i += 1;
    }
    assert(ls.take(i as int) =~= ls);
    n
}

/// The number of established TCP connections in the output of `netstat -an`:
/// lines starting with `tcp` that mention `ESTABLISHED`.
pub fn count_established(netstat: &str) -> (n: usize)
    ensures
        n == count_tcp_lines(lines(netstat@), "ESTABLISHED"@),
{
    count_tcp_lines_exec(netstat, "ESTABLISHED")
}

/// The number of listening TCP sockets in the output of `netstat -an`:
/// lines starting with `tcp` that mention `LISTEN`.
pub fn count_listening(netstat: &str) -> (n: usize)
    ensures
        n == count_tcp_lines(lines(netstat@), "LISTEN"@),
{
    count_tcp_lines_exec(netstat, "LISTEN")
}

/// An `arp -a` line (`? (192.168.1.1) at 3c:e1:a1:… on en0 …`) for a
/// device with a resolved, non-broadcast hardware address.
pub open spec fn arp_device_line(line: Seq<char>) -> bool {
    let f = fields(line);
    &&& f.len() > 3
    &&& f[2] == "at"@
    &&& has_char(f[3], ':')
    &&& f[3] != "ff:ff:ff:ff:ff:ff"@
}

pub open spec fn count_arp_devices(ls: Seq<Seq<char>>) -> nat
    decreases ls.len(),
{
    if ls.len() == 0 {
        0
    } else {
        count_arp_devices(ls.drop_last()) + if arp_device_line(ls.last()) {
            1nat
        } else {
            0nat
        }
    }
}

/// The number of devices on the local network in the output of `arp -a`.
pub fn count_lan_devices(arp: &str) -> (n: usize)
    ensures
        n == count_arp_devices(lines(arp@)),
{
    let rows = split_lines(&to_chars(arp));
    let ghost ls = lines(arp@);
    let at = to_chars("at");
    let broadcast = to_chars("ff:ff:ff:ff:ff:ff");
    let mut n: usize = 0;
    let mut i: usize = 0;
    while i < rows.len()
        invariant
            i <= rows.len(),
            ls == views(rows@),
            at@ == "at"@,
            broadcast@ == "ff:ff:ff:ff:ff:ff"@,
            n == count_arp_devices(ls.take(i as int)),
            n <= i,
        decreases rows.len() - i,
    {
        assert(ls.take(i + 1).drop_last() =~= ls.take(i as int));
        assert(ls.take(i + 1).last() == rows@[i as int]@);
        let fs = split_fields(&rows[i]);
        assert(views(fs@) == fields(rows@[i as int]@));
        if fs.len() > 3 && chars_equal(&fs[2], &at) && has_char_exec(&fs[3], ':') && !chars_equal(
            &fs[3],
            &broadcast,
        ) {
            n += 1;
        }
        i += 1;
    }
    assert(ls.take(i as int) =~= ls);
    n
}

// ---------------------------------------------------------------- system_profiler

/// Labels of `system_profiler SPUSBDataType` that end in `:` but name a
/// property rather than a device.
pub open spec fn property_label(t: Seq<char>) -> bool {
    ||| t == "Product ID:"@
    ||| t == "Vendor ID:"@
    ||| t == "Version:"@
    ||| t == "Serial Number:"@
    ||| t == "Speed:"@
    ||| t == "Manufacturer:"@
    ||| t == "Location ID:"@
    ||| t == "Current Available (mA):"@
    ||| t == "Current Required (mA):"@
    ||| t == "Extra Operating Current (mA):"@
    ||| t == "Capacity:"@
    ||| t == "Removable Media:"@
    ||| t == "Detachable Drive:"@
    ||| t == "BSD Name:"@
    ||| t == "Partition Map Type:"@
    ||| t == "Volumes:"@
    ||| t == "Media:"@
    ||| t == "USB:"@
}

/// A trimmed `system_profiler SPUSBDataType` line that names a device other
/// than a bus or hub, given the line and its lowercase form: it ends in
/// `:`, is no property label, does not end in `Bus:`, and its lowercase form
/// does not mention `hub`.
pub open spec fn peripheral_line(t: Seq<char>, lowered: Seq<char>) -> bool {
    &&& ends_with(t, ":"@)
    &&& !property_label(t)
    &&& !ends_with(t, "Bus:"@)
    &&& !contains(lowered, "hub"@)
}

fn property_label_exec(t: &Vec<char>) -> (r: bool)
    ensures
        r == property_label(t@),
{
    chars_equal(t, &to_chars("Product ID:")) || chars_equal(t, &to_chars("Vendor ID:"))
        || chars_equal(t, &to_chars("Version:")) || chars_equal(t, &to_chars("Serial Number:"))
        || chars_equal(t, &to_chars("Speed:")) || chars_equal(t, &to_chars("Manufacturer:"))
        || chars_equal(t, &to_chars("Location ID:")) || chars_equal(
        t,
        &to_chars("Current Available (mA):"),
    ) || chars_equal(t, &to_chars("Current Required (mA):")) || chars_equal(
        t,
        &to_chars("Extra Operating Current (mA):"),
    ) || chars_equal(t, &to_chars("Capacity:")) || chars_equal(t, &to_chars("Removable Media:"))
        || chars_equal(t, &to_chars("Detachable Drive:")) || chars_equal(t, &to_chars("BSD Name:"))
        || chars_equal(t, &to_chars("Partition Map Type:")) || chars_equal(t, &to_chars("Volumes:"))
        || chars_equal(t, &to_chars("Media:")) || chars_equal(t, &to_chars("USB:"))
}

/// Does the trimmed line `t`, whose lowercase form is `lowered`, name a
/// peripheral?
pub fn is_peripheral_line(t: &str, lowered: &str) -> (r: bool)
    ensures
        r == peripheral_line(t@, lowered@),
{
    let tv = to_chars(t);
    ends_with_exec(&tv, &to_chars(":")) && !property_label_exec(&tv) && !ends_with_exec(
        &tv,
        &to_chars("Bus:"),
    ) && !contains_exec(&to_chars(lowered), &to_chars("hub"))
}

pub open spec fn count_peripheral_lines(ls: Seq<Seq<char>>) -> nat
    decreases ls.len(),
{
    if ls.len() == 0 {
        0
    } else {
        count_peripheral_lines(ls.drop_last()) + if peripheral_line(
            trim(ls.last()),
            lowercase(trim(ls.last())),
        ) {
            1nat
        } else {
            0nat
        }
    }
}

/// The number of USB peripherals in the output of `system_profiler
/// SPUSBDataType`.
pub fn count_peripherals(profiler: &str) -> (n: usize)
    ensures
        n == count_peripheral_lines(lines(profiler@)),
{
    let rows = split_lines(&to_chars(profiler));
    let ghost ls = lines(profiler@);
    let mut n: usize = 0;
    let mut i: usize = 0;
    while i < rows.len()
        invariant
            i <= rows.len(),
            ls == views(rows@),
            n == count_peripheral_lines(ls.take(i as int)),
            n <= i,
        decreases rows.len() - i,
    {
        assert(ls.take(i + 1).drop_last() =~= ls.take(i as int));
        assert(ls.take(i + 1).last() == rows@[i as int]@);
        let t = chars_to_string(&trim_chars(&rows[i]));
        let lowered = chars_to_string(&lowercase_chars(t.as_str()));
        if is_peripheral_line(t.as_str(), lowered.as_str()) {
            n += 1;
        }
        i += 1;
    }
    assert(ls.take(i as int) =~= ls);
    n
}

pub open spec fn count_resolution_lines(ls: Seq<Seq<char>>) -> nat
    decreases ls.len(),
{
    if ls.len() == 0 {
        0
    } else {
        count_resolution_lines(ls.drop_last()) + if starts_with(
            trim_start(ls.last()),
            "Resolution:"@,
        ) {
            1nat
        } else {
            0nat
        }
    }
}

/// The number of displays in the output of `system_profiler
/// SPDisplaysDataType`: lines that start with `Resolution:` once leading
/// whitespace is removed.
pub fn count_displays(profiler: &str) -> (n: usize)
    ensures
        n == count_resolution_lines(lines(profiler@)),
{
    let rows = split_lines(&to_chars(profiler));
    let ghost ls = lines(profiler@);
    let key = to_chars("Resolution:");
    let mut n: usize = 0;
    let mut i: usize = 0;
    while i < rows.len()
        invariant
            i <= rows.len(),
            ls == views(rows@),
            key@ == "Resolution:"@,
            n == count_resolution_lines(ls.take(i as int)),
            n <= i,
        decreases rows.len() - i,
    {
        assert(ls.take(i + 1).drop_last() =~= ls.take(i as int));
        assert(ls.take(i + 1).last() == rows@[i as int]@);
        if starts_with_exec(&trim_start_chars(&rows[i]), &key) {
            n += 1;
        }
        i += 1;
    }
    assert(ls.take(i as int) =~= ls);
    n
}


// ---------------------------------------------------------------- ioreg

/// The counter a line of `ioreg -c IOBlockStorageDriver -r -w0` gives after
/// `key`: the digits right after the first occurrence of `key`, read as a
/// `u64`; 0 when the key is absent or the digits are not a `u64` (none, or
/// too many).
pub open spec fn ioreg_counter(line: Seq<char>, key: Seq<char>) -> nat {
    match find(line, key) {
        None => 0,
        Some(p) => match parse_u64_spec(leading_digits(line.skip(p + key.len()))) {
            Some(v) => v as nat,
            None => 0,
        },
    }
}

pub open spec fn ioreg_total(ls: Seq<Seq<char>>, key: Seq<char>) -> nat
    decreases ls.len(),
{
    if ls.len() == 0 {
        0
    } else {
        ioreg_total(ls.drop_last(), key) + ioreg_counter(ls.last(), key)
    }
}

proof fn lemma_ioreg_total_grows(ls: Seq<Seq<char>>, key: Seq<char>, k: int)
    requires
        0 <= k <= ls.len(),
    ensures
        ioreg_total(ls.take(k), key) <= ioreg_total(ls, key),
    decreases ls.len() - k,
{
    if k < ls.len() {
        lemma_ioreg_total_grows(ls, key, k + 1);
        assert(ls.take(k + 1).drop_last() =~= ls.take(k));
    } else {
        assert(ls.take(k) =~= ls);
    }
}

/// Bytes read and written by the disks, the sums of the `"Bytes (Read)"=`
/// and `"Bytes (Write)"=` counters over the lines of the `ioreg` output;
/// `None` when a sum does not fit in a `u64` (where the running sums would
/// overflow).
pub open spec fn ioreg_bytes(out: Seq<char>) -> Option<(u64, u64)> {
    let read = ioreg_total(lines(out), "\"Bytes (Read)\"="@);
    let written = ioreg_total(lines(out), "\"Bytes (Write)\"="@);
    if read <= u64::MAX && written <= u64::MAX {
        Some((read as u64, written as u64))
    } else {
        None
    }
}

fn ioreg_counter_exec(line: &Vec<char>, key: &Vec<char>) -> (r: u64)
    ensures
        r == ioreg_counter(line@, key@),
{
    proof {
        lemma_find_from(line@, key@, 0);
    }
    match find_exec(line, key) {
        None => 0,
        Some(p) => {
            assert(p + key@.len() <= line@.len());
            assert(key.len() == key@.len());
            assert(line.len() == line@.len());
            let start = p + key.len();
            let digits = leading_digits_exec(&skip_chars(line, start));
            match parse_u64(&digits) {
                Some(v) => v,
                None => 0,
            }
        },
    }
}

pub fn disk_totals(ioreg: &str) -> (r: Option<(u64, u64)>)
    ensures
        r == ioreg_bytes(ioreg@),
{
    let rows = split_lines(&to_chars(ioreg));
    let ghost ls = lines(ioreg@);
    let read_key = to_chars("\"Bytes (Read)\"=");
    let write_key = to_chars("\"Bytes (Write)\"=");
    let mut read: u64 = 0;
    let mut written: u64 = 0;
    let mut i: usize = 0;
    while i < rows.len()
        invariant
            i <= rows.len(),
            ls == views(rows@),
            ls == lines(ioreg@),
            read_key@ == "\"Bytes (Read)\"="@,
            write_key@ == "\"Bytes (Write)\"="@,
            read == ioreg_total(ls.take(i as int), read_key@),
            written == ioreg_total(ls.take(i as int), write_key@),
        decreases rows.len() - i,
    {
        assert(ls.take(i + 1).drop_last() =~= ls.take(i as int));
        assert(ls.take(i + 1).last() == rows@[i as int]@);
        let r = ioreg_counter_exec(&rows[i], &read_key);
        let w = ioreg_counter_exec(&rows[i], &write_key);
        proof {
            lemma_ioreg_total_grows(ls, read_key@, i + 1);
            lemma_ioreg_total_grows(ls, write_key@, i + 1);
        }
        if read > u64::MAX - r || written > u64::MAX - w {
            return None;
        }
        read = read + r;
        written = written + w;
        i += 1;
    }
    assert(ls.take(i as int) =~= ls);
    Some((read, written))
}

// ---------------------------------------------------------------- pmset

/// A `pmset -g log` line recording a sleep: it does not mention
/// `Maintenance`, has at least four words, and the fourth is `Sleep`.
pub open spec fn sleep_line(line: Seq<char>) -> bool {
    !contains(line, "Maintenance"@) && fields(line).len() >= 4 && fields(line)[3] == "Sleep"@
}

/// The last sleep line, if any.
pub open spec fn last_sleep_line(ls: Seq<Seq<char>>) -> Option<Seq<char>>
    decreases ls.len(),
{
    if ls.len() == 0 {
        None
    } else if sleep_line(ls.last()) {
        Some(ls.last())
    } else {
        last_sleep_line(ls.drop_last())
    }
}

/// When the Mac last went to sleep, from `pmset -g log`: the date and time
/// (first two words) of the last sleep line, or a note that there is none.
pub open spec fn last_sleep_spec(log: Seq<char>) -> Seq<char> {
    match last_sleep_line(lines(log)) {
        Some(l) => fields(l)[0] + " "@ + fields(l)[1],
        None => "no sleep event found in the log"@,
    }
}

proof fn lemma_last_sleep_line_at(ls: Seq<Seq<char>>, k: int, m: int)
    requires
        0 <= k < m <= ls.len(),
        sleep_line(ls[k]),
        forall|i: int| k < i < m ==> !sleep_line(#[trigger] ls[i]),
    ensures
        last_sleep_line(ls.take(m)) == Some(ls[k]),
    decreases m - k,
{
    let t = ls.take(m);
    assert(t.last() == ls[m - 1]);
    if m > k + 1 {
        assert(t.drop_last() =~= ls.take(m - 1));
        lemma_last_sleep_line_at(ls, k, m - 1);
    }
}

proof fn lemma_no_sleep_line(ls: Seq<Seq<char>>)
    requires
        forall|i: int| 0 <= i < ls.len() ==> !sleep_line(#[trigger] ls[i]),
    ensures
        last_sleep_line(ls) is None,
    decreases ls.len(),
{
    if ls.len() > 0 {
        let init = ls.drop_last();
        assert forall|i: int| 0 <= i < init.len() implies !sleep_line(#[trigger] init[i]) by {
            assert(init[i] == ls[i]);
        }
        lemma_no_sleep_line(init);
        assert(ls.last() == ls[ls.len() - 1]);
    }
}

/// The latest sleep wins: when line `k` of the log records a sleep (it does
/// not mention `Maintenance` and its fourth word is `Sleep`) and no later
/// line does, the answer is that line's first two words (date and time)
/// joined by a space; when no line records a sleep, the answer says so.
pub proof fn lemma_last_sleep_is_latest(log: Seq<char>, k: int)
    ensures
        0 <= k < lines(log).len() && !contains(lines(log)[k], "Maintenance"@) && fields(
            lines(log)[k],
        ).len() >= 4 && fields(lines(log)[k])[3] == "Sleep"@ && (forall|i: int|
            k < i < lines(log).len() ==> !(!contains(#[trigger] lines(log)[i], "Maintenance"@)
                && fields(lines(log)[i]).len() >= 4 && fields(lines(log)[i])[3] == "Sleep"@))
            ==> last_sleep_spec(log) == fields(lines(log)[k])[0] + " "@ + fields(lines(log)[k])[1],
        (forall|i: int|
            0 <= i < lines(log).len() ==> !(!contains(#[trigger] lines(log)[i], "Maintenance"@)
                && fields(lines(log)[i]).len() >= 4 && fields(lines(log)[i])[3] == "Sleep"@))
            ==> last_sleep_spec(log) == "no sleep event found in the log"@,
{
    let ls = lines(log);
    if 0 <= k < ls.len() && sleep_line(ls[k]) && (forall|i: int|
        k < i < ls.len() ==> !(!contains(#[trigger] ls[i], "Maintenance"@) && fields(ls[i]).len()
            >= 4 && fields(ls[i])[3] == "Sleep"@)) {
        assert forall|i: int| k < i < ls.len() implies !sleep_line(#[trigger] ls[i]) by {
            assert(!(!contains(ls[i], "Maintenance"@) && fields(ls[i]).len() >= 4 && fields(ls[i])[3]
                == "Sleep"@));
        }
        lemma_last_sleep_line_at(ls, k, ls.len() as int);
        assert(ls.take(ls.len() as int) =~= ls);
    }
    if forall|i: int|
        0 <= i < ls.len() ==> !(!contains(#[trigger] ls[i], "Maintenance"@) && fields(ls[i]).len()
            >= 4 && fields(ls[i])[3] == "Sleep"@) {
        assert forall|i: int| 0 <= i < ls.len() implies !sleep_line(#[trigger] ls[i]) by {
            assert(!(!contains(ls[i], "Maintenance"@) && fields(ls[i]).len() >= 4 && fields(ls[i])[3]
                == "Sleep"@));
        }
        lemma_no_sleep_line(ls);
    }
}

pub fn last_sleep_from_pmset(log: &str) -> (r: String)
    ensures
        r@ == last_sleep_spec(log@),
{
    let rows = split_lines(&to_chars(log));
    let ghost ls = lines(log@);
    let maintenance = to_chars("Maintenance");
    let sleep = to_chars("Sleep");
    let mut found: Option<(Vec<char>, Vec<char>)> = None;
    let mut i: usize = 0;
    while i < rows.len()
        invariant
            i <= rows.len(),
            ls == views(rows@),
            maintenance@ == "Maintenance"@,
            sleep@ == "Sleep"@,
            match last_sleep_line(ls.take(i as int)) {
                Some(l) => found matches Some(f) && f.0@ == fields(l)[0] && f.1@ == fields(l)[1],
                None => found is None,
            },
        decreases rows.len() - i,
    {
        assert(ls.take(i + 1).drop_last() =~= ls.take(i as int));
        assert(ls.take(i + 1).last() == rows@[i as int]@);
        if !contains_exec(&rows[i], &maintenance) {
            let fs = split_fields(&rows[i]);
            assert(views(fs@) == fields(rows@[i as int]@));
            if fs.len() >= 4 && chars_equal(&fs[3], &sleep) {
                assert(fs@[0]@ == fields(rows@[i as int]@)[0]);
                assert(fs@[1]@ == fields(rows@[i as int]@)[1]);
                found = Some((fs[0].clone(), fs[1].clone()));
            }
        }
        i += 1;
    }
    assert(ls.take(i as int) =~= ls);
    match found {
        Some((date, time)) => {
            let out = concat_chars(&concat_chars(&date, &to_chars(" ")), &time);
            chars_to_string(&out)
        },
        None => "no sleep event found in the log".to_owned(),
    }
}

// ---------------------------------------------------------------- processes

/// The number of process ids that fit in the `size` bytes that
/// `proc_listpids` asked for; `None` when it asked for none.
pub fn pid_capacity(size: i32) -> (n: Option<usize>)
    ensures
        n == if size <= 0 {
            None
        } else {
            Some((size / 4) as usize)
        },
{
    if size <= 0 {
        None
    } else {
        Some((size / 4) as usize)
    }
}

/// The process ids `proc_listpids` filled in: the first `returned_bytes /
/// 4` entries of the buffer (at most all of it), without the zero entries;
/// nothing when it returned no bytes.
pub open spec fn listed_pids_spec(buffer: Seq<i32>, returned_bytes: i32) -> Seq<i32> {
    if returned_bytes <= 0 {
        seq![]
    } else {
        let n = if returned_bytes / 4 < buffer.len() {
            returned_bytes / 4
        } else {
            buffer.len() as int
        };
        nonzero_pids(buffer.take(n))
    }
}

pub open spec fn nonzero_pids(pids: Seq<i32>) -> Seq<i32>
    decreases pids.len(),
{
    if pids.len() == 0 {
        seq![]
    } else if pids.last() != 0 {
        nonzero_pids(pids.drop_last()).push(pids.last())
    } else {
        nonzero_pids(pids.drop_last())
    }
}

pub fn listed_pids(buffer: &Vec<i32>, returned_bytes: i32) -> (pids: Vec<i32>)
    ensures
        pids@ == listed_pids_spec(buffer@, returned_bytes),
{
    if returned_bytes <= 0 {
        return Vec::new();
    }
    let quarter = (returned_bytes / 4) as usize;
    let n = if quarter < buffer.len() {
        quarter
    } else {
        buffer.len()
    };
    let mut pids: Vec<i32> = Vec::new();
    let mut i: usize = 0;
    while i < n
        invariant
            n <= buffer.len(),
            i <= n,
            pids@ == nonzero_pids(buffer@.take(i as int)),
        decreases n - i,
    {
        assert(buffer@.take(i + 1).drop_last() =~= buffer@.take(i as int));
        if buffer[i] != 0 {
            pids.push(buffer[i]);
        }
        i += 1;
    }
    pids
}

/// Compares each process's bytes written so far (`samples`, one per
/// process whose counters could be read) with the totals recorded in
/// `previous_totals` at the last call, records the new totals, and returns
/// the process that wrote the most in between; `None` when no total grew.
pub fn get_last_disk_writer(previous_totals: &mut HashMap<i32, u64>, samples: &Vec<(i32, u64)>) -> (busiest: Option<i32>)
    ensures
        final(previous_totals)@ == totals_of(samples@),
        busiest == if busiest_writer(old(previous_totals)@, samples@).0 == 0 {
            None
        } else {
            Some(busiest_writer(old(previous_totals)@, samples@).0)
        },
{
    let pid = record_disk_writes(previous_totals, samples);
    if pid == 0 {
        None
    } else {
        Some(pid)
    }
}

/// What the monitor shows for the busiest writer: its name (`unknown` when
/// it could not be had) and pid, or a note that no process is writing.
pub open spec fn disk_writer_report_spec(busiest: Option<i32>, name: Option<Seq<char>>) -> Seq<char> {
    match busiest {
        None => "No currently writing process"@,
        Some(pid) => {
            let n = match name {
                Some(n) => n,
                None => "unknown"@,
            };
            n + " (pid "@ + signed_decimal(pid as int) + ")"@
        },
    }
}

pub fn disk_writer_report(busiest: Option<i32>, name: Option<&str>) -> (r: String)
    ensures
        r@ == disk_writer_report_spec(
            busiest,
            match name {
                Some(n) => Some(n@),
                None => None,
            },
        ),
{
    match busiest {
        None => "No currently writing process".to_owned(),
        Some(pid) => {
            let n = match name {
                Some(n) => to_chars(n),
                None => to_chars("unknown"),
            };
            let mut out = concat_chars(&n, &to_chars(" (pid "));
            push_signed_decimal(&mut out, pid);
            let out = concat_chars(&out, &to_chars(")"));
            chars_to_string(&out)
        },
    }
}

} // verus!
