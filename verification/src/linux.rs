//! What the monitor makes of what Linux reports in `/proc`, `/sys`,
//! `/etc/os-release`, the desktop entries and the journal.
use std::collections::HashMap;
use vstd::prelude::*;
use crate::UptimeInfo;
use crate::disk_writer::{busiest_writer, record_disk_writes, totals_of};
use crate::names::{
    first_of_each, keep_first_ignoring_ascii_case, lemma_ascii_case_relation,
    lemma_first_of_each_represents, lemma_sorted_represents, lex_le, lowercase_keys, represents,
    same_ignoring_ascii_case, sort_case_insensitive, stable_sorted_by,
};
use crate::numbers::{parse_i32, parse_i32_spec, parse_u64, parse_u64_spec, push_signed_decimal, signed_decimal};
use crate::strings::{chars_to_string, lowercase};
use crate::text::{
    chars_equal, eq_ignore_ascii_case, eq_ignore_ascii_case_exec, fields, first_with_prefix,
    first_with_prefix_exec, has_char, has_char_exec, lines, remove_all, remove_all_exec, split_fields,
    split_lines, split_on, split_on_exec, starts_with, starts_with_exec, string_views, to_chars,
    trim, trim_chars, views, concat_chars, skip_chars, find, find_exec, sub_chars, ends_with,
    ends_with_exec,
};

verus! {

/// Placeholder answer for the most recently used file on Linux.
pub fn get_recent_file_linux() -> (r: String)
    ensures
        r@ == "might implement later"@,
{
    "might implement later".to_owned()
}

/// The uptime record for a system up `total_seconds` at time `now`: it
/// started `total_seconds` before `now` (at 0 when that would be earlier).
pub fn uptime_from_seconds(total_seconds: u64, now: u64) -> (info: UptimeInfo)
    ensures
        info.uptime == total_seconds,
        info.time_system_started == if now >= total_seconds {
            now - total_seconds
        } else {
            0
        },
{
    UptimeInfo { uptime: total_seconds, time_system_started: now.saturating_sub(total_seconds) }
}

// ---------------------------------------------------------------- tables in /proc/net

/// The data rows of a table with a header line: every line but the first.
pub open spec fn table_rows(contents: Seq<char>) -> Seq<Seq<char>> {
    let ls = lines(contents);
    if ls.len() == 0 {
        ls
    } else {
        ls.drop_first()
    }
}

/// Is the whitespace-separated column `col` of `line` equal to `value`?
pub open spec fn column_is(line: Seq<char>, col: int, value: Seq<char>) -> bool {
    col < fields(line).len() && fields(line)[col] == value
}

/// How many of `rows` have `value` in column `col` (`want`), or how many do
/// not (`!want`).
pub open spec fn count_column(rows: Seq<Seq<char>>, col: int, value: Seq<char>, want: bool) -> nat
    decreases rows.len(),
{
    if rows.len() == 0 {
        0
    } else {
        count_column(rows.drop_last(), col, value, want) + if column_is(rows.last(), col, value)
            == want {
            1nat
        } else {
            0nat
        }
    }
}

/// The number of data rows of `contents` whose column `col` is `value`
/// (`want`) or is not (`!want`).
fn count_rows_by_column(contents: &str, col: usize, value: &str, want: bool) -> (n: usize)
    ensures
        n == count_column(table_rows(contents@), col as int, value@, want),
{
    let text = to_chars(contents);
    let rows = split_lines(&text);
    let value_chars = to_chars(value);
    if rows.len() == 0 {
        return 0;
    }
    let ghost rs = table_rows(contents@);
    assert(rs =~= views(rows@).subrange(1, rows.len() as int));
    let mut count: usize = 0;
    let mut i: usize = 1;
    while i < rows.len()
        invariant
            1 <= i <= rows.len(),
            rs =~= views(rows@).subrange(1, rows.len() as int),
            value_chars@ == value@,
            count == count_column(rs.take(i - 1), col as int, value@, want),
            count <= i,
        decreases rows.len() - i,
    {
        let fs = split_fields(&rows[i]);
        assert(fields(rows@[i as int]@) == views(fs@));
        let is_value = col < fs.len() && chars_equal(&fs[col], &value_chars);
        assert(rs.take(i as int).drop_last() =~= rs.take(i - 1));
        assert(rs.take(i as int).last() == rows@[i as int]@);
        assert(is_value == column_is(rows@[i as int]@, col as int, value@));
        if is_value == want {
            count += 1;
        }
        i += 1;
    }
    assert(rs.take(i - 1) =~= rs);
    count
}

/// The number of established TCP connections listed in a `/proc/net/tcp`
/// or `/proc/net/tcp6` table: rows whose state column (the fourth) is `01`.
pub fn count_connected(contents: &str) -> (n: usize)
    ensures
        n == count_column(table_rows(contents@), 3, "01"@, true),
{
    count_rows_by_column(contents, 3, "01", true)
}

/// The number of listening TCP sockets in a `/proc/net/tcp` or
/// `/proc/net/tcp6` table: rows whose state column is `0A`.
pub fn count_listening(contents: &str) -> (n: usize)
    ensures
        n == count_column(table_rows(contents@), 3, "0A"@, true),
{
    count_rows_by_column(contents, 3, "0A", true)
}

/// The number of neighbours in `/proc/net/arp` with a hardware address:
/// rows whose fourth column is not `00:00:00:00:00:00`.
pub fn count_lan_devices(contents: &str) -> (n: usize)
    ensures
        n == count_column(table_rows(contents@), 3, "00:00:00:00:00:00"@, false),
{
    count_rows_by_column(contents, 3, "00:00:00:00:00:00", false)
}


// ---------------------------------------------------------------- /etc/os-release

/// The value of an os-release line: the key and every quote character
/// (`"` and `'`) removed (`replace(key, "")`, then `replace` of each quote).
pub open spec fn release_value(line: Seq<char>, key: Seq<char>) -> Seq<char> {
    remove_all(remove_all(remove_all(line, key), "\""@), "'"@)
}

fn release_value_exec(line: &Vec<char>, key: &str) -> (r: Vec<char>)
    ensures
        r@ == release_value(line@, key@),
{
    let a = remove_all_exec(line, &to_chars(key));
    let b = remove_all_exec(&a, &to_chars("\""));
    remove_all_exec(&b, &to_chars("'"))
}

/// The operating system's name from the contents of `/etc/os-release`
/// (`None` when it could not be read): the value of the first
/// `PRETTY_NAME=` line, else of the first `NAME=` line, else `Linux`.
pub open spec fn os_name_spec(contents: Option<Seq<char>>) -> Seq<char> {
    match contents {
        None => "Linux"@,
        Some(c) => match first_with_prefix(lines(c), "PRETTY_NAME="@) {
            Some(l) => release_value(l, "PRETTY_NAME="@),
            None => match first_with_prefix(lines(c), "NAME="@) {
                Some(l) => release_value(l, "NAME="@),
                None => "Linux"@,
            },
        },
    }
}

/// The operating system's version from the contents of `/etc/os-release`
/// (`None` when it could not be read): the value of the first
/// `VERSION_ID=` line; else that of the first `BUILD_ID=` line, given as
/// `Rolling Release` when it reads `rolling` in any ASCII case; else
/// `Unknown`.
pub open spec fn os_version_spec(contents: Option<Seq<char>>) -> Seq<char> {
    match contents {
        None => "Unknown"@,
        Some(c) => match first_with_prefix(lines(c), "VERSION_ID="@) {
            Some(l) => release_value(l, "VERSION_ID="@),
            None => match first_with_prefix(lines(c), "BUILD_ID="@) {
                Some(l) => if eq_ignore_ascii_case(release_value(l, "BUILD_ID="@), "rolling"@) {
                    "Rolling Release"@
                } else {
                    release_value(l, "BUILD_ID="@)
                },
                None => "Unknown"@,
            },
        },
    }
}

/// The value of the first line of `rows` starting with `key`.
fn first_release_value(rows: &Vec<Vec<char>>, key: &str) -> (r: Option<Vec<char>>)
    ensures
        match first_with_prefix(views(rows@), key@) {
            Some(l) => r matches Some(v) && v@ == release_value(l, key@),
            None => r is None,
        },
{
    let key_chars = to_chars(key);
    match first_with_prefix_exec(rows, &key_chars) {
        Some(k) => Some(release_value_exec(&rows[k], key)),
        None => None,
    }
}

pub fn os_name_from_release(contents: Option<&str>) -> (name: String)
    ensures
        name@ == os_name_spec(
            match contents {
                Some(c) => Some(c@),
                None => None,
            },
        ),
{
    match contents {
        None => "Linux".to_owned(),
        Some(c) => {
            let rows = split_lines(&to_chars(c));
            match first_release_value(&rows, "PRETTY_NAME=") {
                Some(v) => chars_to_string(&v),
                None => match first_release_value(&rows, "NAME=") {
                    Some(v) => chars_to_string(&v),
                    None => "Linux".to_owned(),
                },
            }
        },
    }
}

pub fn os_version_from_release(contents: Option<&str>) -> (version: String)
    ensures
        version@ == os_version_spec(
            match contents {
                Some(c) => Some(c@),
                None => None,
            },
        ),
{
    match contents {
        None => "Unknown".to_owned(),
        Some(c) => {
            let rows = split_lines(&to_chars(c));
            match first_release_value(&rows, "VERSION_ID=") {
                Some(v) => chars_to_string(&v),
                None => match first_release_value(&rows, "BUILD_ID=") {
                    Some(v) => {
                        if eq_ignore_ascii_case_exec(&v, &to_chars("rolling")) {
                            "Rolling Release".to_owned()
                        } else {
                            chars_to_string(&v)
                        }
                    },
                    None => "Unknown".to_owned(),
                },
            }
        },
    }
}

// ---------------------------------------------------------------- disks

/// A block device that stands for real storage: not a loop device, a
/// device-mapper target, a RAM disk or a compressed RAM disk.
pub open spec fn is_real_block_device(name: Seq<char>) -> bool {
    &&& !starts_with(name, "loop"@)
    &&& !starts_with(name, "dm-"@)
    &&& !starts_with(name, "ram"@)
    &&& !starts_with(name, "zram"@)
}

pub open spec fn real_block_devices_spec(names: Seq<String>) -> Seq<String>
    decreases names.len(),
{
    if names.len() == 0 {
        seq![]
    } else if is_real_block_device(names.last()@) {
        real_block_devices_spec(names.drop_last()).push(names.last())
    } else {
        real_block_devices_spec(names.drop_last())
    }
}

/// The names skipped as not being real storage: exactly those starting
/// with `loop`, `dm-`, `ram` or `zram`.
pub open spec fn skipped_block_name(name: Seq<char>) -> bool {
    starts_with(name, "loop"@) || starts_with(name, "dm-"@) || starts_with(name, "ram"@)
        || starts_with(name, "zram"@)
}

/// The real block devices are the entries of `/sys/block` whose names do
/// not start with `loop`, `dm-`, `ram` or `zram`: every other entry is
/// kept, in the order listed.
pub proof fn lemma_real_block_devices_kept(names: Seq<String>)
    ensures
        real_block_devices_spec(names) == names.filter(|n: String| !skipped_block_name(n@)),
        forall|n: Seq<char>| is_real_block_device(n) <==> !skipped_block_name(n),
    decreases names.len(),
{
    reveal(Seq::filter);
    if names.len() > 0 {
        lemma_real_block_devices_kept(names.drop_last());
    }
}

fn is_real_block_device_exec(name: &Vec<char>) -> (r: bool)
    ensures
        r == is_real_block_device(name@),
{
    !starts_with_exec(name, &to_chars("loop")) && !starts_with_exec(name, &to_chars("dm-"))
        && !starts_with_exec(name, &to_chars("ram")) && !starts_with_exec(name, &to_chars("zram"))
}

/// The entries of `/sys/block` (in the order listed) that are real storage.
pub fn real_block_devices(names: &Vec<String>) -> (devices: Vec<String>)
    ensures
        devices@ == real_block_devices_spec(names@),
{
    let mut devices: Vec<String> = Vec::new();
    let mut i: usize = 0;
    while i < names.len()
        invariant
            i <= names.len(),
            devices@ == real_block_devices_spec(names@.take(i as int)),
        decreases names.len() - i,
    {
        assert(names@.take(i + 1).drop_last() =~= names@.take(i as int));
        if is_real_block_device_exec(&to_chars(names[i].as_str())) {
            devices.push(names[i].clone());
        }
        i += 1;
    }
    assert(names@.take(i as int) =~= names@);
    devices
}

/// A `/proc/diskstats` line that the totals count: it has at least ten
/// columns and its device (third column) is one of `devices`.
pub open spec fn counted_diskstats_row(line: Seq<char>, devices: Seq<String>) -> bool {
    fields(line).len() >= 10 && exists|k: int| 0 <= k < devices.len() && devices[k]@ == fields(line)[2]
}

/// The number in `s`, or 0 when `s` is not a `u64` (`parse().unwrap_or(0)`).
pub open spec fn u64_or_zero(s: Seq<char>) -> nat {
    match parse_u64_spec(s) {
        Some(v) => v as nat,
        None => 0,
    }
}

/// The sum of column `col` over the counted lines.
pub open spec fn sector_total(ls: Seq<Seq<char>>, devices: Seq<String>, col: int) -> nat
    decreases ls.len(),
{
    if ls.len() == 0 {
        0
    } else {
        sector_total(ls.drop_last(), devices, col) + if counted_diskstats_row(ls.last(), devices) {
            u64_or_zero(fields(ls.last())[col])
        } else {
            0nat
        }
    }
}

proof fn lemma_sector_total_grows(ls: Seq<Seq<char>>, devices: Seq<String>, col: int, k: int)
    requires
        0 <= k <= ls.len(),
    ensures
        sector_total(ls.take(k), devices, col) <= sector_total(ls, devices, col),
    decreases ls.len() - k,
{
    if k < ls.len() {
        lemma_sector_total_grows(ls, devices, col, k + 1);
        assert(ls.take(k + 1).drop_last() =~= ls.take(k));
    } else {
        assert(ls.take(k) =~= ls);
    }
}

/// Bytes read and written on the real disks, from `/proc/diskstats`: the
/// sectors read (sixth column) and written (tenth column) of every line for
/// one of `devices`, times 512. `None` when a total does not fit in a `u64`
/// (where the running sums would overflow).
pub open spec fn diskstats_bytes(contents: Seq<char>, devices: Seq<String>) -> Option<(u64, u64)> {
    let read = sector_total(lines(contents), devices, 5) * 512;
    let written = sector_total(lines(contents), devices, 9) * 512;
    if read <= u64::MAX && written <= u64::MAX {
        Some((read as u64, written as u64))
    } else {
        None
    }
}

fn is_listed(devices: &Vec<String>, name: &Vec<char>) -> (r: bool)
    ensures
        r == exists|k: int| 0 <= k < devices.len() && devices@[k]@ == name@,
{
    let mut k: usize = 0;
    while k < devices.len()
        invariant
            k <= devices.len(),
            forall|j: int| 0 <= j < k ==> devices@[j]@ != name@,
        decreases devices.len() - k,
    {
        if chars_equal(&to_chars(devices[k].as_str()), name) {
            return true;
        }
        k += 1;
    }
    false
}

fn u64_or_zero_exec(v: &Vec<char>) -> (r: u64)
    ensures
        r == u64_or_zero(v@),
{
    match parse_u64(v) {
        Some(x) => x,
        None => 0,
    }
}

pub fn disk_totals(contents: &str, devices: &Vec<String>) -> (r: Option<(u64, u64)>)
    ensures
        r == diskstats_bytes(contents@, devices@),
{
    let rows = split_lines(&to_chars(contents));
    let ghost ls = lines(contents@);
    let mut read: u64 = 0;
    let mut written: u64 = 0;
    let mut i: usize = 0;
    while i < rows.len()
        invariant
            i <= rows.len(),
            ls == views(rows@),
            ls == lines(contents@),
            read == sector_total(ls.take(i as int), devices@, 5),
            written == sector_total(ls.take(i as int), devices@, 9),
        decreases rows.len() - i,
    {
        assert(ls.take(i + 1).drop_last() =~= ls.take(i as int));
        assert(ls[i as int] == rows@[i as int]@);
        let fs = split_fields(&rows[i]);
        assert(views(fs@) == fields(ls[i as int]));
        if fs.len() >= 10 && is_listed(devices, &fs[2]) {
            assert(fs@[2]@ == fields(ls[i as int])[2]);
            assert(fs@[5]@ == fields(ls[i as int])[5]);
            assert(fs@[9]@ == fields(ls[i as int])[9]);
            let r = u64_or_zero_exec(&fs[5]);
            let w = u64_or_zero_exec(&fs[9]);
            proof {
                lemma_sector_total_grows(ls, devices@, 5, i + 1);
                lemma_sector_total_grows(ls, devices@, 9, i + 1);
            }
            assert(ls.take(i + 1).last() == ls[i as int]);
            assert(counted_diskstats_row(ls[i as int], devices@));
            assert(sector_total(ls.take(i + 1), devices@, 5) == read + r);
            assert(sector_total(ls.take(i + 1), devices@, 9) == written + w);
            if read > u64::MAX - r || written > u64::MAX - w {
                assert(sector_total(ls, devices@, 5) > u64::MAX || sector_total(ls, devices@, 9)
                    > u64::MAX);
                assert(sector_total(ls, devices@, 5) * 512 > u64::MAX || sector_total(
                    ls,
                    devices@,
                    9,
                ) * 512 > u64::MAX);
                assert(ls == lines(contents@));
                assert(diskstats_bytes(contents@, devices@) is None);
                return None;
            }
            read = read + r;
            written = written + w;
        }
        i += 1;
    }
    assert(ls.take(i as int) =~= ls);
    if read > u64::MAX / 512 || written > u64::MAX / 512 {
        return None;
    }
    Some((read * 512, written * 512))
}

// ---------------------------------------------------------------- devices in /sys

/// A USB device that counts as a peripheral: not an interface (no `:` in
/// its name), not a root hub (`usb…`), and not of the hub class `09`.
pub open spec fn counts_as_peripheral(name: Seq<char>, class: Seq<char>) -> bool {
    &&& !has_char(name, ':')
    &&& !starts_with(name, "usb"@)
    &&& trim(class) != "09"@
}

pub open spec fn count_peripherals_spec(devices: Seq<(String, String)>) -> nat
    decreases devices.len(),
{
    if devices.len() == 0 {
        0
    } else {
        count_peripherals_spec(devices.drop_last()) + if counts_as_peripheral(
            devices.last().0@,
            devices.last().1@,
        ) {
            1nat
        } else {
            0nat
        }
    }
}

/// The number of peripherals among the entries of `/sys/bus/usb/devices`,
/// each given as its name and the contents of its `bDeviceClass` file
/// (empty when it could not be read).
pub fn count_peripherals(devices: &Vec<(String, String)>) -> (n: usize)
    ensures
        n == count_peripherals_spec(devices@),
{
    let mut n: usize = 0;
    let mut i: usize = 0;
    while i < devices.len()
        invariant
            i <= devices.len(),
            n == count_peripherals_spec(devices@.take(i as int)),
            n <= i,
        decreases devices.len() - i,
    {
        assert(devices@.take(i + 1).drop_last() =~= devices@.take(i as int));
        let name = to_chars(devices[i].0.as_str());
        let class = trim_chars(&to_chars(devices[i].1.as_str()));
        if !has_char_exec(&name, ':') && !starts_with_exec(&name, &to_chars("usb")) && !chars_equal(
            &class,
            &to_chars("09"),
        ) {
            n += 1;
        }
        i += 1;
    }
    assert(devices@.take(i as int) =~= devices@);
    n
}

/// A display connector that counts as a monitor: a connector entry (its
/// name has a `-`) whose status reads `connected`.
pub open spec fn counts_as_monitor(name: Seq<char>, status: Seq<char>) -> bool {
    has_char(name, '-') && trim(status) == "connected"@
}

pub open spec fn count_monitors_spec(connectors: Seq<(String, String)>) -> nat
    decreases connectors.len(),
{
    if connectors.len() == 0 {
        0
    } else {
        count_monitors_spec(connectors.drop_last()) + if counts_as_monitor(
            connectors.last().0@,
            connectors.last().1@,
        ) {
            1nat
        } else {
            0nat
        }
    }
}

/// The number of connected monitors among the entries of `/sys/class/drm`,
/// each given as its name and the contents of its `status` file (empty when
/// it could not be read).
pub fn count_monitors(connectors: &Vec<(String, String)>) -> (n: usize)
    ensures
        n == count_monitors_spec(connectors@),
{
    let mut n: usize = 0;
    let mut i: usize = 0;
    while i < connectors.len()
        invariant
            i <= connectors.len(),
            n == count_monitors_spec(connectors@.take(i as int)),
            n <= i,
        decreases connectors.len() - i,
    {
        assert(connectors@.take(i + 1).drop_last() =~= connectors@.take(i as int));
        let name = to_chars(connectors[i].0.as_str());
        let status = trim_chars(&to_chars(connectors[i].1.as_str()));
        if has_char_exec(&name, '-') && chars_equal(&status, &to_chars("connected")) {
            n += 1;
        }
        i += 1;
    }
    assert(connectors@.take(i as int) =~= connectors@);
    n
}

/// The first known time among the candidates, or 0.
pub open spec fn first_known(times: Seq<Option<u64>>) -> u64
    decreases times.len(),
{
    if times.len() == 0 {
        0
    } else if times[0] is Some {
        times[0]->0
    } else {
        first_known(times.drop_first())
    }
}

/// When the system was last updated: the modification time (seconds since
/// the epoch) of the first package-manager record that exists, the records
/// given in the order they are looked for; 0 when there is none.
pub fn last_update_time(times: &Vec<Option<u64>>) -> (t: u64)
    ensures
        t == first_known(times@),
{
    let mut i: usize = 0;
    assert(times@.skip(0) =~= times@);
    while i < times.len()
        invariant
            i <= times.len(),
            first_known(times@) == first_known(times@.skip(i as int)),
        decreases times.len() - i,
    {
        assert(times@.skip(i as int).drop_first() =~= times@.skip(i + 1));
        if let Some(t) = times[i] {
            return t;
        }
        i += 1;
    }
    0
}


// ---------------------------------------------------------------- desktop entries

/// `PathBuf::from(base).join("applications")` as text: a `/` goes between
/// the two unless `base` is empty or already ends with one.
pub open spec fn join_applications(base: Seq<char>) -> Seq<char> {
    if base.len() > 0 && base.last() != '/' {
        base + "/applications"@
    } else {
        base + "applications"@
    }
}

/// The `applications` folders under the non-empty entries of a
/// colon-separated list.
pub open spec fn joined_nonempty(dirs: Seq<Seq<char>>) -> Seq<Seq<char>>
    decreases dirs.len(),
{
    if dirs.len() == 0 {
        seq![]
    } else if dirs.last().len() > 0 {
        joined_nonempty(dirs.drop_last()).push(join_applications(dirs.last()))
    } else {
        joined_nonempty(dirs.drop_last())
    }
}

/// The folders searched for desktop entries, in order: the user's data
/// folder (`XDG_DATA_HOME`, else `$HOME/.local/share`), each non-empty
/// entry of `XDG_DATA_DIRS` (else `/usr/local/share:/usr/share`), each with
/// `applications` joined on, then the Flatpak and Snap export folders.
pub open spec fn application_dirs_spec(
    home: Seq<char>,
    data_home: Option<Seq<char>>,
    data_dirs: Option<Seq<char>>,
) -> Seq<Seq<char>> {
    let dh = match data_home {
        Some(d) => d,
        None => home + "/.local/share"@,
    };
    let dd = match data_dirs {
        Some(d) => d,
        None => "/usr/local/share:/usr/share"@,
    };
    seq![join_applications(dh)] + joined_nonempty(split_on(dd, ':')) + seq![
        "/var/lib/flatpak/exports/share/applications"@,
        "/var/lib/snapd/desktop/applications"@,
    ]
}

fn join_applications_exec(base: &Vec<char>) -> (r: Vec<char>)
    ensures
        r@ == join_applications(base@),
{
    if base.len() > 0 && base[base.len() - 1] != '/' {
        concat_chars(base, &to_chars("/applications"))
    } else {
        concat_chars(base, &to_chars("applications"))
    }
}

pub fn application_dirs(home: &str, data_home: Option<&str>, data_dirs: Option<&str>) -> (dirs: Vec<
    String,
>)
    ensures
        string_views(dirs@) == application_dirs_spec(
            home@,
            match data_home {
                Some(d) => Some(d@),
                None => None,
            },
            match data_dirs {
                Some(d) => Some(d@),
                None => None,
            },
        ),
{
    let dh = match data_home {
        Some(d) => to_chars(d),
        None => concat_chars(&to_chars(home), &to_chars("/.local/share")),
    };
    let dd = match data_dirs {
        Some(d) => to_chars(d),
        None => to_chars("/usr/local/share:/usr/share"),
    };
    let mut dirs: Vec<String> = Vec::new();
    dirs.push(chars_to_string(&join_applications_exec(&dh)));
    let pieces = split_on_exec(&dd, ':');
    let ghost ps = split_on(dd@, ':');
    let mut i: usize = 0;
    while i < pieces.len()
        invariant
            i <= pieces.len(),
            ps == views(pieces@),
            string_views(dirs@) == seq![join_applications(dh@)] + joined_nonempty(ps.take(i as int)),
        decreases pieces.len() - i,
    {
        assert(ps.take(i + 1).drop_last() =~= ps.take(i as int));
        assert(ps[i as int] == pieces@[i as int]@);
        if pieces[i].len() > 0 {
            let j = join_applications_exec(&pieces[i]);
            let ghost old_views = string_views(dirs@);
            dirs.push(chars_to_string(&j));
            assert(string_views(dirs@) =~= old_views.push(j@));
            assert(joined_nonempty(ps.take(i + 1)) == joined_nonempty(ps.take(i as int)).push(
                join_applications(ps[i as int]),
            ));
            assert(string_views(dirs@) =~= seq![join_applications(dh@)] + joined_nonempty(
                ps.take(i + 1),
            ));
        } else {
            assert(string_views(dirs@) =~= seq![join_applications(dh@)] + joined_nonempty(
                ps.take(i + 1),
            ));
        }
        i += 1;
    }
    assert(ps.take(i as int) =~= ps);
    let ghost before = string_views(dirs@);
    dirs.push("/var/lib/flatpak/exports/share/applications".to_owned());
    dirs.push("/var/lib/snapd/desktop/applications".to_owned());
    assert(string_views(dirs@) =~= before + seq![
        "/var/lib/flatpak/exports/share/applications"@,
        "/var/lib/snapd/desktop/applications"@,
    ]);
    dirs
}

/// Is a file with this name a desktop entry, that is, is its
/// `Path::extension` `desktop`? The extension is what follows the last `.`
/// when that `.` is not the name's first character.
pub open spec fn desktop_file_name(file_name: Seq<char>) -> bool {
    ends_with(file_name, ".desktop"@) && file_name.len() > ".desktop"@.len()
}

pub fn is_desktop_file_name(file_name: &str) -> (r: bool)
    ensures
        r == desktop_file_name(file_name@),
{
    let v = to_chars(file_name);
    let suffix = to_chars(".desktop");
    ends_with_exec(&v, &suffix) && v.len() > suffix.len()
}

/// A section header other than `[Desktop Entry]`: reading stops there.
pub open spec fn other_section(line: Seq<char>) -> bool {
    starts_with(line, "["@) && line != "[Desktop Entry]"@
}

/// Index of the first line at or after `i` that opens another section, or
/// the number of lines.
pub open spec fn entry_end(ls: Seq<Seq<char>>, i: int) -> int
    decreases ls.len() - i,
{
    if i < 0 || i >= ls.len() {
        ls.len() as int
    } else if other_section(ls[i]) {
        i
    } else {
        entry_end(ls, i + 1)
    }
}

/// The name of the last `Name=` line, trimmed.
pub open spec fn entry_name(ls: Seq<Seq<char>>) -> Option<Seq<char>>
    decreases ls.len(),
{
    if ls.len() == 0 {
        None
    } else if starts_with(ls.last(), "Name="@) {
        Some(trim(ls.last().skip("Name="@.len() as int)))
    } else {
        entry_name(ls.drop_last())
    }
}

/// Does a line hide the entry (`NoDisplay=true` or `Hidden=true`)?
pub open spec fn hides_entry(line: Seq<char>) -> bool {
    line == "NoDisplay=true"@ || line == "Hidden=true"@
}

pub open spec fn entry_hidden(ls: Seq<Seq<char>>) -> bool {
    exists|k: int| 0 <= k < ls.len() && hides_entry(ls[k])
}

/// The name a desktop entry file shows, from the lines before the first
/// other section: the trimmed value of its last `Name=` line, or `None`
/// when it has none or is hidden.
pub open spec fn desktop_entry_name_spec(content: Seq<char>) -> Option<Seq<char>> {
    let ls = lines(content);
    let body = ls.take(entry_end(ls, 0));
    if entry_hidden(body) {
        None
    } else {
        entry_name(body)
    }
}

pub fn desktop_entry_name(content: &str) -> (name: Option<String>)
    ensures
        match desktop_entry_name_spec(content@) {
            Some(n) => name matches Some(s) && s@ == n,
            None => name is None,
        },
{
    let rows = split_lines(&to_chars(content));
    let ghost ls = lines(content@);
    let header = to_chars("[");
    let desktop_entry = to_chars("[Desktop Entry]");
    let name_key = to_chars("Name=");
    let no_display = to_chars("NoDisplay=true");
    let hidden_line = to_chars("Hidden=true");
    let mut name: Option<Vec<char>> = None;
    let mut hidden = false;
    let mut i: usize = 0;
    while i < rows.len()
        invariant
            i <= rows.len(),
            ls == views(rows@),
            ls == lines(content@),
            header@ == "["@,
            desktop_entry@ == "[Desktop Entry]"@,
            name_key@ == "Name="@,
            no_display@ == "NoDisplay=true"@,
            hidden_line@ == "Hidden=true"@,
            entry_end(ls, 0) == entry_end(ls, i as int),
            hidden == entry_hidden(ls.take(i as int)),
            match entry_name(ls.take(i as int)) {
                Some(n) => name matches Some(v) && v@ == n,
                None => name is None,
            },
        ensures
            i <= rows.len(),
            entry_end(ls, 0) == i,
            hidden == entry_hidden(ls.take(i as int)),
            match entry_name(ls.take(i as int)) {
                Some(n) => name matches Some(v) && v@ == n,
                None => name is None,
            },
        decreases rows.len() - i,
    {
        let line = &rows[i];
        assert(ls[i as int] == line@);
        if starts_with_exec(line, &header) && !chars_equal(line, &desktop_entry) {
            break;
        }
        assert(ls.take(i + 1).drop_last() =~= ls.take(i as int));
        assert(ls.take(i + 1).last() == line@);
        if starts_with_exec(line, &name_key) {
            let rest = skip_chars(line, name_key.len());
            name = Some(trim_chars(&rest));
        }
        if chars_equal(line, &no_display) || chars_equal(line, &hidden_line) {
            hidden = true;
        }
        assert(hidden == entry_hidden(ls.take(i + 1))) by {
            if hides_entry(line@) {
                assert(ls.take(i + 1)[i as int] == line@);
            }
            if entry_hidden(ls.take(i + 1)) && !hides_entry(line@) {
                let k = choose|k: int| 0 <= k < i + 1 && hides_entry(#[trigger] ls.take(i + 1)[k]);
                assert(ls.take(i as int)[k] == ls.take(i + 1)[k]);
            }
        }
        i += 1;
    }
    assert(ls.take(entry_end(ls, 0)) =~= ls.take(i as int));
    if hidden {
        None
    } else {
        match name {
            Some(v) => Some(chars_to_string(&v)),
            None => None,
        }
    }
}

proof fn lemma_entry_end_at(ls: Seq<Seq<char>>, i: int, e: int)
    requires
        0 <= i <= e <= ls.len(),
        forall|k: int| i <= k < e ==> !other_section(#[trigger] ls[k]),
        e < ls.len() ==> other_section(ls[e]),
    ensures
        entry_end(ls, i) == e,
    decreases e - i,
{
    if i < e {
        lemma_entry_end_at(ls, i + 1, e);
    }
}

proof fn lemma_entry_name_of_last(ls: Seq<Seq<char>>, j: int, m: int)
    requires
        0 <= j < m <= ls.len(),
        starts_with(ls[j], "Name="@),
        forall|k: int| j < k < m ==> !starts_with(#[trigger] ls[k], "Name="@),
    ensures
        entry_name(ls.take(m)) == Some(trim(ls[j].skip("Name="@.len() as int))),
    decreases m - j,
{
    let t = ls.take(m);
    assert(t.last() == ls[m - 1]);
    if m > j + 1 {
        assert(t.drop_last() =~= ls.take(m - 1));
        lemma_entry_name_of_last(ls, j, m - 1);
    }
}

/// A desktop entry is shown under the name of its last `Name=` line: when
/// the lines before the first section other than `[Desktop Entry]` (the
/// first `e` lines) hold a `Name=` line at `j`, no later `Name=` line, and
/// no line that is exactly `NoDisplay=true` or `Hidden=true`, the entry's
/// name is the text after `Name=` on line `j`, trimmed.
pub proof fn lemma_desktop_entry_shown(content: Seq<char>, j: int, e: int)
    requires
        0 <= j < e <= lines(content).len(),
        forall|k: int|
            0 <= k < e ==> !(starts_with(#[trigger] lines(content)[k], "["@) && lines(content)[k]
                != "[Desktop Entry]"@),
        e < lines(content).len() ==> starts_with(lines(content)[e], "["@) && lines(content)[e]
            != "[Desktop Entry]"@,
        starts_with(lines(content)[j], "Name="@),
        forall|k: int| j < k < e ==> !starts_with(#[trigger] lines(content)[k], "Name="@),
        forall|k: int|
            0 <= k < e ==> #[trigger] lines(content)[k] != "NoDisplay=true"@ && lines(content)[k]
                != "Hidden=true"@,
    ensures
        desktop_entry_name_spec(content) == Some(trim(lines(content)[j].skip("Name="@.len() as int))),
{
    let ls = lines(content);
    assert forall|k: int| 0 <= k < e implies !other_section(#[trigger] ls[k]) by {
        assert(!(starts_with(ls[k], "["@) && ls[k] != "[Desktop Entry]"@));
    }
    lemma_entry_end_at(ls, 0, e);
    let body = ls.take(e);
    assert forall|k: int| 0 <= k < body.len() implies !hides_entry(#[trigger] body[k]) by {
        assert(body[k] == ls[k]);
        assert(ls[k] != "NoDisplay=true"@ && ls[k] != "Hidden=true"@);
    }
    lemma_entry_name_of_last(ls, j, e);
}

/// A desktop entry with a line that is exactly `NoDisplay=true` or
/// `Hidden=true` before the first other section (the first `e` lines) is
/// not listed, whatever its name.
pub proof fn lemma_desktop_entry_hidden(content: Seq<char>, k: int, e: int)
    requires
        0 <= k < e <= lines(content).len(),
        forall|i: int|
            0 <= i < e ==> !(starts_with(#[trigger] lines(content)[i], "["@) && lines(content)[i]
                != "[Desktop Entry]"@),
        e < lines(content).len() ==> starts_with(lines(content)[e], "["@) && lines(content)[e]
            != "[Desktop Entry]"@,
        lines(content)[k] == "NoDisplay=true"@ || lines(content)[k] == "Hidden=true"@,
    ensures
        desktop_entry_name_spec(content) is None,
{
    let ls = lines(content);
    assert forall|i: int| 0 <= i < e implies !other_section(#[trigger] ls[i]) by {
        assert(!(starts_with(ls[i], "["@) && ls[i] != "[Desktop Entry]"@));
    }
    lemma_entry_end_at(ls, 0, e);
    assert(ls.take(e)[k] == ls[k]);
    assert(hides_entry(ls.take(e)[k]));
}

/// The installed applications, from the names of the desktop entries found
/// (in the order found): empty names and names equal to an earlier one
/// ignoring ASCII case dropped, then sorted by their lowercase forms. So no
/// two are equal ignoring ASCII case, each is one of the names found, and
/// each non-empty name found is there up to ASCII case.
pub fn installed_apps(entry_names: &Vec<String>) -> (apps: Vec<String>)
    ensures
        stable_sorted_by(
            apps@,
            first_of_each(entry_names@, same_ignoring_ascii_case()),
            lowercase_keys(first_of_each(entry_names@, same_ignoring_ascii_case())),
        ),
        represents(apps@, entry_names@, same_ignoring_ascii_case()),
        forall|i: int, j: int|
            0 <= i < j < apps.len() ==> lex_le(
                lowercase(#[trigger] apps@[i]@),
                lowercase(#[trigger] apps@[j]@),
            ),
{
    let kept = keep_first_ignoring_ascii_case(entry_names);
    let apps = sort_case_insensitive(&kept);
    proof {
        lemma_ascii_case_relation();
        lemma_first_of_each_represents(entry_names@, same_ignoring_ascii_case());
        lemma_sorted_represents(apps@, kept@, entry_names@, same_ignoring_ascii_case());
    }
    apps
}

// ---------------------------------------------------------------- processes

/// The process ids among the names of the entries of `/proc`: those that
/// read as an `i32`, in order.
pub open spec fn proc_pids_spec(names: Seq<String>) -> Seq<i32>
    decreases names.len(),
{
    if names.len() == 0 {
        seq![]
    } else {
        match parse_i32_spec(names.last()@) {
            Some(pid) => proc_pids_spec(names.drop_last()).push(pid),
            None => proc_pids_spec(names.drop_last()),
        }
    }
}

pub fn proc_pids(names: &Vec<String>) -> (pids: Vec<i32>)
    ensures
        pids@ == proc_pids_spec(names@),
{
    let mut pids: Vec<i32> = Vec::new();
    let mut i: usize = 0;
    while i < names.len()
        invariant
            i <= names.len(),
            pids@ == proc_pids_spec(names@.take(i as int)),
        decreases names.len() - i,
    {
        assert(names@.take(i + 1).drop_last() =~= names@.take(i as int));
        if let Some(pid) = parse_i32(&to_chars(names[i].as_str())) {
            pids.push(pid);
        }
        i += 1;
    }
    assert(names@.take(i as int) =~= names@);
    pids
}

/// The bytes a process has written, from its `/proc/<pid>/io`: the number
/// on the first `write_bytes:` line when that line has exactly two words and
/// the second is a `u64`; else 0.
pub open spec fn write_bytes_spec(contents: Seq<char>) -> u64 {
    match first_with_prefix(lines(contents), "write_bytes:"@) {
        Some(l) => if fields(l).len() == 2 && parse_u64_spec(fields(l)[1]) is Some {
            parse_u64_spec(fields(l)[1])->0
        } else {
            0
        },
        None => 0,
    }
}

pub fn write_bytes_from_io(contents: &str) -> (n: u64)
    ensures
        n == write_bytes_spec(contents@),
{
    let rows = split_lines(&to_chars(contents));
    match first_with_prefix_exec(&rows, &to_chars("write_bytes:")) {
        Some(k) => {
            let fs = split_fields(&rows[k]);
            if fs.len() == 2 {
                match parse_u64(&fs[1]) {
                    Some(v) => v,
                    None => 0,
                }
            } else {
                0
            }
        },
        None => 0,
    }
}

/// Compares each process's bytes written so far (`samples`, one per process
/// read) with the totals recorded in `previous_totals` at the last call,
/// records the new totals, and returns the process that wrote the most in
/// between; `None` when no total grew.
pub fn get_last_disk_writer(previous_totals: &mut HashMap<i32, u64>, samples: &Vec<(i32, u64)>) -> (busiest: Option<i32>)
    ensures
        final(previous_totals)@ == totals_of(samples@),
        busiest == if busiest_writer(old(previous_totals)@, samples@).0 == 0 {
            None
        } else {
            Some(busiest_writer(old(previous_totals)@, samples@).0)
        },
{
    let pid = record_disk_writes(previous_totals, samples);
    if pid == 0 {
        None
    } else {
        Some(pid)
    }
}

/// What the monitor shows for the busiest writer: its name (the trimmed
/// contents of `/proc/<pid>/comm`, or `unknown` when that could not be
/// read) and pid, or `(Writing processes)` when there is none.
pub open spec fn disk_writer_report_spec(busiest: Option<i32>, comm: Option<Seq<char>>) -> Seq<char> {
    match busiest {
        None => "(Writing processes)"@,
        Some(pid) => {
            let name = match comm {
                Some(c) => trim(c),
                None => "unknown"@,
            };
            name + " (pid "@ + signed_decimal(pid as int) + ")"@
        },
    }
}

/// For a busiest writer whose `comm` could be read, the report is the
/// whole of `comm` with its surrounding whitespace removed (inner spaces
/// kept), then ` (pid `, the pid in decimal and `)`; with no writer it is
/// `(Writing processes)`.
pub proof fn lemma_disk_writer_report_names_writer(pid: i32, comm: Seq<char>)
    ensures
        disk_writer_report_spec(Some(pid), Some(comm)) == trim(comm) + " (pid "@ + signed_decimal(
            pid as int,
        ) + ")"@,
        disk_writer_report_spec(Some(pid), Some(comm)).subrange(0, trim(comm).len() as int)
            == trim(comm),
        disk_writer_report_spec(None, Some(comm)) == "(Writing processes)"@,
{
    let r = disk_writer_report_spec(Some(pid), Some(comm));
    assert((trim(comm) + " (pid "@ + signed_decimal(pid as int) + ")"@).subrange(
        0,
        trim(comm).len() as int,
    ) =~= trim(comm));
}

pub fn disk_writer_report(busiest: Option<i32>, comm: Option<&str>) -> (r: String)
    ensures
        r@ == disk_writer_report_spec(
            busiest,
            match comm {
                Some(c) => Some(c@),
                None => None,
            },
        ),
{
    match busiest {
        None => "(Writing processes)".to_owned(),
        Some(pid) => {
            let name = match comm {
                Some(c) => trim_chars(&to_chars(c)),
                None => to_chars("unknown"),
            };
            let mut out = concat_chars(&name, &to_chars(" (pid "));
            push_signed_decimal(&mut out, pid);
            let out = concat_chars(&out, &to_chars(")"));
            chars_to_string(&out)
        },
    }
}

// ---------------------------------------------------------------- the journal

/// The time, in whole seconds since the epoch, that a JSON journal line
/// gives for `"__REALTIME_TIMESTAMP"`: after the key, the first `:`, then
/// the text between the next two `"`, read as microseconds.
pub open spec fn journal_timestamp(line: Seq<char>) -> Option<u64> {
    let key = "\"__REALTIME_TIMESTAMP\""@;
    match find(line, key) {
        None => None,
        Some(kp) => {
            let after_key = line.skip(kp + key.len());
            match find(after_key, ":"@) {
                None => None,
                Some(cp) => {
                    let after_colon = after_key.skip(cp + 1);
                    match find(after_colon, "\""@) {
                        None => None,
                        Some(qs) => {
                            let value = after_colon.skip(qs + 1);
                            match find(value, "\""@) {
                                None => None,
                                Some(qe) => match parse_u64_spec(value.take(qe)) {
                                    Some(micros) => Some(micros / 1_000_000),
                                    None => None,
                                },
                            }
                        },
                    }
                },
            }
        },
    }
}

/// The time given by the last line that gives one, or 0.
pub open spec fn last_journal_timestamp(ls: Seq<Seq<char>>) -> u64
    decreases ls.len(),
{
    if ls.len() == 0 {
        0
    } else {
        match journal_timestamp(ls.last()) {
            Some(t) => t,
            None => last_journal_timestamp(ls.drop_last()),
        }
    }
}

/// The start of the last suspend in the output of `journalctl -u
/// systemd-suspend.service -o json`, in seconds since the epoch; `None`
/// when the log gives none (or gives 0).
pub open spec fn last_suspend_spec(log: Seq<char>) -> Option<u64> {
    let t = last_journal_timestamp(lines(log));
    if t == 0 {
        None
    } else {
        Some(t)
    }
}

/// The part of `v` after the first occurrence of `p`, and where it starts.
fn after_first(v: &Vec<char>, p: &Vec<char>) -> (r: Option<Vec<char>>)
    ensures
        match find(v@, p@) {
            Some(i) => r matches Some(rest) && rest@ == v@.skip(i + p@.len()),
            None => r is None,
        },
{
    proof {
        crate::text::lemma_find_from(v@, p@, 0);
    }
    match find_exec(v, p) {
        Some(i) => {
            assert(i + p@.len() <= v@.len());
            assert(p.len() == p@.len());
            assert(v.len() == v@.len());
            assert(i + p.len() <= v.len());
            let start = i + p.len();
            Some(skip_chars(v, start))
        },
        None => None,
    }
}

fn journal_timestamp_exec(line: &Vec<char>) -> (r: Option<u64>)
    ensures
        r == journal_timestamp(line@),
{
    proof {
        reveal_strlit(":");
        reveal_strlit("\"");
    }
    let after_key = match after_first(line, &to_chars("\"__REALTIME_TIMESTAMP\"")) {
        Some(rest) => rest,
        None => return None,
    };
    let after_colon = match after_first(&after_key, &to_chars(":")) {
        Some(rest) => rest,
        None => return None,
    };
    let value = match after_first(&after_colon, &to_chars("\"")) {
        Some(rest) => rest,
        None => return None,
    };
    let end_quote = to_chars("\"");
    proof {
        crate::text::lemma_find_from(value@, end_quote@, 0);
    }
    match find_exec(&value, &end_quote) {
        Some(qe) => match parse_u64(&sub_chars(&value, 0, qe)) {
            Some(micros) => {
                assert(value@.take(qe as int) =~= value@.subrange(0, qe as int));
                Some(micros / 1_000_000)
            },
            None => {
                assert(value@.take(qe as int) =~= value@.subrange(0, qe as int));
                None
            },
        },
        None => None,
    }
}

pub fn last_suspend_seconds(log: &str) -> (r: Option<u64>)
    ensures
        r == last_suspend_spec(log@),
{
    let rows = split_lines(&to_chars(log));
    let ghost ls = lines(log@);
    let mut seconds: u64 = 0;
    let mut i: usize = 0;
    while i < rows.len()
        invariant
            i <= rows.len(),
            ls == views(rows@),
            seconds == last_journal_timestamp(ls.take(i as int)),
        decreases rows.len() - i,
    {
        assert(ls.take(i + 1).drop_last() =~= ls.take(i as int));
        assert(ls.take(i + 1).last() == rows@[i as int]@);
        if let Some(t) = journal_timestamp_exec(&rows[i]) {
            seconds = t;
        }
        i += 1;
    }
    assert(ls.take(i as int) =~= ls);
    if seconds == 0 {
        None
    } else {
        Some(seconds)
    }
}

} // verus!
