# sysmon

The logic of a desktop system monitor (uptime, connections, disks, installed
applications, peripherals, displays, updates, sleep, the busiest disk writer,
downloads), written in Verus and proved against its contracts.

- `src/` is the verified library. It takes what the operating system reports
  (file contents, command output, counters) as plain values and computes the
  figures the monitor shows: `linux`, `macos` and `windows` hold the parsers of
  each platform, `commands` the figures shared by all of them, `disk_writer`
  the tracking of per-process write totals, and `text`, `numbers`, `names`,
  `strings` the text, number and name handling they are built on.
- `app/` is the desktop application around it: it reads files, runs commands,
  calls the system interfaces and hands the results to the library.
- `tests/` runs the library on concrete inputs.
