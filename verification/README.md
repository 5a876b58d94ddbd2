# wx_cli

The verified logic of the `wx` command-line tool for WeChat data, written in
Verus.

- `src/pattern.rs`: the search of memory for key literals `x'<hex>'`
  (key = first 64 hex digits, salt = last 32), and its laws.
- `src/region.rs`: the walk over a process's memory regions and the
  overlapping chunk reads of one region, as step functions, with the law that
  no short window is left unread.
- `src/keys.rs`: merging the keys found in several processes, matching keys
  with database salts, and the salts left unmatched.
- `src/process_list.rs`: the PowerShell CSV of WeChat processes, parsed and
  ordered by memory (stable, largest first).
- `src/daemon_cmd.rs`, `src/send.rs`: the decisions and texts of the
  `daemon` and `send` commands.
- `src/text.rs`: white space, trimming, lines, decimal numbers, joining.

`app/` holds the I/O around the library: running `osascript`, `tail` and
PowerShell, reading files, logging setup, and the Win32 calls that read
process memory (Windows only). The rest of the program (argument parsing,
the daemon and its transport) is reached through the `DaemonHost` trait.
