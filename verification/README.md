# synapse

A TCP port scanner with raw SYN/FIN/NULL/XMAS scans, connect scans, ICMP and
TCP-SYN host discovery, PTR lookups, TLS/HTTP probing of open ports, and
diffing of a scan against the previous one for the same target.

## Layout

- `src/` — the library, verified with Verus. The scanner's decisions are
  here, with their contracts (reading an IP address literal is left to
  `std::net` in `app/`):
  - `ports`, `targets` — port lists, octet ranges, CIDR targets, networks
    and the exclusion of public DNS resolvers;
  - `packet` — probe frames and TCP segments, their checksums, and reading
    reply frames;
  - `scanner` — port states, connect outcomes, the bookkeeping of raw scans
    and of discovery sweeps, local address choice;
  - `dns` — PTR query names and packets, reading the answer;
  - `probe` — HTTP request and response, certificate summaries, the probe
    summary line;
  - `diff`, `date`, `report`, `services`, `text` — snapshots and their
    difference, calendar dates, report lines and file names, the services
    table, text helpers.
- `app/` — the command-line program: arguments, sockets, raw channels,
  TLS connections, files and the SQLite history, and the floating-point
  timing figures.
- `tests/` — tests of the library on concrete values.
