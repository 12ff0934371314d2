# veloscan

A fast network scanner (host discovery, TCP connect and UDP port scans,
banner grabbing) whose decision-making core is a library verified with Verus.

- `src/` — the verified library:
  - `text.rs`: comma-separated lists, trimming, character classes;
  - `ports.rs`: port lists (`22,80-82,443`), the most common ports;
  - `targets.rs`: target lists (addresses, CIDR networks through `ipnet`,
    names looked up outside), their expansion into a sorted address set,
    exclusion;
  - `address_set.rs`: the ordered set of addresses (a `BTreeSet` keyed by
    family and bits) that target expansion fills;
  - `scanner.rs`: what each probe outcome means — host discovery, TCP and
    UDP results, banner grabbing steps and banner sanitizing;
  - `report.rs`: live hosts, which scans run, the per-host summary.
- `app/` — the command-line program: argument parsing, name resolution,
  sockets and timeouts (tokio), progress bars, colored output, JSON export.
- `tests/` — tests of the library.
