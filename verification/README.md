# BlueVein

BlueVein keeps the Bluetooth bonds of a dual-boot machine (Linux and Windows) in
step through a shared `bluevein.json` on the EFI system partition, so that a device
paired on one system also works on the other.

## Layout

- `src/`: the library, verified with Verus.
  - `bluetooth.rs`, `config.rs`: the bond records and the shared configuration,
    with their views; the interface of a platform backend.
  - `sync.rs`: the synchronization planner (merging, import plans, export plans,
    read-back checks), the synchronizer and the monitor poll. The synchronizer's
    contracts state what it asks, writes and returns over the record of the calls it
    made on the backend and the store.
  - `record.rs`: the backend and the store together with that record. Only the calls
    themselves extend it, operation by operation; no other module can write it.
  - `monitor.rs`: snapshots of the local bonds and change detection.
  - `efi.rs`: the raw configuration file (JSON extent, UTF-8), mount table lines.
  - `info.rs`, `linux.rs`: BlueZ `info` files, parsed and written; the Linux rules.
  - `windows.rs`: the Windows registry representation of bonds and its rules.
  - `migrate.rs`: bringing records of earlier versions up to date.
  - `codec.rs`, `text.rs`: hexadecimal keys and text helpers.
- `tests/`: tests of the library.
- `app/`: the program around the library: file, registry, D-Bus and EFI
  partition access, JSON, and the service loops.
