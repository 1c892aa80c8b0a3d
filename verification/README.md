# gentleman_manager

The decision-making core of a comic catalogue, snapshot and download manager,
written in Verus: every function under `src/` carries a `requires`/`ensures`
contract that Verus proves.

Layout:

- `src/text.rs`: text operations on character sequences (trim, split,
  search, replace, decimal rendering and parsing) with their specifications.
- `src/calendar.rs`: days since the epoch to a Gregorian date, and the
  timestamps built from it.
- `src/korean_series_folder.rs`, `src/commands.rs`: naming and matching the
  folders of Korean series, and the decisions behind the app's commands.
- `src/snapshot_*.rs`: reading, merging, scanning and exporting catalogue
  snapshots (bracket-depth scan of large files, scan sessions, file names).
- `src/download_manager.rs`: the download queue's task states, the pause
  after failures, retries and the names of the files a download writes.
- `src/download_tasks.rs`, `src/scoped_scan.rs`: the runs of a download (a
  comic as one zip, one image) and of a category-scoped search scan, as
  state machines that the app drives.
- `src/wnacg_client.rs`, `src/zip_download.rs`: site URLs, the parsing of
  the pages the site serves, and the planning of scoped scans.
- `src/pc_remote_discovery.rs`: finding and checking a desktop app on the
  local network.
- `app/`: the I/O around the library (files, network, serialization) and
  the loops that drive the state machines.
- `tests/`: tests of the library on concrete values.

Calls into outside crates (`regex`, `scraper`, `uuid`, the system clock,
UTF-8 decoding, lower-casing) go through a few small trusted wrappers whose
doc comments say what is assumed of them.

What is not here: the desktop/mobile shell (Tauri setup, command
registration, file pickers, settings, events to the user interface), the
local reader, the download queue's task objects with their threads, and the
parsing of search result pages. `app/` drives single runs (a zip download,
an image, a scoped scan, a scan session) but no command layer calls them.
