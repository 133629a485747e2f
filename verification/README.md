# solana-validator-snapshot-keeper

Keeps fresh Solana snapshots on disk. This crate is the verified core of the
keeper, written in Verus, with the program around it in `app/`.

## Layout

- `src/config/` — the configuration model: sections, defaults, and the rules a
  loaded configuration must meet (`Config::validate`, first problem in order
  log, validator, cluster, snapshots). The snapshots directory is probed by
  the program; its outcome is handed to validation as a `DirectoryStatus`.
  Each refusal renders its own report (`ConfigError::section`, `context`,
  `message`, `report`; `SizeError::message`; `LockHeld::message`), so the
  program only wraps these texts.
- `src/config/size.rs` — `parse_size` ("60mb", "1.5gb", "2" = megabytes) and
  `format_size` ("1.5 GB"), both specified exactly.
- `src/config/binary64.rs` — rounding a fraction to the nearest binary64
  value (ties to even), stated over integers; `parse_size` reads its number
  this way, as a float parse would.
- `src/manager.rs` — the interval scheduler (`next_boundary`, runs on the
  grid `midnight UTC + k·interval`), the wait until the next run, the lock
  file's path and the verdict on an existing lock.
- `src/time.rs` — plain-value spans and UTC instants.
- `src/text.rs` — character-level helpers (trimming, ASCII lowercase).
- `app/` — command line, YAML loading, logging, the tokio run loop and the
  lock file on disk.
- `tests/` — scenarios, and comparisons against float formatting and chrono.
