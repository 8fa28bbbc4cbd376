# fastzip

The core of the FastZIP archive manager, written in Verus. Every function
in `src/` but the thin wrappers around outside calls (see below, their
contracts are trusted) is checked by Verus: against its contract where it
has one, and in any case for arithmetic overflow and panics.

## Layout

- `src/archive.rs` – archive formats, compression settings, how archive
  file names end.
- `src/compress.rs` – the compression settings the interface commits and
  the checks a compression request passes before it is queued.
- `src/file_kind.rs` – what kind of file a path holds: by the signature of
  its first bytes, by the entries of a ZIP container, or by its name.
- `src/hash.rs` – CRC-32, SHA-256 and BLAKE3 checksums in hexadecimal.
- `src/launch.rs` – compression requests handed over by the file manager.
- `src/localization.rs` – supported locales, locale detection and message
  catalogs.
- `src/paths.rs` – output paths for archives, the common parent of
  sources, file-manager selections, names for extraction conflicts.
- `src/queue.rs` – the queue of tasks the interface runs one at a time.
- `src/settings.rs` – the INI settings file: interface preferences and
  named compression presets.
- `src/tasks.rs` – cancellation flags of background tasks and the events
  that end them.
- `src/ui.rs` – interface texts: labels, templates, sizes, durations,
  descriptions of compression settings, the starting theme.
- `src/update.rs` – reading the release feed and comparing versions.
- `src/text.rs` – character-level helpers shared by the rest.
- `app/` – the command-line front end: files, environment, network.
- `tests/` – tests on concrete values.

## What is trusted

Calls into `std::path`, `zip`, `crc32fast`, `sha2`, `blake3`,
`String::from_utf8_lossy`, `str::to_lowercase` and the clock go through
small wrappers marked `#[verifier::external_body]`; each one's doc comment
says what its contract claims of the call. Results that take pages to
state (a digest, the names in a ZIP archive, the parent of a path) are
named by uninterpreted spec functions, and the contracts above them are
exact over those names.
