# dsi

A command-line tool that installs and manages .NET SDK versions under
`~/.dotnet/` on Linux, macOS and WSL, without `sudo`.

The decisions dsi makes are a library written in Verus and proved against
its contracts: which channel and SDK an install target names, which file
fits the platform, how SDK versions compare, which patches `prune` keeps,
which channels `update` moves, how a shell profile is cleaned, and whether a
download matches its published digest.

## Layout

- `src/` — the verified library.
  - `version.rs` — version keys and their order, channels, feature bands.
  - `models.rs` — the release metadata of Microsoft's releases API.
  - `install.rs` — targets, channel and SDK selection, the download to fetch.
  - `prune.rs`, `update.rs` — what `dsi prune` removes and `dsi update` installs.
  - `listing.rs` — what `dsi ls` and `dsi ls-remote` show.
  - `paths.rs` — `~/.dotnet`, its `dotnet` muxer and `sdk` directory.
  - `platform.rs` — OS, architecture, C library, WSL and the runtime identifier.
  - `checksum.rs` — SHA-512 and SHA-256 checks.
  - `selfupdate.rs`, `selfuninstall.rs`, `prompt.rs` — dsi managing itself.
  - `text.rs`, `lines.rs`, `order.rs`, `search.rs`, `sort.rs` — strings,
    lines, orders, searches and sorting, with the lemmas the rest rests on.
- `tests/` — tests of the library on concrete values.
- `app/` — the `dsi` binary: command line, HTTP, files, terminal.
