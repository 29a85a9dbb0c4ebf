# mudup

Verified core of `mudup`, the installer and version manager for MuduDB
releases.

- `src/` is the library, checked by Verus:
  - `text`: character-level models of `str::trim`, `lines`, `split`,
    `split_once`, `split_whitespace`, substring search and string order.
  - `archive`: the Unix path-component model of `std::path`, the check of
    archive entries (`validate_relative_archive_path`,
    `validate_archive_listing`) and the parser of `manifest.txt`, whose file
    list is kept as a set of paths in path order.
  - `checksum`: SHA-256 (through `sha2`), hex rendering and the comparison
    with an expected checksum.
  - `libs`: which libraries a `lib-list.txt` asks the system for.
  - `remote`: release tags, artifact URLs, the channel read from the tags
    page (through `scraper`) and the choice of the artifact to install.
  - `toolchain`: what an unpacked toolchain must hold, listing and removal
    rules, the settings file.
  - `self_update`: locations of the installer archive, the search for the
    new binary, the clock reading for scratch directories.
- `app/` is the command itself: argument parsing, downloads, the file
  system and `tar`, all calling into the library for the decisions.
- `tests/` runs the library on concrete values.
