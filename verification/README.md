# steam2fs

A read-only view over a dump of a Steam2 content server: blob and dat files,
served straight from the archive without extracting anything.

- `src/` is the library, in Verus. Every function there is verified against its
  contract; the few calls into outside crates (checksums, zlib, AES, SHA-256,
  hexadecimal digits, the LRU list) stand behind wrappers that say what is
  believed of them.
  - `format/` reads the on-disk formats: blobs, checksum tables, manifests,
    stored blocks.
  - `index`, `keys` and `calendar` take inventory of a dump.
  - `store` serves parsed blobs, version chains, file tables and decoded bytes,
    with `cache` and `recent` behind it. `store/setup` relates what it hands out
    to what the backend may answer, `store/kept` says what its caches hold, and
    `store/notes` what is worth a word about a dump that can be read all the
    same.
  - `tree` is the directory tree; `fs` and `winfs` are what the two frontends
    show of it.
  - `backend` says what a place to read from has to offer, and decides how an
    SFTP session is opened and read from.
  - `commands` is what the command line prints, and writes down of the keys that
    it finds.
- `app/` is the program: argument handling, the local and SFTP backends, the
  blob cache on disk, and the FUSE and WinFsp glue.
- `tests/` runs the library, most of it on a small dump that is built in memory.
