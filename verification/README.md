# image_filter

The core of a photo culling and import tool, verified with Verus: file-name
templates and their sanitizing, safe destinations and alternative names,
embedded-preview extraction from RAW files, EXIF interpretation, blur and
exposure statistics, burst/duplicate grouping, cache names, orientation
correction, directory listing and counting, drive listing and the eject
sequence.

Layout:

- `src/` — the verified library, one module per concern (`text`, `jpeg`,
  `analyzer`, `exif`, `scanner`, `digest`, `importer`, `images`, `drives`,
  `db`). Calls into outside crates (md-5, image, rawler, zune-jpeg,
  kamadak-exif) and into
  std where vstd gives no specification go through small trusted wrappers
  whose doc comments say what is assumed of them.
- `tests/` — tests of the library on concrete values.
- `app/` — the desktop side: file system, SQLite, codecs, device access and
  threads; the decisions it acts on are the library's.
