# lapse

Makes the EXIF `DateTimeOriginal` of burst-shot JPEGs unique at second
granularity, in natural filename order: new time = max(original time,
previous file's new time + 1 second). `DateTimeDigitized` and `DateTime` are
set to the same value where present, by overwriting their 19-byte value areas
in place, so every other byte of the file stays as it was.

Layout:

- `src/` — the verified library (Verus):
  - `exif_patch.rs`: the JPEG segment walk, the TIFF/IFD reader that locates
    the date-time value areas, reading and in-place patching, with the
    lossless and read-after-write properties;
  - `exif_datetime.rs`: the date-time value type, calendar stepping,
    formatting and parsing (through `chrono`);
  - `jpeg_files.rs`: which file names are JPEGs and their natural order
    (through `natord`);
  - `lib.rs`: the time assignment and the per-file and whole-run rewriting,
    with the properties of the assignment (strictly increasing, never
    earlier than the original, idempotent, unreadable files skipped).
- `app/` — the command-line program: directory listing, file I/O, atomic
  writes, parallelism and printing.
- `tests/` — tests of the library on JPEGs built in memory.
