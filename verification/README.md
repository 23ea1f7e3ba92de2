# azookey

The logic of the azooKey Windows input method, verified with Verus:

- `src/dictionary.rs`: the user dictionary, its edits, its tab-separated
  file format and the proof that a saved dictionary reads back unchanged
  whenever its entries pass validation (no tab or line break in a field,
  reading and word not blank, reading not starting with `#`), which every
  registration, replacement and import enforces;
- `src/text.rs`: line and field splitting as `str::lines` and `str::split` do it;
- `src/logs.rs`: which log files are deleted so that only the newest remain;
- `src/window.rs`: placement of the candidate window and the mode indicator;
- `src/service.rs`: candidate deduplication, context trimming and the
  answer to AI-assisted conversion requests;
- `src/capability.rs`, `src/config.rs`: backend detection and settings.

`app/` holds the file, environment and engine calls around the library.
