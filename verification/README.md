# type3arabi

The logic of an Arabizi keyboard (`mar7aba` → مرحبا), written in Verus and proved against its
contracts: the Latin buffer and its normalization, the candidate list shown to the user, sacred-word
styling and critical diacritics, the tashkeel editor, the per-user learning model with its snapshot
and export formats, the learning journal, the model data file, the settings file, the key router,
hotkeys, and the corpus tools (corpus specifications, word types, counting and ranking).

Layout:

- `src/` — the verified library. Each module states its data as spec values (`Seq`, `Map`-like
  sorted tables, views) and gives each public function an exact `ensures`; properties that relate
  several calls (round trips, what a refused input gives, what stays unchanged) are public proof
  functions named `law_*`.
- `tests/` — executable tests of the library on concrete values.
- `app/` — the command-line companion: file and console I/O, JSON through serde, and the floating-point
  scores, around the library's functions.

Floating-point scoring (the search over candidate readings, language-model weights, dialect
posteriors) is not part of this crate, in the library or in `app/`: the library takes readings
already ranked and decides everything else.
