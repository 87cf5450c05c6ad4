# engine

Repairs Helldivers II unit and audio mods after a game update: each mod
`.patch_N` group (the main file with its optional `.stream` and
`.gpu_resources` sidecars) is brought back in line with the game's current
resources, in place.

The crate is in two parts.

- `src/` is the library, written in Verus. Every function in it carries a
  contract that Verus proves: the patch and sidecar rules (`patch_group`),
  the unit rewrite (`patch`), mixed unit/audio archives (`mixed`), the slim
  install format (`slim`), the game-data indexes (`resources`,
  `audio_index`), and the Wwise side of an archive (`wwise`: TOC headers,
  sound banks and their hierarchy objects, text banks, archive reading and
  writing, and the pool an audio patch is merged in). Calls into `lz4_flex`,
  `std::str::from_utf8` and `String::from_utf8_lossy` stand behind small
  trusted wrappers whose contracts say what their documentation promises.
- `app/` is the program around it: command-line handling, settings, reading
  and writing files, walking folders, and running patch groups one at a time
  with staging and rollback.

Importing an audio patch swaps the patch's changed stream audio into the
pooled streams (marking them modified), then takes in its strings, videos
and new banks. Some steps are left out of it. The patch's HIRC hierarchy
fields are not merged into the pooled banks: hierarchy entries are kept as
opaque records, and the per-type field merges of sounds, music tracks,
music segments and random/sequence containers exist and are verified on
their own but are not applied. For the same reason no bank is marked
modified because one of its sounds uses swapped audio, and audio embedded
in a bank's media section is not swapped.

`tests/` exercises the library on concrete archives, banks and groups.
