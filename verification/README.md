# zsx_formats

Readers and writers for the binary asset files of the game: sub-flag
definitions (`flagdefs.zfd`), character definitions (`.zsx`), the monster
catalog, and texture metadata (standalone `.zsx` textures and the
`master.zcm` bundle).

`src/` is the library, verified with Verus. Each reader is stated by a
spec-level parser over the input bytes (`Seq<u8>`), including exactly which
error each malformed input gives; each writer is stated by a spec-level
serializer. The laws that relate them are proof functions:

- `monster_laws::lemma_catalog_roundtrip`: a well-formed catalog, written and
  read back, is the same catalog;
- `monster_laws::lemma_catalog_reload`: a catalog read from any bytes can be
  written, and reading what was written gives the same catalog;
- `monster_laws::lemma_catalog_rewrite`: writing a catalog that was read
  gives no more bytes than were read, and exactly those bytes where every
  string had its shortest length prefix;
- `char_def_laws::lemma_char_def_ignores_discarded`: two files whose
  contents agree except in the path, the number after the texture name,
  keyframe durations, lerp bytes and script texts are both read, as the same
  character definition, or both refused;
- `char_def_laws::lemma_char_def_roundtrip`: a character definition written
  with any skipped values reads back as itself;
- `lemma_flag_defs_trailing_and_cut`, `lemma_char_def_trailing_and_cut`,
  `lemma_catalog_trailing_and_cut`, `lemma_texture_trailing_and_cut`: bytes
  after the last record are never read, and an input cut short before the
  end of what a successful parse read is refused;
- `monster_laws::lemma_catalog_shape`, `monster_laws::lemma_name_index`,
  `char_def::lemma_char_def_limits`, `xtexture::lemma_xtexture_cells`: what
  every value read from bytes satisfies.

Numbers stored as `f32` are kept as their bit patterns (`u32`). Little-endian
numbers are decoded and encoded by the `byteorder` crate.

`app/` holds what is not verified: reading files from disk, error messages,
conversions to `f32` and to `HashMap`.

Strings are stored as a 7-bit variable-length byte count (at most five bytes)
followed by that many bytes of UTF-8.
