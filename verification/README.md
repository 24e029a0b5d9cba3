# Tetrachrome

Packs up to four grayscale texture maps (Metallic, Ambient Occlusion,
Roughness, Smoothness, Detail Mask…) into the RGBA channels of one texture,
by the conventions of Unity (URP, HDRP), Unreal and Godot.

- `src/` is the library, verified with Verus: presets and how maps are
  recognised by the suffixes of their names, output file names, sizes, the
  working session (presets, channels, library of loaded images, undo),
  which files to read and where their images go, the batch tab, and the
  steps of export.
- `app/` is the program around it (eframe/egui): the window, reading and
  writing files, the preset and settings files, background threads, and the
  pixel arithmetic, which is floating point.
- `tests/` runs the library on concrete values.
