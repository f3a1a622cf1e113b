# gp2uv

Tools for re-texturing reshaped Grand Prix 2 cars: read a car's `.dat`
geometry and the SVGA per-face UV table inside `GP2.EXE`, compute a fresh
unwrap, write a 256x164 paletted BMP painting template, and patch the UV
table (and optionally the car geometry) in place.

## Layout

- `src/` — the library, verified with Verus:
  - `le.rs` little-endian views of byte sequences;
  - `jam.rs` the JAM stream cipher (an involution);
  - `dat.rs` the car `.dat` reader (header, scales, points, edges, texture
    commands, edge walks, the usual scale-section starts);
  - `uvtable.rs` the SVGA UV table: decode, encode, the patched table and
    the in-place block patch; `roundtrip.rs` proves that decoding an
    encoded table gives its faces back, and `inplace.rs` that a block
    patched in place changes only the listed vertex fields and reads back
    the table's vertices;
  - `model.rs` face models linking UV faces to `.dat` points, with recovery
    of collapsed faces from the edge walk;
  - `unwrap.rs` the integer side of an unwrap (clamped atlas coordinates,
    island texel boxes and their overlap, polygon areas) and island grouping
    with a union-find;
  - `weld.rs` the integer rules of the symmetric layout: UV-welded points
    and folding single-face islands into a neighbour;
  - `patch.rs` exe validation and the in-memory patch with its read-back
    self-test;
  - `bmp.rs` the wireframe template (Bresenham outlines, 3x5 digit labels,
    8bpp BMP encoding) and its decoding for the preview;
  - `stamp.rs` backup-name timestamps, with a proof that the date
    conversion gives the Gregorian calendar date.
- `app/` — the desktop program (egui): file I/O, the floating-point
  flattening, unfolding and packing, and the window.
- `tests/` — tests of the library on small hand-built inputs.
