# moc

Multi-Order Coverage maps (MOCs): sets of HEALPix cells (space), of time cells or of
frequency cells, stored as sorted, non-overlapping ranges of cell indices at the deepest
resolution, and 2D MOCs (space-time or space-frequency) pairing ranges of two quantities.

The library in `src/` is written in Verus: each public function states in its contract what it
computes, over mathematical models (the values a MOC covers, `has(x)`; the pairs a 2D MOC covers,
`has2(t, s)`), and Verus proves the code against it.

## Layout

- `qty.rs`: the quantities (`Hpx`, `Time`, `Frequency`), depths, shifts, `uniq` and `zuniq`
  notations, frequency hash values.
- `ranges.rs`: sorted non-overlapping ranges and the boolean operations on them.
- `moc.rs`, `cells.rs`, `hpx.rs`: range MOCs, their cells, degradation, complement, borders
  (expanded / contracted MOCs), HEALPix neighbourhood.
- `split.rs`, `holes.rs`, `edges.rs`: splitting a MOC into joint parts, filling holes, drawing
  cell edges.
- `builder.rs`, `builder2d.rs`, `ranges_cells.rs`: building MOCs and 2D MOCs from cells or
  ranges given in any order (the last one with a sweep line).
- `moc2d.rs`: 2D MOCs, their boolean operations and projections; `canon2d.rs`: the canonical
  form of 2D MOCs (consecutive elements carry different second MOCs) is unique, so that the
  union is commutative element by element.
- `multi_op.rs`, `overlap.rs`: operations on many MOCs; ranges of a MOC overlapping another.
- `store.rs`, `creation.rs`: a store of MOCs addressed by index, and the operations on it.
- `fits.rs`: MOC FITS files: the header (mandatory cards, MOC keywords, kind of MOC), the data
  words (ranges, NUNIQ cells depth by depth, ST-MOC elements), read and written; a written file
  reads back as the header and words written (and, for an ST-MOC, as its elements).
- `st_data.rs`: the data part of the FITS serialization of space-time MOCs.
- `laws.rs`: properties relating several operations (complement is an involution, De Morgan,
  degradation is a superset, round trips of notations, the store operations...).

`app/` holds what takes floating-point values (coordinates, Julian days, frequencies in Hz), calls
the HEALPix geometry of `cdshealpix`, reads or writes bytes, or shares a global store; it converts
its inputs into the integer values that the library works on.
