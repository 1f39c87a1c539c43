# gdsverify

Layout verification building blocks, written in Verus and proved against
their contracts:

- `io::read` — the GDSII stream format: record decoding and encoding, the
  element and structure parser (`read_gds_library`), the writer
  (`write_gds_library`), path stroking, hierarchy validation and the integer
  steps of AREF flattening. `reparse` proves that reading back what the
  writer produced gives the original library, for a library that the strict
  reader could itself have produced (`canon_library`: complete envelope,
  ASCII names, positive units, distinct structure names, valid rings, no
  unhandled records), and that writing such a library again after reading
  it gives the same bytes; re-serialising an arbitrary parsed library to its
  source bytes is not proved. `strict` proves what every library the
  strict reader accepts satisfies (complete envelope, positive units, named
  distinct structures, valid BOUNDARY rings, rectangular BOXes).
- `io::params` — layer tables, the resolved deck (`Deck`) and its
  device-recognition rules, and building a deck from its declaration
  (`deck_from_schema`): layer definitions (`check_layer_defs`),
  connectivity (`resolve_connectivity_schema`) and device rules
  (`resolve_mos_rules` and the bipolar, resistor, diode and capacitor
  counterparts), resolved by layer name.
- `lvs` — the steps of netlist extraction and comparison: exact
  rectilinear overlap areas and contacts, splitting channels at their gates
  (`channel`), connectivity nodes and which of them join (`connect`),
  union-find and net numbering (`union_find`, `nets`), MOS classification
  and recognition (`classify`, `transistors`), bipolar and passive devices
  (`recognize`), global-net merging, label conflicts and floating nets
  (`labels`), series/parallel reduction, derived layers, the cell hierarchy
  order, the GDS hierarchy adapter's checks, and the topology comparison of
  an extracted netlist with a reference. `extract` runs the whole
  extraction (`extract_netlist_opts`): exact-geometry checks, nodes, nets,
  transistors, global nets, passives and bipolar devices, label conflicts,
  reduction and floating nets, with a contract over one run of it.
- `graph` — depth-first ordering of an index graph with cycle witnesses.

`app/` holds what Verus does not check: file I/O, JSON layer maps, the
floating-point views of GDS REAL8 values, and the floating-point values of
passive devices (`extract_with_values`) and database-unit comparisons.
