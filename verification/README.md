# sph_cfd

Seam helpers for coupling a granular-SPH solver to a CFD solver, with the
integer and byte-level logic verified by Verus.

- `src/routing.rs`: the records exchanged between SPH and CFD ranks and their
  little-endian wire format (floating-point fields travel as `f64` bit
  patterns); routing parcels to CFD owners, decoding them, routing forces back,
  and gathering each parcel's force contributions in increasing id. Round-trip
  and route-then-decode laws are proved here.
- `src/seam.rs`: the phases of the standard coupled schedule and their order.
- `src/drag.rs`: `SeamMode`, which selects the interphase closure and fault
  injections.
- `app/`: the floating-point closures and reference formulas, the TOML
  configuration blocks, the `f64` views of the routed records (summing force
  contributions), and the GRASS `ScheduleSet` impl for the phases.
- `tests/`: tests of the library on concrete values.
