# beamprop

Propagation of a laser beam through air: diffraction, extinction, turbulence,
thermal blooming, optical breakdown, and the detonation wave that the beam
sustains in the gas it has lit.

- `src/` is the library. It holds the structure of the solver and is verified with
  Verus: split-step propagation, pupils and apertures, property tables, the
  kinetics of breakdown at a point, finite-volume gas dynamics on a line and on
  rings, the coupling of the beam to the gas, and the cases that put these
  together. It takes its arithmetic from implementations of traits such as
  `optics::Optics`, `breakdown0d::Kinetics` and `euler1d::Scheme1d`, and its
  contracts say which operation gave each number.
- `tests/` runs the library in double precision.
- `app/` is the command line and the Python module. It implements the traits in
  double precision and reads and writes files. The property tables are read from
  `data/air_properties.npy` and `data/plasma_properties.npy`.

Contracts that hold whatever the arithmetic stand on the functions themselves. What
needs a property of the arithmetic, such as that its sums add up or that an operation
is a function of its arguments, stands as a law: a public proof function, named
`law_...`, that asks for that property.
