//! Propagation of a laser beam through air, from a vacuum to the plasma that the
//! beam lights.
//!
//! A beam is a complex field on a square grid. A split-step propagator carries it
//! through a medium: a vacuum, haze, a turbulent path, or the air that the beam
//! itself heats. Where the beam is strong enough to break the gas down, a rate
//! equation says when, and a finite-volume gas in one or two dimensions carries the
//! detonation that runs back up the beam.
//!
//! The library holds the structure of the solver: which samples, cells and slabs
//! take part, in what order, and what is refused. It takes the arithmetic from its
//! caller, as an implementation of a trait such as [`optics::Optics`] or
//! [`euler1d::Scheme1d`]. Those traits promise nothing of their results. Every
//! contract therefore says, of each number that comes out, which of the caller's
//! operations gave it, and on what.
pub mod account;
pub mod airprops;
mod algebra;
pub mod aperture;
pub mod attenuation;
pub mod avalanche;
pub mod blooming;
pub mod breakdown0d;
pub mod breakdown_case;
pub mod breakdown_replay;
pub mod cases;
pub mod checks;
pub mod column_replay;
pub mod conservation;
pub mod crosswind;
pub mod euler1d;
pub mod euler2d;
pub mod exposure;
pub mod extremes;
pub mod fans;
pub mod field;
pub mod fits;
pub mod grid;
pub mod ignition_case;
pub mod ignition_replay;
pub mod ignition_sweep;
pub mod ionization;
pub mod isotropy;
pub mod locality;
pub mod lsd;
pub mod lsd2d;
pub mod lsd_case;
pub mod lsd_replay;
pub mod medium;
pub mod montecarlo;
pub mod optics;
pub mod planar;
pub mod plane;
pub mod plasmaprops;
pub mod propagate;
pub mod rates;
pub mod reach;
pub mod reconstruct;
pub mod record;
pub mod replay;
pub mod report;
pub mod riemann;
pub mod series;
pub mod settings;
pub mod shots;
pub mod slabs;
pub mod special;
pub mod spread;
pub mod sums;
pub mod table;
pub mod tilts;
pub mod transparency;
pub mod upwind;
pub mod validate;
pub mod viz;
pub mod walls;
pub mod wavefront;
pub mod wide_beam;
