//! What a wave reports of itself.
//!
//! The cells of a report are placed evenly along the column. The optical depth beside an
//! absorption is that of the whole column, so the depths at two wavelengths are as the
//! absorptions are, and at one wavelength both are the same.
use crate::algebra::{lemma_associates, lemma_commutes};
use crate::column_replay::is_repeatable_column;
use crate::euler1d::{energies, is_integral, Primitive};
use crate::lsd::{Beam1d, Column1d, LsdColumn};
use crate::lsd_case::{
    is_closure_reported, is_wave, is_wave_of, is_wave_run, is_wave_start, LsdCase, LsdParams, Wave,
    WaveStart,
};
use crate::lsd_replay::{lemma_closure_is_reported_as_one, runs_waves_alike};
use vstd::prelude::*;

verus! {

/// The column that a wave reports on.
proof fn lemma_reported_wave<K: LsdCase>(
    k: K,
    p: LsdParams<K::Real>,
    rho_0: K::Real,
    speed: K::Real,
    wave: Wave<K::Real>,
) -> (r: (WaveStart<K>, Column1d<K::Hydro>))
    requires
        is_wave(k, p, rho_0, speed, Ok(wave)),
    ensures
        is_wave_start(k, p, rho_0, speed, r.0),
        is_wave_of(k, p, r.0.ambient, r.1, wave),
{
    let s = choose|s: WaveStart<K>| #[trigger]
        is_wave_start(k, p, rho_0, speed, s) && exists|
            column: LsdColumn<K::Hydro>,
            post: Column1d<K::Hydro>,
        | #[trigger]
            is_wave_run(k, p, s, column, post, Ok(wave));
    let (column, post) = choose|column: LsdColumn<K::Hydro>, post: Column1d<K::Hydro>| #[trigger]
        is_wave_run(k, p, s, column, post, Ok(wave));
    (s, post)
}

/// The cells of a wave are placed evenly: cell `i` of a column is `i` and a half cells from
/// its start.
pub proof fn law_cells_are_placed_evenly<K: LsdCase>(
    k: K,
    p: LsdParams<K::Real>,
    rho_0: K::Real,
    speed: K::Real,
    wave: Wave<K::Real>,
    worth: spec_fn(K::Real) -> real,
    i: int,
)
    requires
        is_wave(k, p, rho_0, speed, Ok(wave)),
        forall|l: usize, length: K::Real, cells: usize, x: K::Real| #[trigger]
            call_ensures(K::cell_centre, (&k, l, length, cells), x) ==> worth(x) * (2 * cells) as real
                == (2 * l + 1) as real * worth(length),
        0 <= i < p.cells,
    ensures
        wave.x@.len() == p.cells,
        worth(wave.x@[i]) * (2 * p.cells) as real == (2 * i + 1) as real * worth(p.length),
{
    let (s, c) = lemma_reported_wave(k, p, rho_0, speed, wave);
    assert(call_ensures(K::cell_centre, (&k, i as usize, p.length, p.cells), wave.x@[i]));
}

/// The optical depth of a wave is its absorption times the length of the column, at either
/// wavelength, so the depths are as the absorptions.
pub proof fn law_depths_are_as_the_absorptions<K: LsdCase>(
    k: K,
    p: LsdParams<K::Real>,
    rho_0: K::Real,
    speed: K::Real,
    wave: Wave<K::Real>,
    worth: spec_fn(K::Real) -> real,
)
    requires
        is_wave(k, p, rho_0, speed, Ok(wave)),
        forall|a: K::Real, b: K::Real, c: K::Real| #[trigger]
            call_ensures(K::times, (&k, a, b), c) ==> worth(c) == worth(a) * worth(b),
    ensures
        wave.ib_alpha is Some <==> wave.ib_optical_depth is Some,
        wave.ib_alpha_co2 is Some <==> wave.ib_optical_depth_co2 is Some,
        wave.ib_alpha is Some ==> worth(wave.ib_optical_depth->0) == worth(wave.ib_alpha->0) * worth(
            p.length,
        ),
        wave.ib_alpha_co2 is Some ==> worth(wave.ib_optical_depth_co2->0) == worth(
            wave.ib_alpha_co2->0,
        ) * worth(p.length),
        wave.ib_alpha is Some && wave.ib_alpha_co2 is Some ==> worth(wave.ib_optical_depth->0) * worth(
            wave.ib_alpha_co2->0,
        ) == worth(wave.ib_optical_depth_co2->0) * worth(wave.ib_alpha->0),
{
    let (s, c) = lemma_reported_wave(k, p, rho_0, speed, wave);
    if wave.ib_alpha is Some && wave.ib_alpha_co2 is Some {
        let (a, b, l) = (
            worth(wave.ib_alpha->0),
            worth(wave.ib_alpha_co2->0),
            worth(p.length),
        );
        lemma_commutes(a, l);
        lemma_commutes(b, l);
        lemma_associates(l, a, b);
        lemma_associates(l, b, a);
        lemma_commutes(a, b);
    }
}

/// At the wavelength of the comparison the two reports are the same.
pub proof fn law_reports_at_one_wavelength_agree<K: LsdCase>(
    k: K,
    p: LsdParams<K::Real>,
    rho_0: K::Real,
    speed: K::Real,
    wave: Wave<K::Real>,
)
    requires
        is_wave(k, p, rho_0, speed, Ok(wave)),
        runs_waves_alike(k),
        forall|c: Column1d<K::Hydro>, a: Primitive<K::Real>| #[trigger]
            is_wave_of(k, p, a, c, wave) ==> is_repeatable_column(c.hydro.scheme),
        forall|w: K::Real| #[trigger] call_ensures(K::co2_wavelength, (&k,), w) ==> w == p.wavelength,
    ensures
        wave.ib_alpha == wave.ib_alpha_co2,
{
    let (s, c) = lemma_reported_wave(k, p, rho_0, speed, wave);
    let co2 = choose|co2: K::Real| #[trigger]
        call_ensures(K::co2_wavelength, (&k,), co2) && is_closure_reported(
            k,
            c,
            s.ambient,
            co2,
            wave.ib_alpha_co2,
        );
    lemma_closure_is_reported_as_one(
        k,
        c,
        s.ambient,
        p.wavelength,
        wave.ib_alpha,
        wave.ib_alpha_co2,
    );
}

/// The energy residual of a wave is what its budget lacks, of what was deposited: the
/// energy that the column holds in the end, less what it held at first and what the beam
/// gave.
pub proof fn law_residual_is_what_the_budget_lacks<K: LsdCase>(
    k: K,
    p: LsdParams<K::Real>,
    rho_0: K::Real,
    speed: K::Real,
    wave: Wave<K::Real>,
    worth: spec_fn(K::Real) -> real,
) -> (r: (Column1d<K::Hydro>, K::Real))
    requires
        is_wave(k, p, rho_0, speed, Ok(wave)),
        forall|h: K::Hydro, energy: K::Real, initial: K::Real, deposited: K::Real, gap: K::Real|
            #[trigger] call_ensures(
                <K::Hydro as Beam1d>::budget_gap,
                (&h, energy, initial, deposited),
                gap,
            ) ==> worth(gap) * worth(deposited) == worth(energy) - worth(initial) - worth(deposited)
                || worth(gap) * worth(deposited) == worth(deposited) + worth(initial) - worth(energy),
    ensures
        is_integral(r.0.hydro, energies(), r.1),
        wave.deposited_energy == r.0.deposited,
        worth(wave.energy_residual) * worth(wave.deposited_energy) == worth(r.1) - worth(
            r.0.initial_energy,
        ) - worth(wave.deposited_energy) || worth(wave.energy_residual) * worth(
            wave.deposited_energy,
        ) == worth(wave.deposited_energy) + worth(r.0.initial_energy) - worth(r.1),
{
    let (s, c) = lemma_reported_wave(k, p, rho_0, speed, wave);
    let energy = choose|energy: K::Real|
        {
            &&& #[trigger] is_integral(c.hydro, energies(), energy)
            &&& call_ensures(
                <K::Hydro as Beam1d>::budget_gap,
                (&c.hydro.scheme, energy, c.initial_energy, c.deposited),
                wave.energy_residual,
            )
        };
    (c, energy)
}

} // verus!
