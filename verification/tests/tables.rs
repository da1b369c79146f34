use beamprop::airprops::{AirScale, AirTable};
use beamprop::plasmaprops::{PlasmaProperties, PlasmaScale, PlasmaTable};
use beamprop::table::{TableError, Tabulation};

const SECOND_IONIZATION_K: f64 = 20_000.0;

/// The axes of the plasma table.
#[derive(Debug, Clone, Copy, PartialEq)]
struct PlasmaAxes;

impl PlasmaAxes {
    const T_MIN: f64 = 200.0;
    const T_STEP: f64 = 50.0;
    const P_LOG10_MIN: f64 = 4.0;
    const P_PER_DECADE: f64 = 8.0;
}

impl Tabulation for PlasmaAxes {
    type Real = f64;

    fn t_position(&self, t: f64) -> f64 {
        (t - Self::T_MIN) / Self::T_STEP
    }

    fn p_position(&self, p: f64) -> f64 {
        (p.log10() - Self::P_LOG10_MIN) * Self::P_PER_DECADE
    }

    fn is_on_axis(&self, x: f64, last: usize) -> bool {
        (0.0..=last as f64).contains(&x)
    }

    fn node(&self, x: f64) -> usize {
        x.floor() as usize
    }

    fn past(&self, x: f64, node: usize) -> f64 {
        x - node as f64
    }

    fn blend(&self, c: (f64, f64, f64, f64), ft: f64, fp: f64) -> f64 {
        c.0 * (1.0 - ft) * (1.0 - fp) + c.1 * ft * (1.0 - fp) + c.2 * (1.0 - ft) * fp + c.3 * ft * fp
    }
}

impl PlasmaScale for PlasmaAxes {
    fn second_ionization(&self) -> f64 {
        SECOND_IONIZATION_K
    }

    fn is_finite(&self, x: f64) -> bool {
        x.is_finite()
    }

    fn is_positive(&self, x: f64) -> bool {
        !(x <= 0.0)
    }

    fn exponential(&self, x: f64) -> f64 {
        x.exp()
    }

    fn ratio(&self, a: f64, b: f64) -> f64 {
        a / b
    }

    fn charge(&self) -> f64 {
        1.0
    }

    fn coldest(&self) -> f64 {
        Self::T_MIN
    }

    fn hottest(&self) -> f64 {
        Self::T_MIN + (beamprop::plasmaprops::N_T - 1) as f64 * Self::T_STEP
    }

    fn is_between(&self, x: f64, lo: f64, hi: f64) -> bool {
        (lo..=hi).contains(&x)
    }

    fn exceeds(&self, a: f64, b: f64) -> bool {
        a > b
    }

    fn midpoint(&self, lo: f64, hi: f64) -> f64 {
        0.5 * (lo + hi)
    }
}

/// Refractivity of air at a wavelength in micrometres, in hundred-millionths.
fn ciddor_group(lambda_um: f64) -> f64 {
    let sigma2 = (1.0 / lambda_um).powi(2);
    5_792_105.0 / (238.0185 - sigma2) + 167_917.0 / (57.362 - sigma2)
}

/// Refractivity at a wavelength relative to one micrometre.
fn dispersion_ratio(wavelength: f64) -> f64 {
    ciddor_group(wavelength * 1e6) / ciddor_group(1.0)
}

/// The axes of the air table.
#[derive(Debug, Clone, Copy, PartialEq)]
struct AirAxes;

impl AirAxes {
    const T_MIN: f64 = 200.0;
    const T_STEP: f64 = 2.0;
    const P_MIN: f64 = 40_000.0;
    const P_STEP: f64 = 2_500.0;
}

impl Tabulation for AirAxes {
    type Real = f64;

    fn t_position(&self, t: f64) -> f64 {
        (t - Self::T_MIN) / Self::T_STEP
    }

    fn p_position(&self, p: f64) -> f64 {
        (p - Self::P_MIN) / Self::P_STEP
    }

    fn is_on_axis(&self, x: f64, last: usize) -> bool {
        (0.0..=last as f64).contains(&x)
    }

    fn node(&self, x: f64) -> usize {
        x.floor() as usize
    }

    fn past(&self, x: f64, node: usize) -> f64 {
        x - node as f64
    }

    fn blend(&self, c: (f64, f64, f64, f64), ft: f64, fp: f64) -> f64 {
        c.0 * (1.0 - ft) * (1.0 - fp) + c.1 * ft * (1.0 - fp) + c.2 * (1.0 - ft) * fp + c.3 * ft * fp
    }
}

impl AirScale for AirAxes {
    fn dispersion(&self, wavelength: f64) -> f64 {
        dispersion_ratio(wavelength)
    }

    fn times(&self, a: f64, b: f64) -> f64 {
        a * b
    }
}

const AIR_SHAPE: (usize, usize, usize) = (4, beamprop::airprops::N_T, beamprop::airprops::N_P);
const PLASMA_SHAPE: (usize, usize, usize) =
    (4, beamprop::plasmaprops::N_T, beamprop::plasmaprops::N_P);

/// Air as an ideal gas of a diatomic kind.
fn air() -> AirTable<f64> {
    let (n_p, n_t, n_q) = AIR_SHAPE;
    let mut data = Vec::with_capacity(n_p * n_t * n_q);
    for prop in 0..n_p {
        for i in 0..n_t {
            let t = AirAxes::T_MIN + i as f64 * AirAxes::T_STEP;
            for j in 0..n_q {
                let p = AirAxes::P_MIN + j as f64 * AirAxes::P_STEP;
                data.push(match prop {
                    0 => p / (287.0 * t),
                    1 => 1004.5,
                    2 => 2.6e-2 * (t / 300.0),
                    _ => 2.7e-4 * (p / 101_325.0) * (288.15 / t),
                });
            }
        }
    }
    AirTable::load(AIR_SHAPE, data).ok().unwrap()
}

/// The same up to a plasma, some of it ionized at the top.
fn plasma() -> PlasmaTable<f64> {
    let (n_p, n_t, n_q) = PLASMA_SHAPE;
    let mut data = Vec::with_capacity(n_p * n_t * n_q);
    for prop in 0..n_p {
        for i in 0..n_t {
            let t = PlasmaAxes::T_MIN + i as f64 * PlasmaAxes::T_STEP;
            for j in 0..n_q {
                let p = 10f64.powf(PlasmaAxes::P_LOG10_MIN + j as f64 / PlasmaAxes::P_PER_DECADE);
                data.push(match prop {
                    0 => (p / (287.0 * t)).ln(),
                    1 => 717.5 * t,
                    2 => 1.4,
                    _ => (p / (1.38e-23 * t)).ln() - 5e4 / t,
                });
            }
        }
    }
    PlasmaTable::load(PLASMA_SHAPE, data).ok().unwrap()
}

#[test]
fn airprops_loads_with_expected_shape() {
    assert_eq!(AIR_SHAPE, (4, 101, 29));
    assert!(air().at(&AirAxes, 400.0, 110_000.0, 1e-6).is_ok());
    assert!(air().at(&AirAxes, 400.1, 110_000.0, 1e-6).is_err());
    assert!(air().at(&AirAxes, 400.0, 110_001.0, 1e-6).is_err());
}

#[test]
fn plasmaprops_loads_with_expected_shape() {
    assert_eq!(PLASMA_SHAPE, (4, 597, 33));
    let t_max = PlasmaAxes::T_MIN + (PLASMA_SHAPE.1 - 1) as f64 * PlasmaAxes::T_STEP;
    let decades = (PLASMA_SHAPE.2 - 1) as f64 / PlasmaAxes::P_PER_DECADE;
    let p_max = 10f64.powf(PlasmaAxes::P_LOG10_MIN + decades);
    assert!((t_max - 30_000.0).abs() < 1e-9);
    assert!((p_max - 1e8).abs() / 1e8 < 1e-12);
    assert!(plasma().at(&PlasmaAxes, t_max, p_max).is_ok());
    assert!(plasma().at(&PlasmaAxes, t_max + 1.0, p_max).is_err());
}

#[test]
fn a_table_of_another_shape_is_refused() {
    assert_eq!(
        AirTable::load((4, 2, 2), vec![0.0; 16]).err(),
        Some(TableError::Shape { properties: 4, temperatures: 2, pressures: 2 })
    );
    assert_eq!(
        PlasmaTable::load((3, 1, 2), vec![0.0; 6]).err(),
        Some(TableError::Shape { properties: 3, temperatures: 1, pressures: 2 })
    );
    let n = AIR_SHAPE.0 * AIR_SHAPE.1 * AIR_SHAPE.2;
    assert!(AirTable::load(AIR_SHAPE, vec![0.0; n]).is_ok());
}

#[test]
fn a_node_gives_back_what_was_stored_there() {
    let a = air().at(&AirAxes, 300.0, 100_000.0, 1e-6).unwrap();
    assert_eq!(a.rho, 100_000.0 / (287.0 * 300.0));
    assert_eq!(a.cp, 1004.5);
    assert_eq!(a.kappa_t, 2.6e-2);
    // The last node of both axes belongs to the last cell.
    let (t, p) = (400.0, 110_000.0);
    let last = air().at(&AirAxes, t, p, 1e-6).unwrap();
    assert_eq!(last.rho, p / (287.0 * t));
}

#[test]
fn interpolated_density_near_ideal_gas() {
    let (t, p) = (301.0, 101_250.0);
    let a = air().at(&AirAxes, t, p, 1e-6).unwrap();
    let mw = 0.7811 * 28.014e-3 + 0.2096 * 31.998e-3 + 0.0093 * 39.948e-3;
    let rho_ideal = p * mw / (8.31446261815324 * t);
    assert!(
        (a.rho - rho_ideal).abs() / rho_ideal < 1e-3,
        "rho {} vs ideal {rho_ideal}",
        a.rho
    );
    // Half way between two nodes of one axis is the mean of the two.
    let (lo, hi) = (
        air().at(&AirAxes, 300.0, 100_000.0, 1e-6).unwrap().rho,
        air().at(&AirAxes, 302.0, 100_000.0, 1e-6).unwrap().rho,
    );
    let mid = air().at(&AirAxes, 301.0, 100_000.0, 1e-6).unwrap().rho;
    assert!((mid - 0.5 * (lo + hi)).abs() < 1e-15);
}

#[test]
fn refractivity_rescales_with_wavelength() {
    let table = air();
    let n1_1um = table.at(&AirAxes, 300.0, 100_000.0, 1e-6).unwrap().n_minus_1;
    let n1_633 = table.at(&AirAxes, 300.0, 100_000.0, 633e-9).unwrap().n_minus_1;
    assert!(n1_633 > n1_1um, "{n1_633} !> {n1_1um}");
    assert!((AirAxes.dispersion(1e-6) - 1.0).abs() < 1e-12);
    assert_eq!(n1_633, n1_1um * dispersion_ratio(633e-9));
}

#[test]
fn out_of_range_errors() {
    let table = air();
    assert_eq!(
        table.at(&AirAxes, 150.0, 100_000.0, 1e-6),
        Err(TableError::TemperatureOutside)
    );
    assert_eq!(
        table.at(&AirAxes, 300.0, 200_000.0, 1e-6),
        Err(TableError::PressureOutside)
    );
    assert_eq!(
        table.at(&AirAxes, f64::NAN, 100_000.0, 1e-6),
        Err(TableError::TemperatureOutside)
    );
}

#[test]
fn quasineutrality_and_charge_state_are_explicit() {
    let a = plasma().at(&PlasmaAxes, 15_000.0, 101_325.0).unwrap();
    assert_eq!(a.n_i(&PlasmaAxes), a.n_e);
    assert_eq!(a.z_bar(&PlasmaAxes), 1.0);
}

#[test]
fn second_ionization_limit_is_flagged() {
    assert!(!PlasmaTable::is_singly_ionized_approximation(&PlasmaAxes, 15_000.0));
    assert!(PlasmaTable::is_singly_ionized_approximation(&PlasmaAxes, 25_000.0));
}

#[test]
fn out_of_range_queries_error() {
    let table = plasma();
    let at = |t: f64, p: f64| table.at(&PlasmaAxes, t, p).err();
    assert_eq!(at(100.0, 101_325.0), Some(TableError::TemperatureOutside), "below T range");
    assert_eq!(at(40_000.0, 101_325.0), Some(TableError::TemperatureOutside), "above T range");
    assert_eq!(at(5_000.0, 1e3), Some(TableError::PressureOutside), "below p range");
    assert_eq!(at(5_000.0, 1e9), Some(TableError::PressureOutside), "above p range");
    assert_eq!(at(5_000.0, -1.0), Some(TableError::NotPositive), "negative pressure");
    assert_eq!(at(f64::NAN, 101_325.0), Some(TableError::NotFinite), "NaN temperature");
    assert_eq!(at(5_000.0, f64::INFINITY), Some(TableError::NotFinite));
    assert_eq!(at(5_000.0, 101_325.0), None);
}

#[test]
fn interpolation_is_continuous_across_a_cell_boundary() {
    let table = plasma();
    let t_node = PlasmaAxes::T_MIN + 100.0 * PlasmaAxes::T_STEP;
    let eps = 1e-6;
    let below = table.at(&PlasmaAxes, t_node - eps, 101_325.0).unwrap();
    let above = table.at(&PlasmaAxes, t_node + eps, 101_325.0).unwrap();
    assert!((below.rho / above.rho - 1.0).abs() < 1e-6);
    assert!((below.gamma_eff / above.gamma_eff - 1.0).abs() < 1e-6);
    assert!((below.n_e / above.n_e - 1.0).abs() < 1e-5);
}

#[test]
fn ionization_rises_monotonically_through_the_onset() {
    let table = plasma();
    let mut prev = 0.0;
    for step in 0..40 {
        let t = 5_000.0 + step as f64 * 250.0;
        let n_e = table.at(&PlasmaAxes, t, 101_325.0).unwrap().n_e;
        assert!(n_e > prev, "n_e fell from {prev:.4e} to {n_e:.4e} at T = {t} K");
        prev = n_e;
    }
    // By 15,000 K at one atmosphere the gas is substantially ionized.
    assert!(prev > 1e22, "n_e only reached {prev:.4e} by 15,000 K");
}

#[test]
fn logarithms_are_undone_on_reading() {
    // 1e5 Pa is a node of the pressure axis.
    let a: PlasmaProperties<f64> = plasma().at(&PlasmaAxes, 300.0, 1e5).unwrap();
    assert!((a.rho / (1e5 / (287.0 * 300.0)) - 1.0).abs() < 1e-12);
    assert!((a.e / (717.5 * 300.0) - 1.0).abs() < 1e-12);
    assert!((a.gamma_eff - 1.4).abs() < 1e-12);
    assert!(a.n_e < 1.0);
}

#[test]
fn inverting_the_table_gives_the_temperature_back() {
    for (t, p) in [(200.0, 1e5), (300.0, 1e5), (18_000.0, 1e7), (18_123.0, 2.3e6), (30_000.0, 1e8)] {
        let a = plasma().at(&PlasmaAxes, t, p).unwrap();
        let found = plasma().temperature(&PlasmaAxes, a.rho, p).unwrap();
        assert!((found - t).abs() < 1e-6, "T = {found} for {t}");
    }
}

#[test]
fn a_density_outside_the_table_is_refused() {
    let (cold, hot) = (1e5 / (287.0 * 200.0), 1e5 / (287.0 * 30_000.0));
    let find = |rho, p| plasma().temperature(&PlasmaAxes, rho, p);
    assert_eq!(find(1.001 * cold, 1e5), Err(TableError::DensityOutside));
    assert_eq!(find(0.999 * hot, 1e5), Err(TableError::DensityOutside));
    assert_eq!(find(f64::NAN, 1e5), Err(TableError::DensityOutside));
    assert_eq!(find(1.0, 1e9), Err(TableError::PressureOutside));
    assert_eq!(find(1.0, -1.0), Err(TableError::NotPositive));
    assert_eq!(find(1.0, f64::NAN), Err(TableError::NotFinite));
    assert!(find(0.999 * cold, 1e5).is_ok());
}

#[test]
fn what_is_looked_up_lies_between_its_corners() {
    let table = plasma();
    let node = |i: usize, j: usize| {
        let t = PlasmaAxes::T_MIN + i as f64 * PlasmaAxes::T_STEP;
        let p = 10f64.powf(PlasmaAxes::P_LOG10_MIN + j as f64 / PlasmaAxes::P_PER_DECADE);
        (t, p)
    };
    for (i, j) in [(0, 0), (40, 3), (200, 10)] {
        let ((t0, p0), (t1, p1)) = (node(i, j), node(i + 1, j + 1));
        let corners: Vec<_> = [(t0, p0), (t1, p0), (t0, p1), (t1, p1)]
            .iter()
            .map(|&(t, p)| table.at(&PlasmaAxes, t, p * (1.0 + 1e-12)).unwrap())
            .collect();
        for s in 1..8 {
            let f = s as f64 / 8.0;
            let (t, p) = (t0 + f * (t1 - t0), p0 * (p1 / p0).powf(1.0 - f));
            let a = table.at(&PlasmaAxes, t, p).unwrap();
            let (mut low, mut high) = (f64::INFINITY, f64::NEG_INFINITY);
            for c in &corners {
                low = low.min(c.rho);
                high = high.max(c.rho);
            }
            assert!(low <= a.rho && a.rho <= high, "density {} outside [{low}, {high}]", a.rho);
            assert!(corners[0].e <= a.e && a.e <= corners[1].e);
            assert!((a.gamma_eff - 1.4).abs() < 1e-12);
            assert!(corners.iter().any(|c| c.n_e <= a.n_e));
            assert!(corners.iter().any(|c| a.n_e <= c.n_e));
        }
    }
}
