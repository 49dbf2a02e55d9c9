use qautomata::amplitude::Amplitude;
use qautomata::config::Configuration;
use qautomata::coords::Coordinates;
use qautomata::rules::get_default_rules;
use qautomata::universe::Universe;

fn amp(re: f64, im: f64) -> Amplitude {
    Amplitude::from_complex(num::complex::Complex::new(re, im))
}

fn config(re: f64, im: f64, cells: Vec<(i32, i32)>) -> Configuration {
    Configuration {
        amplitude: amp(re, im),
        living_cells: cells
            .into_iter()
            .map(|(x, y)| (Coordinates { x, y }, false))
            .collect(),
    }
}

fn total_norm(u: &Universe) -> f64 {
    u.state
        .iter()
        .map(|c| c.amplitude.as_complex().norm_sqr())
        .sum()
}

#[test]
fn vacuum_stability() {
    let mut u = Universe::new().unwrap();
    for _ in 0..10 {
        u.step();
    }
    assert_eq!(u.state.len(), 1);
    assert_eq!(u.state[0].living_cells.len(), 0);
    let a = u.state[0].amplitude.as_complex();
    assert!((a.re - 1.0).abs() < 1e-12);
    assert!(a.im.abs() < 1e-12);
    assert_eq!(u.combined_state.len(), 0);
    assert_eq!(u.step_count, 10);
    assert!(u.is_even_step);
}

#[test]
fn single_cell_even_start() {
    let mut u = Universe::new().unwrap();
    u.state[0]
        .living_cells
        .push((Coordinates { x: 0, y: 0 }, false));
    u.compute_combined_state();
    u.step();
    // Row 1 of the default table maps pattern 0b0001 to pattern 0b0100
    // with weight 1: the single successor holds the cell (0, 1).
    assert_eq!(u.state.len(), 1);
    assert_eq!(u.state[0].living_cells.len(), 1);
    assert_eq!(u.state[0].living_cells[0].0, Coordinates { x: 0, y: 1 });
    assert!((total_norm(&u) - 1.0).abs() < 1e-12);
}

#[test]
fn interference_cancellation() {
    let rules = get_default_rules().unwrap();
    let state = vec![
        config(0.5, 0.0, vec![(0, 0)]),
        config(-0.5, 0.0, vec![(0, 0)]),
    ];
    let mut u = Universe::new_from_state(state, rules).unwrap();
    u.solve_interference();
    assert_eq!(u.state.len(), 0);
    assert_eq!(u.combined_state.len(), 0);
}

#[test]
fn interference_reinforcement() {
    let rules = get_default_rules().unwrap();
    let state = vec![
        config(0.4, 0.0, vec![(2, 3)]),
        config(0.4, 0.0, vec![(2, 3)]),
    ];
    let mut u = Universe::new_from_state(state, rules).unwrap();
    u.solve_interference();
    assert_eq!(u.state.len(), 1);
    let a = u.state[0].amplitude.as_complex();
    assert!((a.re - 0.8).abs() < 1e-12);
    assert!(a.im.abs() < 1e-12);
    assert_eq!(u.combined_state.len(), 1);
    assert_eq!(u.combined_state[0].0, Coordinates { x: 2, y: 3 });
    let m = u.combined_state[0].1.as_complex().re;
    assert!((m - 0.64).abs() < 1e-9);
}

fn measurement_universe() -> Universe {
    let rules = get_default_rules().unwrap();
    let state = vec![
        config(0.6, 0.0, vec![(0, 0)]),
        config(0.8, 0.0, vec![(5, 5)]),
    ];
    Universe::new_from_state(state, rules).unwrap()
}

#[test]
fn measurement_collapse_low_sample() {
    let mut u = measurement_universe();
    u.measure_with_sample(0);
    assert_eq!(u.state.len(), 1);
    assert_eq!(u.state[0].living_cells[0].0, Coordinates { x: 0, y: 0 });
    assert_eq!(u.state[0].amplitude.re_bits(), 0x3FF0_0000_0000_0000);
    assert_eq!(u.state[0].amplitude.im_bits(), 0);
}

#[test]
fn measurement_collapse_high_sample() {
    let mut u = measurement_universe();
    u.measure_with_sample(u32::MAX);
    assert_eq!(u.state.len(), 1);
    assert_eq!(u.state[0].living_cells[0].0, Coordinates { x: 5, y: 5 });
    let a = u.state[0].amplitude.as_complex();
    assert_eq!(a.re, 1.0);
    assert_eq!(a.im, 0.0);
}

#[test]
fn measurement_frequencies() {
    // Deterministic samples from a linear congruential generator; the
    // frequency of the 0.36-branch must sit inside a generous binomial
    // confidence interval around 0.36.
    let mut seed: u64 = 42;
    let trials = 2000;
    let mut low = 0;
    for _ in 0..trials {
        seed = seed
            .wrapping_mul(6364136223846793005)
            .wrapping_add(1442695040888963407);
        let sample = (seed >> 32) as u32;
        let mut u = measurement_universe();
        u.measure_with_sample(sample);
        assert_eq!(u.state.len(), 1);
        if u.state[0].living_cells[0].0 == (Coordinates { x: 0, y: 0 }) {
            low += 1;
        }
    }
    let freq = low as f64 / trials as f64;
    assert!(freq > 0.31 && freq < 0.41, "frequency {freq}");
}

#[test]
fn measurement_random_collapses_to_unit() {
    let mut u = measurement_universe();
    u.measure();
    assert_eq!(u.state.len(), 1);
    assert_eq!(u.state[0].amplitude.re_bits(), 0x3FF0_0000_0000_0000);
    assert_eq!(u.state[0].amplitude.im_bits(), 0);
}

#[test]
fn balanced_split_creates_superposition() {
    // Cells (1,0) and (0,1) form pattern 6 of the block at (0,0); row 6
    // splits it into patterns 6 and 9 with weight 1/sqrt(2) each.
    let rules = get_default_rules().unwrap();
    let state = vec![config(1.0, 0.0, vec![(1, 0), (0, 1)])];
    let mut u = Universe::new_from_state(state, rules).unwrap();
    u.step();
    assert_eq!(u.state.len(), 2);
    assert!((total_norm(&u) - 1.0).abs() < 1e-12);
    for c in &u.state {
        assert!((c.amplitude.as_complex().re.abs() - 0.7071067811865475).abs() < 1e-12);
        assert_eq!(c.living_cells.len(), 2);
    }
}

#[test]
fn step_merges_equal_branches() {
    // Two configurations with the same live set evolve identically and
    // interfere into a single branch.
    let rules = get_default_rules().unwrap();
    let state = vec![
        config(0.5, 0.0, vec![(0, 0)]),
        config(0.5, 0.0, vec![(0, 0)]),
    ];
    let mut u = Universe::new_from_state(state, rules).unwrap();
    u.step();
    assert_eq!(u.state.len(), 1);
    let a = u.state[0].amplitude.as_complex();
    assert!((a.re - 1.0).abs() < 1e-12);
    assert_eq!(u.state[0].living_cells[0].0, Coordinates { x: 0, y: 1 });
}

#[test]
fn parity_alternation() {
    let mut u = Universe::new().unwrap();
    assert!(u.is_even_step);
    for n in 1..=5usize {
        u.step();
        assert_eq!(u.is_even_step, n % 2 == 0);
        assert_eq!(u.step_count, n);
    }
}

#[test]
fn engine_run_advances_and_alternates() {
    let mut u = Universe::new().unwrap();
    u.state[0]
        .living_cells
        .push((Coordinates { x: 0, y: 0 }, false));
    u.compute_combined_state();
    qautomata::engine::run(&mut u, 4);
    assert_eq!(u.step_count, 4);
    assert!(u.is_even_step);
}
