use qautomata::amplitude::Amplitude;
use qautomata::config::Configuration;
use qautomata::coords::Coordinates;
use qautomata::rules::get_default_rules;
use qautomata::universe::{StateError, Universe};

fn camp(re: f64, im: f64) -> Amplitude {
    Amplitude::from_complex(num::complex::Complex::new(re, im))
}

fn cfg(re: f64, im: f64, cells: Vec<(i32, i32)>) -> Configuration {
    Configuration {
        amplitude: camp(re, im),
        living_cells: cells
            .into_iter()
            .map(|(x, y)| (Coordinates { x, y }, false))
            .collect(),
    }
}

fn index_value(u: &Universe, x: i32, y: i32) -> Option<f64> {
    u.combined_state
        .iter()
        .find(|e| e.0 == (Coordinates { x, y }))
        .map(|e| e.1.as_complex().re)
}

#[test]
fn combined_state_matches_marginals() {
    let rules = get_default_rules().unwrap();
    let state = vec![
        cfg(0.6, 0.0, vec![(0, 0), (1, 0)]),
        cfg(0.0, 0.8, vec![(1, 0), (2, 2)]),
    ];
    let u = Universe::new_from_state(state, rules).unwrap();
    // index[c] = sum of |a_k|^2 over configurations containing c
    assert!((index_value(&u, 0, 0).unwrap() - 0.36).abs() < 1e-9);
    assert!((index_value(&u, 1, 0).unwrap() - 1.0).abs() < 1e-9);
    assert!((index_value(&u, 2, 2).unwrap() - 0.64).abs() < 1e-9);
    assert_eq!(u.combined_state.len(), 3);
}

#[test]
fn combined_state_recompute_is_idempotent() {
    let rules = get_default_rules().unwrap();
    let state = vec![
        cfg(0.3, 0.4, vec![(0, 0), (7, -3)]),
        cfg(0.5, 0.0, vec![(7, -3)]),
    ];
    let mut u = Universe::new_from_state(state, rules).unwrap();
    u.compute_combined_state();
    let first: Vec<(Coordinates, u64, u64)> = u
        .combined_state
        .iter()
        .map(|e| (e.0, e.1.re_bits(), e.1.im_bits()))
        .collect();
    u.compute_combined_state();
    let second: Vec<(Coordinates, u64, u64)> = u
        .combined_state
        .iter()
        .map(|e| (e.0, e.1.re_bits(), e.1.im_bits()))
        .collect();
    assert_eq!(first, second);
}

#[test]
fn construction_preserves_state() {
    let rules = get_default_rules().unwrap();
    let state = vec![
        cfg(0.25, -0.5, vec![(3, 4), (-2, 1)]),
        cfg(0.1, 0.2, vec![]),
    ];
    let expected: Vec<(u64, u64, Vec<(Coordinates, bool)>)> = state
        .iter()
        .map(|c| {
            (
                c.amplitude.re_bits(),
                c.amplitude.im_bits(),
                c.living_cells.clone(),
            )
        })
        .collect();
    let u = Universe::new_from_state(state, rules).unwrap();
    let got: Vec<(u64, u64, Vec<(Coordinates, bool)>)> = u
        .state
        .iter()
        .map(|c| {
            (
                c.amplitude.re_bits(),
                c.amplitude.im_bits(),
                c.living_cells.clone(),
            )
        })
        .collect();
    assert_eq!(expected, got);
}

#[test]
fn construction_rejects_duplicate_cells() {
    let rules = get_default_rules().unwrap();
    let state = vec![cfg(1.0, 0.0, vec![(0, 0), (0, 0)])];
    let r = Universe::new_from_state(state, rules);
    assert!(matches!(r, Err(StateError::DuplicateCell)));
}

#[test]
fn small_amplitudes_are_pruned() {
    let rules = get_default_rules().unwrap();
    let state = vec![
        cfg(1e-4, 1e-4, vec![(0, 0)]),
        cfg(0.002, 0.0, vec![(1, 1)]),
    ];
    let mut u = Universe::new_from_state(state, rules).unwrap();
    u.solve_interference();
    assert_eq!(u.state.len(), 1);
    assert_eq!(u.state[0].living_cells[0].0, Coordinates { x: 1, y: 1 });
}

#[test]
fn negative_amplitude_survives_pruning() {
    let rules = get_default_rules().unwrap();
    let state = vec![cfg(-0.5, 0.0, vec![(0, 0)])];
    let mut u = Universe::new_from_state(state, rules).unwrap();
    u.solve_interference();
    assert_eq!(u.state.len(), 1);
}

#[test]
fn measure_on_empty_store_is_noop() {
    let rules = get_default_rules().unwrap();
    let mut u = Universe::new_from_state(vec![], rules).unwrap();
    u.measure();
    assert_eq!(u.state.len(), 0);
    assert_eq!(u.combined_state.len(), 0);
}

#[test]
fn reset_restores_fresh_state() {
    let mut u = Universe::new().unwrap();
    u.state[0]
        .living_cells
        .push((Coordinates { x: 2, y: 2 }, false));
    u.compute_combined_state();
    u.step();
    u.reset();
    assert_eq!(u.state.len(), 1);
    assert_eq!(u.state[0].living_cells.len(), 0);
    assert_eq!(u.state[0].amplitude.re_bits(), 0x3FF0_0000_0000_0000);
    assert_eq!(u.step_count, 0);
    assert!(u.is_even_step);
    assert_eq!(u.combined_state.len(), 0);
}

#[test]
fn norm_is_preserved_by_two_steps() {
    let mut u = Universe::new().unwrap();
    u.state[0]
        .living_cells
        .push((Coordinates { x: 0, y: 0 }, false));
    u.state[0]
        .living_cells
        .push((Coordinates { x: 1, y: 1 }, false));
    u.compute_combined_state();
    u.step();
    let norm1: f64 = u
        .state
        .iter()
        .map(|c| c.amplitude.as_complex().norm_sqr())
        .sum();
    assert!((norm1 - 1.0).abs() < 1e-6, "norm after one step {norm1}");
    u.step();
    let norm2: f64 = u
        .state
        .iter()
        .map(|c| c.amplitude.as_complex().norm_sqr())
        .sum();
    assert!((norm2 - 1.0).abs() < 1e-6, "norm after two steps {norm2}");
}

#[test]
fn no_two_survivors_share_a_live_set() {
    let rules = get_default_rules().unwrap();
    let state = vec![
        cfg(0.5, 0.0, vec![(0, 0)]),
        cfg(0.5, 0.0, vec![(0, 1)]),
        cfg(0.25, 0.0, vec![(0, 0)]),
        cfg(0.25, 0.0, vec![(0, 1)]),
    ];
    let mut u = Universe::new_from_state(state, rules).unwrap();
    u.solve_interference();
    assert_eq!(u.state.len(), 2);
    let mut sets: Vec<Vec<(i32, i32)>> = u
        .state
        .iter()
        .map(|c| {
            let mut v: Vec<(i32, i32)> = c.living_cells.iter().map(|p| (p.0.x, p.0.y)).collect();
            v.sort();
            v
        })
        .collect();
    sets.sort();
    sets.dedup();
    assert_eq!(sets.len(), 2);
    for c in &u.state {
        assert!((c.amplitude.as_complex().re - 0.75).abs() < 1e-12);
    }
}
