//! Measurement: stochastic collapse of the superposition to a single
//! configuration, chosen with probability proportional to its squared
//! magnitude; the survivor's amplitude is renormalized to exactly 1+0i
//! and the combined-state index is recomputed. Parity and step counter
//! are unchanged; measuring an empty store does nothing.

use vstd::prelude::*;
use crate::amplitude::{Amplitude, AmpView, cadd, cmul, cnorm, lt_bits, ratio_bits, ONE_BITS};
use crate::config::{Configuration, ConfigView};
use crate::step::copy_cells;
use crate::universe::{Universe, state_views, index_views, marginals};

verus! {

/// The accumulated squared magnitudes of the first `k` configurations,
/// starting from bitwise zero.
pub open spec fn cumulative(state: Seq<ConfigView>, k: int) -> AmpView
    decreases k,
{
    if k <= 0 {
        AmpView { re: 0, im: 0 }
    } else {
        cadd(cumulative(state, k - 1), cnorm(state[k - 1].amp))
    }
}

/// The first position whose accumulated weight exceeds the threshold; the
/// last position if none does (floating-point defence).
pub open spec fn select_scan(state: Seq<ConfigView>, t: AmpView, k: int) -> int
    decreases state.len() - k,
{
    if k < 0 || k >= state.len() {
        state.len() - 1
    } else if lt_bits(t.re, cumulative(state, k + 1).re) {
        k
    } else {
        select_scan(state, t, k + 1)
    }
}

/// The configuration that a threshold selects.
pub open spec fn chosen_index(state: Seq<ConfigView>, t: AmpView) -> int {
    select_scan(state, t, 0)
}

/// The selection threshold for a 32-bit sample: the sample scaled to the
/// unit interval, times the total weight.
pub open spec fn sample_threshold(state: Seq<ConfigView>, r: u32) -> AmpView {
    cmul(
        AmpView { re: ratio_bits(r as u64, 4294967296), im: 0 },
        cumulative(state, state.len() as int),
    )
}

/// The selected position is in range.
pub proof fn lemma_select_scan_range(state: Seq<ConfigView>, t: AmpView, k: int)
    requires
        state.len() > 0,
        0 <= k <= state.len(),
    ensures
        0 <= select_scan(state, t, k) < state.len(),
    decreases state.len() - k,
{
    if k >= state.len() {
    } else if lt_bits(t.re, cumulative(state, k + 1).re) {
    } else {
        lemma_select_scan_range(state, t, k + 1);
    }
}

/// Relies on rand's `random`: an arbitrary `u32` sample. Nothing is
/// promised of the value.
#[verifier::external_body]
fn random_u32() -> u32 {
    rand::random::<u32>()
}

/// The position selected by the threshold, by one forward scan.
fn select_exec(state: &Vec<Configuration>, t: &Amplitude) -> (k: usize)
    requires
        state@.len() > 0,
    ensures
        k as int == chosen_index(state_views(state@), t@),
        k < state@.len(),
{
    let ghost sv = state_views(state@);
    let mut acc = Amplitude::zero();
    let mut k: usize = 0;
    while k < state.len()
        invariant
            0 <= k <= sv.len(),
            sv == state_views(state@),
            sv.len() == state@.len(),
            sv.len() > 0,
            acc@ == cumulative(sv, k as int),
            chosen_index(sv, t@) == select_scan(sv, t@, k as int),
        decreases state.len() - k,
    {
        let n = state[k].amplitude.norm_sqr_amp();
        acc = acc.add(&n);
        proof {
            assert(acc@ == cumulative(sv, k as int + 1));
        }
        if t.re_lt(&acc) {
            return k;
        }
        k = k + 1;
    }
    proof {
        lemma_select_scan_range(sv, t@, sv.len() as int);
    }
    state.len() - 1
}

impl Universe {
    /// Collapse under a caller-supplied 32-bit sample: the sample, scaled
    /// to the unit interval and multiplied by the total weight, selects
    /// the first configuration whose accumulated weight exceeds it; the
    /// store shrinks to that configuration with amplitude exactly 1+0i
    /// and the index is recomputed. An empty store is left untouched.
    pub fn measure_with_sample(&mut self, r: u32)
        ensures
            final(self).rules == old(self).rules,
            final(self).is_even_step == old(self).is_even_step,
            final(self).step_count == old(self).step_count,
            old(self).state@.len() == 0 ==> final(self).state == old(self).state
                && final(self).combined_state == old(self).combined_state,
            old(self).state@.len() > 0 ==> {
                let sv = state_views(old(self).state@);
                let k = chosen_index(sv, sample_threshold(sv, r));
                0 <= k < sv.len() && state_views(final(self).state@) == seq![
                    ConfigView { amp: AmpView { re: ONE_BITS, im: 0 }, cells: sv[k].cells },
                ] && index_views(final(self).combined_state@) == marginals(
                    state_views(final(self).state@),
                )
            },
    {
        if self.state.len() == 0 {
            return;
        }
        let ghost sv = state_views(self.state@);
        let mut total = Amplitude::zero();
        let mut k: usize = 0;
        while k < self.state.len()
            invariant
                0 <= k <= sv.len(),
                sv == state_views(self.state@),
                sv.len() == self.state@.len(),
                total@ == cumulative(sv, k as int),
            decreases self.state@.len() - k,
        {
            let n = self.state[k].amplitude.norm_sqr_amp();
            total = total.add(&n);
            k = k + 1;
        }
        let u = Amplitude::from_ratio(r as u64, 4294967296);
        let t = u.mul(&total);
        proof {
            assert(t@ == sample_threshold(sv, r));
        }
        let chosen = select_exec(&self.state, &t);
        let cells = copy_cells(&self.state[chosen].living_cells);
        let mut ns: Vec<Configuration> = Vec::new();
        ns.push(Configuration { amplitude: Amplitude::one(), living_cells: cells });
        self.state = ns;
        proof {
            assert(state_views(self.state@) =~= seq![
                ConfigView {
                    amp: AmpView { re: ONE_BITS, im: 0 },
                    cells: sv[chosen as int].cells,
                },
            ]);
        }
        self.compute_combined_state();
    }

    /// Stochastic collapse: draws a sample and collapses under it. After
    /// the call the store holds at most one configuration; a survivor has
    /// amplitude exactly 1+0i, carries the live cells of one of the
    /// previous configurations, and the index matches the collapsed
    /// store.
    pub fn measure(&mut self)
        ensures
            final(self).rules == old(self).rules,
            final(self).is_even_step == old(self).is_even_step,
            final(self).step_count == old(self).step_count,
            final(self).state@.len() <= 1,
            old(self).state@.len() == 0 ==> final(self).state == old(self).state
                && final(self).combined_state == old(self).combined_state,
            old(self).state@.len() > 0 ==> exists|k: int|
                0 <= k < old(self).state@.len() && state_views(final(self).state@) == seq![
                    ConfigView {
                        amp: AmpView { re: ONE_BITS, im: 0 },
                        cells: #[trigger] state_views(old(self).state@)[k].cells,
                    },
                ] && index_views(final(self).combined_state@) == marginals(
                state_views(final(self).state@),
            ),
    {
        let ghost sv = state_views(old(self).state@);
        let r = random_u32();
        self.measure_with_sample(r);
        proof {
            if sv.len() > 0 {
                let k = chosen_index(sv, sample_threshold(sv, r));
                assert(0 <= k < sv.len() && state_views(self.state@) == seq![
                    ConfigView { amp: AmpView { re: ONE_BITS, im: 0 }, cells: sv[k].cells },
                ] && index_views(self.combined_state@) == marginals(state_views(self.state@)));
            } else {
                assert(self.state@.len() == 0);
            }
        }
    }
}

} // verus!
