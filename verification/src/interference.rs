//! The interference resolver: configurations with the same live-cell set
//! merge, their amplitudes adding; branches whose amplitude is below the
//! pruning threshold in both components disappear, and small
//! combined-state accumulators are dropped.
//!
//! Equality of configurations is detected through a registry of SHA-256
//! fingerprints of the sorted live-cell lists. A fingerprint match is
//! verified against the sorted lists themselves before merging, so the
//! merge decision is exactly live-set equality; that equal live sets give
//! equal fingerprints is proved, so no merge is missed.

use vstd::prelude::*;
use crate::amplitude::{
    Amplitude, AmpView, cadd, csub, cnorm, is_zero_view, lt_bits, neg_bits, ratio_bits,
};
use crate::config::{
    Configuration, ConfigView, fingerprint, fingerprint_of, sorted_keys, sort_coords, keys_of,
    live_of, bytes_eq, coords_eq, lemma_fingerprint_complete, lemma_sorted_eq_live_eq,
};
use crate::coords::Coordinates;
use crate::step::copy_cells;
use crate::universe::{
    Universe, state_views, index_views, index_first, index_has_key, index_find,
};

verus! {

/// The componentwise pruning threshold for amplitudes: the bit pattern of
/// `1/1000`.
pub open spec fn eps_a_bits() -> u64 {
    ratio_bits(1, 1000)
}

/// The pruning threshold for combined-state accumulators: the bit pattern
/// of `1/100000`.
pub open spec fn eps_p_bits() -> u64 {
    ratio_bits(1, 100000)
}

/// Whether an amplitude survives pruning: some component exceeds the
/// threshold in magnitude. The test is componentwise, not on the
/// magnitude.
pub open spec fn amp_kept(a: AmpView) -> bool {
    lt_bits(eps_a_bits(), a.re) || lt_bits(a.re, neg_bits(eps_a_bits())) || lt_bits(
        eps_a_bits(),
        a.im,
    ) || lt_bits(a.im, neg_bits(eps_a_bits()))
}

/// A configuration survives pruning iff its amplitude is not bitwise zero
/// and passes the threshold test. The bitwise test adds nothing at run
/// time (a zero component never exceeds the positive threshold); it makes
/// the fate of exactly-cancelled branches provable.
pub open spec fn keep_config(a: AmpView) -> bool {
    !is_zero_view(a) && amp_kept(a)
}

/// The first position `j` in `j0..i` whose live set equals that of
/// position `i`, or `i` itself if none does.
pub open spec fn first_match_from(s: Seq<ConfigView>, i: int, j: int) -> int
    decreases i - j,
{
    if j < 0 || j >= i {
        i
    } else if live_of(s[j].cells) == live_of(s[i].cells) {
        j
    } else {
        first_match_from(s, i, j + 1)
    }
}

/// The first position whose live set equals that of position `i`.
pub open spec fn first_match(s: Seq<ConfigView>, i: int) -> int {
    first_match_from(s, i, 0)
}

proof fn lemma_first_match_from_props(s: Seq<ConfigView>, i: int, j: int)
    requires
        0 <= j <= i,
    ensures
        j <= first_match_from(s, i, j) <= i,
        first_match_from(s, i, j) < i ==> live_of(s[first_match_from(s, i, j)].cells) == live_of(
            s[i].cells,
        ),
        forall|j2: int|
            j <= j2 < first_match_from(s, i, j) ==> live_of(#[trigger] s[j2].cells) != live_of(
                s[i].cells,
            ),
    decreases i - j,
{
    if j >= i {
    } else if live_of(s[j].cells) == live_of(s[i].cells) {
    } else {
        lemma_first_match_from_props(s, i, j + 1);
    }
}

/// Position, match and minimality of `first_match`.
pub proof fn lemma_first_match_props(s: Seq<ConfigView>, i: int)
    requires
        0 <= i,
    ensures
        0 <= first_match(s, i) <= i,
        first_match(s, i) < i ==> live_of(s[first_match(s, i)].cells) == live_of(s[i].cells),
        forall|j: int|
            0 <= j < first_match(s, i) ==> live_of(#[trigger] s[j].cells) != live_of(s[i].cells),
{
    lemma_first_match_from_props(s, i, 0);
}

/// The first match of `i` is itself a first occurrence.
pub proof fn lemma_first_match_is_first(s: Seq<ConfigView>, i: int)
    requires
        0 <= i,
    ensures
        first_match(s, first_match(s, i)) == first_match(s, i),
{
    let m = first_match(s, i);
    lemma_first_match_props(s, i);
    if m < i {
        lemma_first_match_props(s, m);
        let m2 = first_match(s, m);
        if m2 < m {
            assert(live_of(s[m2].cells) == live_of(s[m].cells));
            assert(live_of(s[m2].cells) == live_of(s[i].cells));
            assert(false);
        }
    }
}

/// Adds `delta` to the accumulator of `c` where the key is present;
/// leaves the index unchanged where it is not. (A materialized index
/// holds a key for every live cell, so during a step the key is always
/// present.)
pub open spec fn index_bump(
    ix: Seq<(Coordinates, AmpView)>,
    c: Coordinates,
    delta: AmpView,
) -> Seq<(Coordinates, AmpView)> {
    if index_has_key(ix, c) {
        let i = index_first(ix, c);
        ix.update(i, (ix[i].0, cadd(ix[i].1, delta)))
    } else {
        ix
    }
}

/// Adds `delta` to the accumulators of the first `m` cells of a list.
pub open spec fn bump_cells(
    ix: Seq<(Coordinates, AmpView)>,
    cells: Seq<(Coordinates, bool)>,
    delta: AmpView,
    m: int,
) -> Seq<(Coordinates, AmpView)>
    decreases m,
{
    if m <= 0 {
        ix
    } else {
        index_bump(bump_cells(ix, cells, delta, m - 1), cells[m - 1].0, delta)
    }
}

/// The store and index after the interference walk has processed
/// positions `0..i`: each position whose live set already occurred folds
/// its amplitude into the first occurrence and becomes zero, and the
/// interference correction `|a+b|^2 - |a|^2 - |b|^2` is added to the
/// accumulator of each of its live cells.
pub open spec fn merge_upto(
    s0: Seq<ConfigView>,
    ix0: Seq<(Coordinates, AmpView)>,
    i: int,
) -> (Seq<ConfigView>, Seq<(Coordinates, AmpView)>)
    decreases i,
{
    if i <= 0 {
        (s0, ix0)
    } else {
        let (s1, ix1) = merge_upto(s0, ix0, i - 1);
        let j = first_match(s0, i - 1);
        if j < i - 1 {
            let cur = s1[i - 1].amp;
            let acc = s1[j].amp;
            let delta = csub(csub(cnorm(cadd(cur, acc)), cnorm(cur)), cnorm(acc));
            (
                s1.update(j, ConfigView { amp: cadd(acc, cur), cells: s1[j].cells }).update(
                    i - 1,
                    ConfigView { amp: AmpView { re: 0, im: 0 }, cells: s1[i - 1].cells },
                ),
                bump_cells(ix1, s0[i - 1].cells, delta, s0[i - 1].cells.len() as int),
            )
        } else {
            (s1, ix1)
        }
    }
}

/// Merging never changes lengths or cell lists, only amplitudes.
pub proof fn lemma_merge_cells(s0: Seq<ConfigView>, ix0: Seq<(Coordinates, AmpView)>, i: int)
    requires
        i <= s0.len(),
    ensures
        merge_upto(s0, ix0, i).0.len() == s0.len(),
        forall|k: int|
            0 <= k < s0.len() ==> (#[trigger] merge_upto(s0, ix0, i).0[k]).cells == s0[k].cells,
    decreases i,
{
    if i <= 0 {
    } else {
        lemma_merge_cells(s0, ix0, i - 1);
        lemma_first_match_props(s0, i - 1);
        let prev = merge_upto(s0, ix0, i - 1);
        let j = first_match(s0, i - 1);
        if j < i - 1 {
            let cur = prev.0[i - 1].amp;
            let acc = prev.0[j].amp;
            let upd = prev.0.update(
                j,
                ConfigView { amp: cadd(acc, cur), cells: prev.0[j].cells },
            ).update(i - 1, ConfigView { amp: AmpView { re: 0, im: 0 }, cells: prev.0[i - 1].cells });
            assert(merge_upto(s0, ix0, i).0 == upd);
            assert(forall|k: int| 0 <= k < s0.len() ==> upd[k].cells == prev.0[k].cells);
        }
    }
}

/// The configurations that survive pruning among the first `i`, in order.
pub open spec fn prune_state_upto(s: Seq<ConfigView>, i: int) -> Seq<ConfigView>
    decreases i,
{
    if i <= 0 {
        Seq::empty()
    } else {
        prune_state_upto(s, i - 1) + (if keep_config(s[i - 1].amp) {
            seq![s[i - 1]]
        } else {
            Seq::empty()
        })
    }
}

/// The index entries that survive pruning among the first `i`, in order.
pub open spec fn prune_index_upto(
    ix: Seq<(Coordinates, AmpView)>,
    i: int,
) -> Seq<(Coordinates, AmpView)>
    decreases i,
{
    if i <= 0 {
        Seq::empty()
    } else {
        prune_index_upto(ix, i - 1) + (if lt_bits(eps_p_bits(), ix[i - 1].1.re) {
            seq![ix[i - 1]]
        } else {
            Seq::empty()
        })
    }
}

/// The store after one full interference pass over `s0` with index
/// `ix0`.
pub open spec fn interfere_state(s0: Seq<ConfigView>, ix0: Seq<(Coordinates, AmpView)>) -> Seq<
    ConfigView,
> {
    let merged = merge_upto(s0, ix0, s0.len() as int).0;
    prune_state_upto(merged, merged.len() as int)
}

/// The index after one full interference pass over `s0` with index
/// `ix0`.
pub open spec fn interfere_index(s0: Seq<ConfigView>, ix0: Seq<(Coordinates, AmpView)>) -> Seq<
    (Coordinates, AmpView),
> {
    let bumped = merge_upto(s0, ix0, s0.len() as int).1;
    prune_index_upto(bumped, bumped.len() as int)
}

/// Scans the fingerprint registry for an entry whose digest and sorted
/// live list both match.
fn find_in_registry(
    reg_digest: &Vec<Vec<u8>>,
    reg_sorted: &Vec<Vec<Coordinates>>,
    digest: &Vec<u8>,
    sorted: &Vec<Coordinates>,
) -> (r: Option<usize>)
    requires
        reg_digest@.len() == reg_sorted@.len(),
    ensures
        r matches Some(t) ==> t < reg_sorted@.len() && reg_digest@[t as int]@ == digest@
            && reg_sorted@[t as int]@ == sorted@ && forall|t2: int|
            0 <= t2 < t ==> !(reg_digest@[t2]@ == digest@ && reg_sorted@[t2]@ == sorted@),
        r is None ==> forall|t2: int|
            0 <= t2 < reg_sorted@.len() ==> !(#[trigger] reg_digest@[t2]@ == digest@
                && reg_sorted@[t2]@ == sorted@),
{
    let mut t: usize = 0;
    while t < reg_digest.len()
        invariant
            reg_digest@.len() == reg_sorted@.len(),
            0 <= t <= reg_digest@.len(),
            forall|t2: int|
                0 <= t2 < t ==> !(#[trigger] reg_digest@[t2]@ == digest@ && reg_sorted@[t2]@
                    == sorted@),
        decreases reg_digest.len() - t,
    {
        if bytes_eq(&reg_digest[t], digest) {
            if coords_eq(&reg_sorted[t], sorted) {
                return Some(t);
            }
        }
        t = t + 1;
    }
    None
}

impl Universe {
    /// One interference pass: walks the store once, folding each
    /// configuration whose live set was already seen into its first
    /// occurrence (amplitudes add, in the order the walk meets them) and
    /// adding the interference correction to the combined-state entries
    /// of the shared cells; then prunes the store of amplitudes at or
    /// below the componentwise threshold and the index of accumulators at
    /// or below the probability threshold.
    pub fn solve_interference(&mut self)
        ensures
            final(self).rules == old(self).rules,
            final(self).is_even_step == old(self).is_even_step,
            final(self).step_count == old(self).step_count,
            state_views(final(self).state@) == interfere_state(
                state_views(old(self).state@),
                index_views(old(self).combined_state@),
            ),
            index_views(final(self).combined_state@) == interfere_index(
                state_views(old(self).state@),
                index_views(old(self).combined_state@),
            ),
    {
        let ghost s0 = state_views(self.state@);
        let ghost ix0 = index_views(self.combined_state@);
        let mut reg_digest: Vec<Vec<u8>> = Vec::new();
        let mut reg_sorted: Vec<Vec<Coordinates>> = Vec::new();
        let mut reg_idx: Vec<usize> = Vec::new();
        let n = self.state.len();
        let mut i: usize = 0;
        while i < n
            invariant
                0 <= i <= n,
                n == s0.len(),
                self.state@.len() == s0.len(),
                self.rules == old(self).rules,
                self.is_even_step == old(self).is_even_step,
                self.step_count == old(self).step_count,
                state_views(self.state@) == merge_upto(s0, ix0, i as int).0,
                index_views(self.combined_state@) == merge_upto(s0, ix0, i as int).1,
                forall|k: int|
                    0 <= k < s0.len() ==> (#[trigger] state_views(self.state@)[k]).cells
                        == s0[k].cells,
                reg_digest@.len() == reg_sorted@.len(),
                reg_digest@.len() == reg_idx@.len(),
                forall|t: int| 0 <= t < reg_idx@.len() ==> (#[trigger] reg_idx@[t]) < i,
                forall|t: int, t2: int|
                    0 <= t < t2 < reg_idx@.len() ==> reg_idx@[t] < reg_idx@[t2],
                forall|t: int|
                    0 <= t < reg_idx@.len() ==> (#[trigger] reg_sorted@[t])@ == sort_coords(
                        keys_of(s0[reg_idx@[t] as int].cells),
                    ),
                forall|t: int|
                    0 <= t < reg_idx@.len() ==> (#[trigger] reg_digest@[t])@ == fingerprint_of(
                        s0[reg_idx@[t] as int].cells,
                    ),
                forall|t: int|
                    0 <= t < reg_idx@.len() ==> first_match(s0, (#[trigger] reg_idx@[t]) as int)
                        == reg_idx@[t] as int,
                forall|j: int|
                    0 <= j < i && first_match(s0, j) == j ==> exists|t: int|
                        0 <= t < reg_idx@.len() && (#[trigger] reg_idx@[t]) as int == j,
            decreases n - i,
        {
            proof {
                lemma_merge_cells(s0, ix0, i as int);
                assert(state_views(self.state@)[i as int].cells == s0[i as int].cells);
                assert(self.state@[i as int].living_cells@ == s0[i as int].cells);
            }
            let sorted = sorted_keys(&self.state[i].living_cells);
            let digest = fingerprint(&self.state[i].living_cells);
            let found = find_in_registry(&reg_digest, &reg_sorted, &digest, &sorted);
            proof {
                lemma_first_match_props(s0, i as int);
                lemma_first_match_is_first(s0, i as int);
            }
            let ghost m_star = first_match(s0, i as int);
            match found {
                Some(t) => {
                    let j = reg_idx[t];
                    proof {
                        // The found entry's live set equals this one's.
                        lemma_sorted_eq_live_eq(s0[j as int].cells, s0[i as int].cells);
                        // The minimal match is a first occurrence, so it is
                        // in the registry; ascending order makes the first
                        // matching entry exactly the minimal match.
                        assert(m_star < i as int) by {
                            if m_star == i as int {
                                assert(live_of(s0[j as int].cells) == live_of(s0[i as int].cells));
                                assert(j < i);
                                assert(false);
                            }
                        }
                        let tm = choose|tm: int|
                            0 <= tm < reg_idx@.len() && reg_idx@[tm] as int == m_star;
                        lemma_fingerprint_complete(s0[m_star].cells, s0[i as int].cells);
                        assert(reg_sorted@[tm]@ == sort_coords(keys_of(s0[i as int].cells)));
                        assert(reg_digest@[tm]@ == fingerprint_of(s0[i as int].cells));
                        assert(tm >= t as int);
                        assert(j as int <= m_star);
                        assert(live_of(s0[j as int].cells) == live_of(s0[i as int].cells));
                        assert(j as int >= m_star);
                        assert(j as int == m_star);
                    }
                    let ghost sv1 = state_views(self.state@);
                    let ghost iv1 = index_views(self.combined_state@);
                    let cur = self.state[i].amplitude.duplicate();
                    let acc = self.state[j].amplitude.duplicate();
                    let sum_for_delta = cur.add(&acc);
                    let cur_norm = cur.norm_sqr_amp();
                    let acc_norm = acc.norm_sqr_amp();
                    let sum_norm = sum_for_delta.norm_sqr_amp();
                    let delta = sum_norm.sub(&cur_norm).sub(&acc_norm);
                    let new_acc = acc.add(&cur);
                    proof {
                        assert(cur@ == sv1[i as int].amp);
                        assert(acc@ == sv1[j as int].amp);
                    }
                    let slot_j = &mut self.state[j];
                    slot_j.amplitude = new_acc;
                    proof {
                        assert(state_views(self.state@) =~= sv1.update(
                            j as int,
                            ConfigView {
                                amp: cadd(sv1[j as int].amp, sv1[i as int].amp),
                                cells: sv1[j as int].cells,
                            },
                        ));
                    }
                    let ghost sv2 = state_views(self.state@);
                    let slot_i = &mut self.state[i];
                    slot_i.amplitude = Amplitude::zero();
                    proof {
                        assert(state_views(self.state@) =~= sv2.update(
                            i as int,
                            ConfigView { amp: AmpView { re: 0, im: 0 }, cells: sv1[i as int].cells },
                        ));
                        assert(state_views(self.state@) == merge_upto(s0, ix0, i as int + 1).0);
                        assert(delta@ == csub(
                            csub(cnorm(cadd(sv1[i as int].amp, sv1[j as int].amp)), cnorm(sv1[i as int].amp)),
                            cnorm(sv1[j as int].amp),
                        ));
                    }
                    let cells_len = self.state[i].living_cells.len();
                    let ghost delta_v = delta@;
                    let mut m: usize = 0;
                    proof {
                        assert(self.state@[i as int].living_cells@ == s0[i as int].cells);
                    }
                    while m < cells_len
                        invariant
                            0 <= m <= cells_len,
                            0 <= i < s0.len(),
                            self.state@.len() == s0.len(),
                            self.rules == old(self).rules,
                            self.is_even_step == old(self).is_even_step,
                            self.step_count == old(self).step_count,
                            state_views(self.state@) == merge_upto(s0, ix0, i as int + 1).0,
                            delta_v == delta@,
                            cells_len == s0[i as int].cells.len(),
                            self.state@[i as int].living_cells@ == s0[i as int].cells,
                            index_views(self.combined_state@) == bump_cells(
                                iv1,
                                s0[i as int].cells,
                                delta_v,
                                m as int,
                            ),
                        decreases cells_len - m,
                    {
                        let c = self.state[i].living_cells[m].0;
                        let ghost ixb = index_views(self.combined_state@);
                        let pos = index_find(&self.combined_state, &c);
                        if pos < self.combined_state.len() {
                            let key = self.combined_state[pos].0;
                            let v = self.combined_state[pos].1.add(&delta);
                            let ghost vv = v@;
                            proof {
                                assert(ixb[pos as int] == (
                                    self.combined_state@[pos as int].0,
                                    self.combined_state@[pos as int].1@,
                                ));
                                assert(vv == cadd(self.combined_state@[pos as int].1@, delta@));
                                assert(vv == cadd(ixb[pos as int].1, delta_v));
                            }
                            let slot = &mut self.combined_state[pos];
                            *slot = (key, v);
                            proof {
                                assert(index_views(self.combined_state@) =~= ixb.update(
                                    pos as int,
                                    (ixb[pos as int].0, cadd(ixb[pos as int].1, delta_v)),
                                ));
                                assert(index_views(self.combined_state@) == index_bump(ixb, c, delta_v));
                            }
                        } else {
                            proof {
                                assert(index_views(self.combined_state@) == index_bump(ixb, c, delta_v));
                            }
                        }
                        m = m + 1;
                    }
                    proof {
                        assert(index_views(self.combined_state@) == bump_cells(
                            iv1,
                            s0[i as int].cells,
                            delta_v,
                            s0[i as int].cells.len() as int,
                        ));
                        assert(index_views(self.combined_state@) == merge_upto(
                            s0,
                            ix0,
                            i as int + 1,
                        ).1);
                        lemma_merge_cells(s0, ix0, i as int + 1);
                    }
                },
                None => {
                    proof {
                        // No registered first occurrence matches, so this
                        // position is itself a first occurrence.
                        assert(m_star == i as int) by {
                            if m_star < i as int {
                                let tm = choose|tm: int|
                                    0 <= tm < reg_idx@.len() && reg_idx@[tm] as int == m_star;
                                lemma_fingerprint_complete(s0[m_star].cells, s0[i as int].cells);
                                assert(reg_digest@[tm]@ == digest@ && reg_sorted@[tm]@ == sorted@);
                                assert(false);
                            }
                        }
                    }
                    let ghost reg0 = reg_idx@;
                    reg_digest.push(digest);
                    reg_sorted.push(sorted);
                    reg_idx.push(i);
                    proof {
                        assert(reg_idx@ == reg0.push(i));
                        assert(state_views(self.state@) == merge_upto(s0, ix0, i as int + 1).0);
                        assert(index_views(self.combined_state@) == merge_upto(
                            s0,
                            ix0,
                            i as int + 1,
                        ).1);
                        assert forall|j2: int|
                            0 <= j2 < i as int + 1 && first_match(s0, j2) == j2 implies exists|t: int|
                            0 <= t < reg_idx@.len() && (#[trigger] reg_idx@[t]) as int == j2 by {
                            if j2 == i as int {
                                assert(reg_idx@[reg0.len() as int] as int == j2);
                            } else {
                                let t0 = choose|t0: int|
                                    0 <= t0 < reg0.len() && (#[trigger] reg0[t0]) as int == j2;
                                assert(reg_idx@[t0] as int == j2);
                            }
                        }
                    }
                },
            }
            i = i + 1;
        }
        let ghost merged_s = merge_upto(s0, ix0, s0.len() as int).0;
        let ghost merged_ix = merge_upto(s0, ix0, s0.len() as int).1;
        // Prune the store.
        let eps = Amplitude::from_ratio_pair(1, 1000);
        let neg_eps = eps.neg();
        let mut kept: Vec<Configuration> = Vec::new();
        let mut k: usize = 0;
        proof {
            assert(state_views(kept@) =~= prune_state_upto(merged_s, 0));
        }
        while k < self.state.len()
            invariant
                0 <= k <= self.state@.len(),
                state_views(self.state@) == merged_s,
                merged_s.len() == self.state@.len(),
                eps@ == (AmpView { re: eps_a_bits(), im: eps_a_bits() }),
                neg_eps@ == (AmpView { re: neg_bits(eps_a_bits()), im: neg_bits(eps_a_bits()) }),
                state_views(kept@) == prune_state_upto(merged_s, k as int),
            decreases self.state@.len() - k,
        {
            let keep = !self.state[k].amplitude.is_zero() && (eps.re_lt(&self.state[k].amplitude)
                || self.state[k].amplitude.re_lt(&neg_eps) || eps.im_lt(&self.state[k].amplitude)
                || self.state[k].amplitude.im_lt(&neg_eps));
            let ghost before = state_views(kept@);
            if keep {
                let cfg = Configuration {
                    amplitude: self.state[k].amplitude.duplicate(),
                    living_cells: copy_cells(&self.state[k].living_cells),
                };
                kept.push(cfg);
                proof {
                    assert(state_views(kept@) =~= before + seq![merged_s[k as int]]);
                }
            }
            k = k + 1;
        }
        self.state = kept;
        // Prune the index.
        let eps_p = Amplitude::from_ratio(1, 100000);
        let mut kept_ix: Vec<(Coordinates, Amplitude)> = Vec::new();
        let mut q: usize = 0;
        proof {
            assert(index_views(kept_ix@) =~= prune_index_upto(merged_ix, 0));
        }
        while q < self.combined_state.len()
            invariant
                0 <= q <= self.combined_state@.len(),
                index_views(self.combined_state@) == merged_ix,
                merged_ix.len() == self.combined_state@.len(),
                eps_p@ == (AmpView { re: eps_p_bits(), im: 0 }),
                index_views(kept_ix@) == prune_index_upto(merged_ix, q as int),
            decreases self.combined_state@.len() - q,
        {
            let keep = eps_p.re_lt(&self.combined_state[q].1);
            let ghost before = index_views(kept_ix@);
            if keep {
                let key = self.combined_state[q].0;
                let v = self.combined_state[q].1.duplicate();
                kept_ix.push((key, v));
                proof {
                    assert(index_views(kept_ix@) =~= before + seq![merged_ix[q as int]]);
                }
            }
            q = q + 1;
        }
        self.combined_state = kept_ix;
    }
}

} // verus!
