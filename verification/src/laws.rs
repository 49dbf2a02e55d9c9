//! Properties of the evolution, stated and proved over the same spec
//! functions that the public contracts use.

use vstd::prelude::*;
use crate::amplitude::{Amplitude, AmpView};
use crate::config::{ConfigView, Configuration, live_of, cells_distinct};
use crate::coords::Coordinates;
use crate::interference::{
    interfere_state, merge_upto, prune_state_upto, keep_config, first_match,
    lemma_first_match_props, lemma_first_match_is_first, lemma_merge_cells,
};
use crate::step::{expand_state, step_result, origins_spec, expand_blocks_upto, expand_state_upto};
use crate::universe::{marginals, state_views, index_views};

verus! {

/// The position among the first `i` configurations that the `p`-th
/// survivor of pruning came from.
spec fn prune_src(s: Seq<ConfigView>, i: int, p: int) -> int
    decreases i,
{
    if i <= 0 {
        0
    } else {
        let prev = prune_state_upto(s, i - 1);
        if keep_config(s[i - 1].amp) {
            if p < prev.len() {
                prune_src(s, i - 1, p)
            } else {
                i - 1
            }
        } else {
            prune_src(s, i - 1, p)
        }
    }
}

/// Each survivor of pruning is one of the first `i` configurations, and
/// it passed the keep test.
proof fn lemma_prune_src(s: Seq<ConfigView>, i: int, p: int)
    requires
        0 <= i <= s.len(),
        0 <= p < prune_state_upto(s, i).len(),
    ensures
        0 <= prune_src(s, i, p) < i,
        prune_state_upto(s, i)[p] == s[prune_src(s, i, p)],
        keep_config(s[prune_src(s, i, p)].amp),
    decreases i,
{
    if i <= 0 {
    } else {
        let prev = prune_state_upto(s, i - 1);
        if keep_config(s[i - 1].amp) {
            if p < prev.len() {
                lemma_prune_src(s, i - 1, p);
            }
        } else {
            assert(prune_state_upto(s, i) =~= prev);
            lemma_prune_src(s, i - 1, p);
        }
    }
}

/// Pruning keeps the store order: earlier survivors come from earlier
/// configurations.
proof fn lemma_prune_src_mono(s: Seq<ConfigView>, i: int, p: int, q: int)
    requires
        0 <= i <= s.len(),
        0 <= p < q < prune_state_upto(s, i).len(),
    ensures
        prune_src(s, i, p) < prune_src(s, i, q),
    decreases i,
{
    if i <= 0 {
    } else {
        let prev = prune_state_upto(s, i - 1);
        if keep_config(s[i - 1].amp) {
            if q < prev.len() {
                lemma_prune_src_mono(s, i - 1, p, q);
            } else {
                lemma_prune_src(s, i - 1, p);
            }
        } else {
            assert(prune_state_upto(s, i) =~= prev);
            lemma_prune_src_mono(s, i - 1, p, q);
        }
    }
}

/// After the merge walk, every configuration whose live set occurred
/// earlier carries the bitwise-zero amplitude.
proof fn lemma_merge_zeroes(s0: Seq<ConfigView>, ix0: Seq<(Coordinates, AmpView)>, i: int)
    requires
        0 <= i <= s0.len(),
    ensures
        forall|q: int|
            0 <= q < i && first_match(s0, q) < q ==> (#[trigger] merge_upto(s0, ix0, i).0[q]).amp
                == (AmpView { re: 0, im: 0 }),
    decreases i,
{
    if i <= 0 {
    } else {
        lemma_merge_zeroes(s0, ix0, i - 1);
        lemma_merge_cells(s0, ix0, i - 1);
        lemma_first_match_props(s0, i - 1);
        lemma_first_match_is_first(s0, i - 1);
        let prev = merge_upto(s0, ix0, i - 1).0;
        let j = first_match(s0, i - 1);
        let cur = merge_upto(s0, ix0, i).0;
        if j < i - 1 {
            assert forall|q: int| 0 <= q < i && first_match(s0, q) < q implies (#[trigger] cur[q]).amp
                == (AmpView { re: 0, im: 0 }) by {
                if q == i - 1 {
                } else if q == j {
                    assert(first_match(s0, j) == j);
                } else {
                    assert(cur[q] == prev[q]);
                }
            }
        } else {
            assert forall|q: int| 0 <= q < i && first_match(s0, q) < q implies (#[trigger] cur[q]).amp
                == (AmpView { re: 0, im: 0 }) by {
                if q < i - 1 {
                    assert(cur[q] == prev[q]);
                } else {
                    assert(first_match(s0, q) == q);
                }
            }
        }
    }
}

/// After one interference pass, no two configurations of the store share
/// a live-cell set: equal patterns have been merged into one entry.
pub proof fn lemma_interference_no_equal_pair(
    s0: Seq<ConfigView>,
    ix0: Seq<(Coordinates, AmpView)>,
    p: int,
    q: int,
)
    requires
        0 <= p < q < interfere_state(s0, ix0).len(),
    ensures
        live_of(interfere_state(s0, ix0)[p].cells) != live_of(interfere_state(s0, ix0)[q].cells),
{
    let n = s0.len() as int;
    let merged = merge_upto(s0, ix0, n).0;
    lemma_merge_cells(s0, ix0, n);
    lemma_merge_zeroes(s0, ix0, n);
    lemma_prune_src(merged, merged.len() as int, p);
    lemma_prune_src(merged, merged.len() as int, q);
    lemma_prune_src_mono(merged, merged.len() as int, p, q);
    let q1 = prune_src(merged, merged.len() as int, p);
    let q2 = prune_src(merged, merged.len() as int, q);
    lemma_first_match_props(s0, q1);
    lemma_first_match_props(s0, q2);
    assert(first_match(s0, q1) == q1) by {
        if first_match(s0, q1) < q1 {
            assert(merged[q1].amp == (AmpView { re: 0, im: 0 }));
        }
    }
    assert(first_match(s0, q2) == q2) by {
        if first_match(s0, q2) < q2 {
            assert(merged[q2].amp == (AmpView { re: 0, im: 0 }));
        }
    }
    // Minimality of the first match at q2 rules out an equal live set at
    // the earlier first occurrence q1.
    assert(live_of(s0[q1].cells) != live_of(s0[q2].cells));
    assert(interfere_state(s0, ix0)[p].cells == s0[q1].cells);
    assert(interfere_state(s0, ix0)[q].cells == s0[q2].cells);
}

/// Every configuration that survives an interference pass has an
/// amplitude above the pruning threshold in some component; in
/// particular, a configuration at or below the threshold componentwise
/// is gone.
pub proof fn lemma_interference_prunes_small(
    s0: Seq<ConfigView>,
    ix0: Seq<(Coordinates, AmpView)>,
    p: int,
)
    requires
        0 <= p < interfere_state(s0, ix0).len(),
    ensures
        keep_config(interfere_state(s0, ix0)[p].amp),
{
    let n = s0.len() as int;
    let merged = merge_upto(s0, ix0, n).0;
    lemma_merge_cells(s0, ix0, n);
    lemma_prune_src(merged, merged.len() as int, p);
}

/// An interference pass preserves duplicate-free cell lists: merging
/// only rewrites amplitudes, and pruning only drops whole
/// configurations.
pub proof fn lemma_interference_preserves_distinct(
    s0: Seq<ConfigView>,
    ix0: Seq<(Coordinates, AmpView)>,
)
    requires
        forall|k: int| 0 <= k < s0.len() ==> cells_distinct((#[trigger] s0[k]).cells),
    ensures
        forall|p: int|
            0 <= p < interfere_state(s0, ix0).len() ==> cells_distinct(
                (#[trigger] interfere_state(s0, ix0)[p]).cells,
            ),
{
    let n = s0.len() as int;
    let merged = merge_upto(s0, ix0, n).0;
    lemma_merge_cells(s0, ix0, n);
    assert forall|p: int| 0 <= p < interfere_state(s0, ix0).len() implies cells_distinct(
        (#[trigger] interfere_state(s0, ix0)[p]).cells,
    ) by {
        lemma_prune_src(merged, merged.len() as int, p);
        let q = prune_src(merged, merged.len() as int, p);
        assert(merged[q].cells == s0[q].cells);
    }
}

/// Recomputing the combined-state index is idempotent: two recomputations
/// over the same store produce the same index.
pub proof fn lemma_compute_combined_state_idempotent(
    state: Seq<Configuration>,
    first: Seq<(Coordinates, Amplitude)>,
    second: Seq<(Coordinates, Amplitude)>,
)
    requires
        index_views(first) == marginals(state_views(state)),
        index_views(second) == marginals(state_views(state)),
    ensures
        index_views(first) == index_views(second),
{
}

/// Stepping a configuration with no live cell reproduces it exactly: no
/// block is active, so the sole successor carries the same amplitude over
/// the empty pattern, and interference leaves a single configuration
/// alone. It survives pruning exactly when its amplitude passes the keep
/// test, as 1+0i does.
pub proof fn lemma_step_of_empty_config(a: AmpView, even: bool, rules: Seq<AmpView>)
    ensures
        keep_config(a) ==> step_result(
            seq![ConfigView { amp: a, cells: Seq::empty() }],
            even,
            rules,
        ) == seq![ConfigView { amp: a, cells: Seq::empty() }],
        !keep_config(a) ==> step_result(
            seq![ConfigView { amp: a, cells: Seq::empty() }],
            even,
            rules,
        ) == Seq::<ConfigView>::empty(),
{
    let cfg = ConfigView { amp: a, cells: Seq::empty() };
    let s = seq![cfg];
    assert(origins_spec(cfg.cells, even) =~= Seq::<Coordinates>::empty());
    assert(expand_blocks_upto(cfg, origins_spec(cfg.cells, even), rules, 0) == seq![
        ConfigView { amp: a, cells: Seq::empty() },
    ]);
    let ex = expand_state(s, even, rules);
    assert(expand_state_upto(s, even, rules, 0) =~= Seq::<ConfigView>::empty());
    assert(ex =~= seq![cfg]);
    let ix = marginals(ex);
    assert(merge_upto(ex, ix, 0) == (ex, ix));
    assert(first_match(ex, 0) == 0);
    assert(merge_upto(ex, ix, 1) == (ex, ix));
    assert(prune_state_upto(ex, 0) == Seq::<ConfigView>::empty());
    assert(ex[0] == cfg);
    if keep_config(a) {
        assert(prune_state_upto(ex, 1) == prune_state_upto(ex, 0) + seq![cfg]);
        assert(prune_state_upto(ex, 1) =~= seq![cfg]);
    } else {
        assert(prune_state_upto(ex, 1) == prune_state_upto(ex, 0) + Seq::<ConfigView>::empty());
        assert(prune_state_upto(ex, 1) =~= Seq::<ConfigView>::empty());
    }
}

} // verus!
