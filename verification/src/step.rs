//! The step engine: one tick of the evolution. Every configuration is
//! expanded, over the blocks of the current parity's tiling that contain
//! at least one of its live cells, into the Cartesian product of the
//! nonzero rule outcomes of those blocks; the successor store replaces the
//! store, parity flips, the counter advances, and the interference
//! resolver and the index recomputation run.

use vstd::prelude::*;
use crate::amplitude::{Amplitude, AmpView, cmul, is_zero_view};
use crate::config::{
    Configuration, ConfigView, cells_bounded, cells_contain, contains_cell, sorted_insert,
    strictly_sorted, insert_coord_sorted,
};
use crate::coords::{
    Coordinates, origin_val, origin_val_exec, COORD_LIMIT, aligned_coord, coord_in_bounds,
    lex_lt, lemma_block_cells_origin, lemma_origin_idempotent,
};
use crate::config::cells_distinct;
use crate::rules::Rules;
use crate::universe::{Universe, state_views, index_views, marginals};
use crate::interference::interfere_state;

verus! {

/// The top-left cell of the block containing `c` under the given parity.
pub open spec fn origin_coord(c: Coordinates, even: bool) -> Coordinates {
    Coordinates {
        x: origin_val(c.x as int, even) as i32,
        y: origin_val(c.y as int, even) as i32,
    }
}

/// The `k`-th cell of the block with top-left `o`, in canonical order:
/// top-left, top-right, bottom-left, bottom-right.
pub open spec fn cell_of_block(o: Coordinates, k: int) -> Coordinates {
    Coordinates {
        x: (o.x as int + (if k == 1 || k == 3 {
            1int
        } else {
            0int
        })) as i32,
        y: (o.y as int + (if k == 2 || k == 3 {
            1int
        } else {
            0int
        })) as i32,
    }
}

/// The sorted list of origins of the blocks holding at least one live
/// cell.
pub open spec fn origins_spec(cells: Seq<(Coordinates, bool)>, even: bool) -> Seq<Coordinates>
    decreases cells.len(),
{
    if cells.len() == 0 {
        Seq::empty()
    } else {
        sorted_insert(origins_spec(cells.drop_last(), even), origin_coord(cells.last().0, even))
    }
}

/// The 4-bit input pattern of the block at `o`: bit `k` is set iff the
/// `k`-th cell of the block is live.
pub open spec fn pattern_of(cells: Seq<(Coordinates, bool)>, o: Coordinates) -> int {
    (if cells_contain(cells, cell_of_block(o, 0)) {
        1int
    } else {
        0int
    }) + (if cells_contain(cells, cell_of_block(o, 1)) {
        2int
    } else {
        0int
    }) + (if cells_contain(cells, cell_of_block(o, 2)) {
        4int
    } else {
        0int
    }) + (if cells_contain(cells, cell_of_block(o, 3)) {
        8int
    } else {
        0int
    })
}

/// The nonzero entries of row `p_in` of the rule table among the first
/// `j` columns, as (output pattern, weight) pairs in column order.
pub open spec fn row_entries_upto(rules: Seq<AmpView>, p_in: int, j: int) -> Seq<(int, AmpView)>
    decreases j,
{
    if j <= 0 {
        Seq::empty()
    } else {
        let rest = row_entries_upto(rules, p_in, j - 1);
        if !is_zero_view(rules[p_in * 16 + (j - 1)]) {
            rest + seq![(j - 1, rules[p_in * 16 + (j - 1)])]
        } else {
            rest
        }
    }
}

/// The cells contributed by output pattern `p` of the block at `o`, in
/// canonical cell order, each carrying a cleared bookkeeping flag.
pub open spec fn pattern_cells(o: Coordinates, p: int) -> Seq<(Coordinates, bool)> {
    (if p % 2 == 1 {
        seq![(cell_of_block(o, 0), false)]
    } else {
        Seq::empty()
    }) + (if (p / 2) % 2 == 1 {
        seq![(cell_of_block(o, 1), false)]
    } else {
        Seq::empty()
    }) + (if (p / 4) % 2 == 1 {
        seq![(cell_of_block(o, 2), false)]
    } else {
        Seq::empty()
    }) + (if (p / 8) % 2 == 1 {
        seq![(cell_of_block(o, 3), false)]
    } else {
        Seq::empty()
    })
}

/// One partial successor extended by the first `m` outcomes of one block:
/// each outcome multiplies the amplitude by its weight and appends its
/// cells.
pub open spec fn apply_entries_upto(
    base: ConfigView,
    o: Coordinates,
    entries: Seq<(int, AmpView)>,
    m: int,
) -> Seq<ConfigView>
    decreases m,
{
    if m <= 0 {
        Seq::empty()
    } else {
        apply_entries_upto(base, o, entries, m - 1) + seq![
            ConfigView {
                amp: cmul(base.amp, entries[m - 1].1),
                cells: base.cells + pattern_cells(o, entries[m - 1].0),
            },
        ]
    }
}

/// The first `n` partial successors each extended by every outcome of one
/// block.
pub open spec fn apply_block_upto(
    ss: Seq<ConfigView>,
    o: Coordinates,
    entries: Seq<(int, AmpView)>,
    n: int,
) -> Seq<ConfigView>
    decreases n,
{
    if n <= 0 {
        Seq::empty()
    } else {
        apply_block_upto(ss, o, entries, n - 1) + apply_entries_upto(
            ss[n - 1],
            o,
            entries,
            entries.len() as int,
        )
    }
}

/// The partial successors of one configuration after its first `b` active
/// blocks have been applied, starting from the configuration's amplitude
/// over an empty cell list.
pub open spec fn expand_blocks_upto(
    cfg: ConfigView,
    origins: Seq<Coordinates>,
    rules: Seq<AmpView>,
    b: int,
) -> Seq<ConfigView>
    decreases b,
{
    if b <= 0 {
        seq![ConfigView { amp: cfg.amp, cells: Seq::empty() }]
    } else {
        let prev = expand_blocks_upto(cfg, origins, rules, b - 1);
        let o = origins[b - 1];
        apply_block_upto(
            prev,
            o,
            row_entries_upto(rules, pattern_of(cfg.cells, o), 16),
            prev.len() as int,
        )
    }
}

/// The successors of one configuration: the Cartesian product over its
/// active blocks of the nonzero rule outcomes, amplitudes multiplied and
/// cells united. A configuration with no live cell has itself as its only
/// successor.
pub open spec fn expand_config_spec(cfg: ConfigView, even: bool, rules: Seq<AmpView>) -> Seq<
    ConfigView,
> {
    let origins = origins_spec(cfg.cells, even);
    expand_blocks_upto(cfg, origins, rules, origins.len() as int)
}

/// The successors of the first `k` configurations, in store order.
pub open spec fn expand_state_upto(
    state: Seq<ConfigView>,
    even: bool,
    rules: Seq<AmpView>,
    k: int,
) -> Seq<ConfigView>
    decreases k,
{
    if k <= 0 {
        Seq::empty()
    } else {
        expand_state_upto(state, even, rules, k - 1) + expand_config_spec(
            state[k - 1],
            even,
            rules,
        )
    }
}

/// The full successor store of one tick, before interference.
pub open spec fn expand_state(state: Seq<ConfigView>, even: bool, rules: Seq<AmpView>) -> Seq<
    ConfigView,
> {
    expand_state_upto(state, even, rules, state.len() as int)
}

/// Every coordinate of a coordinate list is within the magnitude `b`.
pub open spec fn coords_list_bounded(s: Seq<Coordinates>, b: int) -> bool {
    forall|i: int| 0 <= i < s.len() ==> crate::coords::coord_in_bounds(#[trigger] s[i], b)
}

/// A fresh copy of a cell vector.
pub fn copy_cells(v: &Vec<(Coordinates, bool)>) -> (r: Vec<(Coordinates, bool)>)
    ensures
        r@ == v@,
{
    let mut r: Vec<(Coordinates, bool)> = Vec::new();
    let mut i: usize = 0;
    while i < v.len()
        invariant
            0 <= i <= v@.len(),
            r@ == v@.take(i as int),
        decreases v.len() - i,
    {
        r.push(v[i]);
        proof {
            assert(r@ =~= v@.take(i as int + 1));
        }
        i = i + 1;
    }
    proof {
        assert(v@.take(v@.len() as int) =~= v@);
    }
    r
}

/// The sorted origins of the blocks of `cells` under the given parity.
fn collect_origins(cells: &Vec<(Coordinates, bool)>, even: bool) -> (r: Vec<Coordinates>)
    requires
        cells_bounded(cells@, COORD_LIMIT as int),
    ensures
        r@ == origins_spec(cells@, even),
        strictly_sorted(r@),
        coords_list_bounded(r@, COORD_LIMIT as int + 1),
{
    let mut r: Vec<Coordinates> = Vec::new();
    let mut i: usize = 0;
    proof {
        assert(origins_spec(cells@.take(0), even) =~= Seq::<Coordinates>::empty());
    }
    while i < cells.len()
        invariant
            0 <= i <= cells@.len(),
            cells_bounded(cells@, COORD_LIMIT as int),
            r@ == origins_spec(cells@.take(i as int), even),
            strictly_sorted(r@),
            coords_list_bounded(r@, COORD_LIMIT as int + 1),
        decreases cells.len() - i,
    {
        let c = cells[i].0;
        let ox = origin_val_exec(c.x, even);
        let oy = origin_val_exec(c.y, even);
        let o = Coordinates { x: ox, y: oy };
        proof {
            assert(o == origin_coord(c, even));
        }
        let ghost before = r@;
        insert_coord_sorted(&mut r, o);
        proof {
            crate::config::lemma_sorted_insert_props(before, o);
            let prefix = cells@.take(i as int);
            let next = cells@.take(i as int + 1);
            assert(next.drop_last() =~= prefix);
            assert(next.last() == cells@[i as int]);
            assert(r@ == sorted_insert(origins_spec(prefix, even), origin_coord(c, even)));
            assert forall|k: int| 0 <= k < r@.len() implies crate::coords::coord_in_bounds(
                #[trigger] r@[k],
                COORD_LIMIT as int + 1,
            ) by {
                assert(r@.contains(r@[k]));
                if r@[k] == o {
                } else {
                    assert(before.contains(r@[k]));
                    let m = choose|m: int| 0 <= m < before.len() && before[m] == r@[k];
                }
            }
        }
        i = i + 1;
    }
    proof {
        assert(cells@.take(cells@.len() as int) =~= cells@);
    }
    r
}

/// The 4-bit input pattern of the block at `o` for the given cells.
fn block_pattern(cells: &Vec<(Coordinates, bool)>, o: Coordinates) -> (p: usize)
    requires
        crate::coords::coord_in_bounds(o, COORD_LIMIT as int + 1),
    ensures
        p as int == pattern_of(cells@, o),
        p < 16,
{
    let c0 = Coordinates { x: o.x, y: o.y };
    let c1 = Coordinates { x: o.x + 1, y: o.y };
    let c2 = Coordinates { x: o.x, y: o.y + 1 };
    let c3 = Coordinates { x: o.x + 1, y: o.y + 1 };
    proof {
        assert(c0 == cell_of_block(o, 0));
        assert(c1 == cell_of_block(o, 1));
        assert(c2 == cell_of_block(o, 2));
        assert(c3 == cell_of_block(o, 3));
    }
    let mut p: usize = 0;
    if contains_cell(cells, &c0) {
        p = p + 1;
    }
    if contains_cell(cells, &c1) {
        p = p + 2;
    }
    if contains_cell(cells, &c2) {
        p = p + 4;
    }
    if contains_cell(cells, &c3) {
        p = p + 8;
    }
    p
}

/// The views of a collected entry list.
pub open spec fn entry_views(v: Seq<(usize, Amplitude)>) -> Seq<(int, AmpView)> {
    v.map_values(|e: (usize, Amplitude)| (e.0 as int, e.1@))
}

/// The nonzero entries of row `p_in`, in column order.
fn collect_row_entries(rules: &Rules, p_in: usize) -> (r: Vec<(usize, Amplitude)>)
    requires
        rules.wf(),
        p_in < 16,
    ensures
        entry_views(r@) == row_entries_upto(rules@, p_in as int, 16),
        forall|t: int| 0 <= t < r@.len() ==> (#[trigger] r@[t]).0 < 16,
{
    let mut r: Vec<(usize, Amplitude)> = Vec::new();
    let mut j: usize = 0;
    proof {
        assert(entry_views(r@) =~= Seq::<(int, AmpView)>::empty());
    }
    while j < 16
        invariant
            0 <= j <= 16,
            rules.wf(),
            p_in < 16,
            entry_views(r@) == row_entries_upto(rules@, p_in as int, j as int),
            forall|t: int| 0 <= t < r@.len() ==> (#[trigger] r@[t]).0 < 16,
        decreases 16 - j,
    {
        let a = rules.entry(p_in, j);
        if !a.is_zero() {
            let ghost before = entry_views(r@);
            let dup = a.duplicate();
            r.push((j, dup));
            proof {
                assert(entry_views(r@) =~= before + seq![
                    (j as int, rules@[p_in as int * 16 + j as int]),
                ]);
            }
        }
        j = j + 1;
    }
    r
}

/// Appends the cells of output pattern `p` of the block at `o`.
fn push_pattern_cells(cells: &mut Vec<(Coordinates, bool)>, o: Coordinates, p: usize)
    requires
        crate::coords::coord_in_bounds(o, COORD_LIMIT as int + 1),
        p < 16,
    ensures
        final(cells)@ == old(cells)@ + pattern_cells(o, p as int),
{
    let ghost before = cells@;
    if p % 2 == 1 {
        cells.push((Coordinates { x: o.x, y: o.y }, false));
    }
    if (p / 2) % 2 == 1 {
        cells.push((Coordinates { x: o.x + 1, y: o.y }, false));
    }
    if (p / 4) % 2 == 1 {
        cells.push((Coordinates { x: o.x, y: o.y + 1 }, false));
    }
    if (p / 8) % 2 == 1 {
        cells.push((Coordinates { x: o.x + 1, y: o.y + 1 }, false));
    }
    proof {
        assert(Coordinates { x: o.x, y: o.y } == cell_of_block(o, 0));
        assert(cells@ =~= before + pattern_cells(o, p as int));
    }
}

/// The successors of one configuration under the given parity and rules.
fn expand_config_exec(cfg: &Configuration, even: bool, rules: &Rules) -> (r: Vec<Configuration>)
    requires
        rules.wf(),
        cells_bounded(cfg@.cells, COORD_LIMIT as int),
    ensures
        state_views(r@) == expand_config_spec(cfg@, even, rules@),
{
    let ghost cfgv = cfg@;
    let ghost rv = rules@;
    let origins = collect_origins(&cfg.living_cells, even);
    let ghost ov = origins@;
    let mut succs: Vec<Configuration> = Vec::new();
    succs.push(Configuration { amplitude: cfg.amplitude.duplicate(), living_cells: Vec::new() });
    proof {
        assert(state_views(succs@) =~= expand_blocks_upto(cfgv, ov, rv, 0));
    }
    let mut b: usize = 0;
    while b < origins.len()
        invariant
            0 <= b <= ov.len(),
            origins@ == ov,
            cfgv == cfg@,
            rv == rules@,
            rules.wf(),
            cells_bounded(cfgv.cells, COORD_LIMIT as int),
            coords_list_bounded(ov, COORD_LIMIT as int + 1),
            state_views(succs@) == expand_blocks_upto(cfgv, ov, rv, b as int),
        decreases ov.len() - b,
    {
        let o = origins[b];
        let p = block_pattern(&cfg.living_cells, o);
        let entries = collect_row_entries(rules, p);
        let ghost ev = entry_views(entries@);
        proof {
            assert(ev == row_entries_upto(rv, pattern_of(cfgv.cells, o), 16));
        }
        let ghost prev = state_views(succs@);
        let mut next: Vec<Configuration> = Vec::new();
        let mut s: usize = 0;
        proof {
            assert(state_views(next@) =~= apply_block_upto(prev, o, ev, 0));
        }
        while s < succs.len()
            invariant
                0 <= s <= succs@.len(),
                prev == state_views(succs@),
                prev.len() == succs@.len(),
                ev == entry_views(entries@),
                ev.len() == entries@.len(),
                crate::coords::coord_in_bounds(o, COORD_LIMIT as int + 1),
                forall|t: int| 0 <= t < entries@.len() ==> (#[trigger] entries@[t]).0 < 16,
                state_views(next@) == apply_block_upto(prev, o, ev, s as int),
            decreases succs@.len() - s,
        {
            let mut m: usize = 0;
            let ghost base = prev[s as int];
            proof {
                assert(base == succs@[s as int]@);
                assert(apply_entries_upto(base, o, ev, 0) =~= Seq::<ConfigView>::empty());
            }
            while m < entries.len()
                invariant
                    0 <= m <= entries@.len(),
                    s < succs@.len(),
                    prev == state_views(succs@),
                    prev.len() == succs@.len(),
                    base == succs@[s as int]@,
                    ev == entry_views(entries@),
                    ev.len() == entries@.len(),
                    crate::coords::coord_in_bounds(o, COORD_LIMIT as int + 1),
                    forall|t: int| 0 <= t < entries@.len() ==> (#[trigger] entries@[t]).0 < 16,
                    state_views(next@) == apply_block_upto(prev, o, ev, s as int)
                        + apply_entries_upto(base, o, ev, m as int),
                decreases entries@.len() - m,
            {
                let p_out = entries[m].0;
                let amp = succs[s].amplitude.mul(&entries[m].1);
                let mut cells = copy_cells(&succs[s].living_cells);
                proof {
                    assert(ev[m as int] == (p_out as int, entries@[m as int].1@));
                }
                push_pattern_cells(&mut cells, o, p_out);
                let ghost before = state_views(next@);
                next.push(Configuration { amplitude: amp, living_cells: cells });
                proof {
                    assert(state_views(next@) =~= before + seq![
                        ConfigView {
                            amp: cmul(base.amp, ev[m as int].1),
                            cells: base.cells + pattern_cells(o, ev[m as int].0),
                        },
                    ]);
                }
                m = m + 1;
            }
            s = s + 1;
        }
        succs = next;
        b = b + 1;
    }
    succs
}

/// The successor store of every configuration of the given state.
pub fn expand_state_exec(state: &Vec<Configuration>, even: bool, rules: &Rules) -> (r: Vec<
    Configuration,
>)
    requires
        rules.wf(),
        state_bounded(state_views(state@), COORD_LIMIT as int),
    ensures
        state_views(r@) == expand_state(state_views(state@), even, rules@),
{
    let ghost sv = state_views(state@);
    let mut r: Vec<Configuration> = Vec::new();
    let mut k: usize = 0;
    proof {
        assert(state_views(r@) =~= expand_state_upto(sv, even, rules@, 0));
    }
    while k < state.len()
        invariant
            0 <= k <= state@.len(),
            sv == state_views(state@),
            sv.len() == state@.len(),
            rules.wf(),
            state_bounded(sv, COORD_LIMIT as int),
            state_views(r@) == expand_state_upto(sv, even, rules@, k as int),
        decreases state.len() - k,
    {
        proof {
            assert(sv[k as int].cells == state@[k as int].living_cells@);
        }
        let mut succ = expand_config_exec(&state[k], even, rules);
        let ghost before = state_views(r@);
        let ghost succ_v = state_views(succ@);
        r.append(&mut succ);
        proof {
            assert(state_views(r@) =~= before + succ_v);
        }
        k = k + 1;
    }
    r
}

/// Every cell of every configuration is within the magnitude `b`.
pub open spec fn state_bounded(state: Seq<ConfigView>, b: int) -> bool {
    forall|k: int| 0 <= k < state.len() ==> cells_bounded(#[trigger] state[k].cells, b)
}

/// Bookkeeping for the distinctness proof: a partial successor lists no
/// cell twice and every cell belongs to one of the first `b` active
/// blocks.
pub open spec fn succ_wf(s: ConfigView, origins: Seq<Coordinates>, b: int, even: bool) -> bool {
    cells_distinct(s.cells) && forall|i: int|
        0 <= i < s.cells.len() ==> exists|t: int|
            0 <= t < b && origin_coord((#[trigger] s.cells[i]).0, even) == origins[t]
}

/// Every cell of the block at an aligned origin maps back to that origin:
/// blocks of one tiling are pairwise disjoint.
proof fn lemma_cell_origin(o: Coordinates, k: int, even: bool)
    requires
        0 <= k < 4,
        aligned_coord(o, even),
        coord_in_bounds(o, COORD_LIMIT as int + 1),
    ensures
        origin_coord(cell_of_block(o, k), even) == o,
{
    lemma_block_cells_origin((o.x as int, o.y as int), k, even);
}

/// The cells an output pattern contributes are pairwise distinct and all
/// belong to the block at `o`.
proof fn lemma_pattern_cells_wf(o: Coordinates, p: int, even: bool)
    requires
        aligned_coord(o, even),
        coord_in_bounds(o, COORD_LIMIT as int + 1),
    ensures
        cells_distinct(pattern_cells(o, p)),
        forall|i: int|
            0 <= i < pattern_cells(o, p).len() ==> origin_coord(
                (#[trigger] pattern_cells(o, p)[i]).0,
                even,
            ) == o,
{
    lemma_cell_origin(o, 0, even);
    lemma_cell_origin(o, 1, even);
    lemma_cell_origin(o, 2, even);
    lemma_cell_origin(o, 3, even);
    let c0 = cell_of_block(o, 0);
    let c1 = cell_of_block(o, 1);
    let c2 = cell_of_block(o, 2);
    let c3 = cell_of_block(o, 3);
    assert(c0.x != c1.x && c0.y != c2.y && c0.x != c3.x);
    assert(c1.x != c2.x && c1.y != c3.y && c2.x != c3.x);
    let s = pattern_cells(o, p);
    assert(cells_distinct(s));
    assert forall|i: int| 0 <= i < s.len() implies origin_coord((#[trigger] s[i]).0, even) == o by {
        assert(s[i].0 == c0 || s[i].0 == c1 || s[i].0 == c2 || s[i].0 == c3);
    }
}

/// Extending well-formed partial successors by one block keeps them
/// well-formed: the new cells lie in a block that no earlier cell
/// touches.
proof fn lemma_apply_entries_wf(
    base: ConfigView,
    o: Coordinates,
    entries: Seq<(int, AmpView)>,
    m: int,
    origins: Seq<Coordinates>,
    b: int,
    even: bool,
)
    requires
        0 < b <= origins.len(),
        o == origins[b - 1],
        aligned_coord(o, even),
        coord_in_bounds(o, COORD_LIMIT as int + 1),
        crate::config::strictly_sorted(origins),
        succ_wf(base, origins, b - 1, even),
    ensures
        forall|q: int|
            0 <= q < apply_entries_upto(base, o, entries, m).len() ==> succ_wf(
                #[trigger] apply_entries_upto(base, o, entries, m)[q],
                origins,
                b,
                even,
            ),
    decreases m,
{
    if m <= 0 {
    } else {
        lemma_apply_entries_wf(base, o, entries, m - 1, origins, b, even);
        let pc = pattern_cells(o, entries[m - 1].0);
        lemma_pattern_cells_wf(o, entries[m - 1].0, even);
        let newcells = base.cells + pc;
        let nb = base.cells.len() as int;
        assert forall|i: int, j: int| 0 <= i < j < newcells.len() implies newcells[i].0
            != newcells[j].0 by {
            if j < nb {
            } else if i >= nb {
                assert(newcells[i] == pc[i - nb] && newcells[j] == pc[j - nb]);
            } else {
                assert(newcells[i] == base.cells[i]);
                assert(newcells[j] == pc[j - nb]);
                let t = choose|t: int|
                    0 <= t < b - 1 && origin_coord(base.cells[i].0, even) == origins[t];
                assert(origin_coord(pc[j - nb].0, even) == o);
                if newcells[i].0 == newcells[j].0 {
                    assert(origins[t] == origins[b - 1]);
                    assert(lex_lt(origins[t], origins[b - 1]));
                    assert(false);
                }
            }
        }
        assert forall|i: int| 0 <= i < newcells.len() implies exists|t: int|
            0 <= t < b && origin_coord((#[trigger] newcells[i]).0, even) == origins[t] by {
            if i < nb {
                assert(newcells[i] == base.cells[i]);
                let t = choose|t: int|
                    0 <= t < b - 1 && origin_coord(base.cells[i].0, even) == origins[t];
                assert(0 <= t < b && origin_coord(newcells[i].0, even) == origins[t]);
            } else {
                assert(newcells[i] == pc[i - nb]);
                assert(origin_coord(newcells[i].0, even) == origins[b - 1]);
            }
        }
        assert(succ_wf(
            ConfigView { amp: cmul(base.amp, entries[m - 1].1), cells: newcells },
            origins,
            b,
            even,
        ));
        assert forall|q: int| 0 <= q < apply_entries_upto(base, o, entries, m).len() implies succ_wf(
            #[trigger] apply_entries_upto(base, o, entries, m)[q],
            origins,
            b,
            even,
        ) by {
            let prev = apply_entries_upto(base, o, entries, m - 1);
            if q < prev.len() {
                assert(apply_entries_upto(base, o, entries, m)[q] == prev[q]);
            }
        }
    }
}

/// One block applied to a list of well-formed partial successors yields
/// well-formed partial successors.
proof fn lemma_apply_block_wf(
    ss: Seq<ConfigView>,
    o: Coordinates,
    entries: Seq<(int, AmpView)>,
    n: int,
    origins: Seq<Coordinates>,
    b: int,
    even: bool,
)
    requires
        0 < b <= origins.len(),
        o == origins[b - 1],
        aligned_coord(o, even),
        coord_in_bounds(o, COORD_LIMIT as int + 1),
        crate::config::strictly_sorted(origins),
        n <= ss.len(),
        forall|q: int| 0 <= q < ss.len() ==> succ_wf(#[trigger] ss[q], origins, b - 1, even),
    ensures
        forall|q: int|
            0 <= q < apply_block_upto(ss, o, entries, n).len() ==> succ_wf(
                #[trigger] apply_block_upto(ss, o, entries, n)[q],
                origins,
                b,
                even,
            ),
    decreases n,
{
    if n <= 0 {
    } else {
        lemma_apply_block_wf(ss, o, entries, n - 1, origins, b, even);
        lemma_apply_entries_wf(ss[n - 1], o, entries, entries.len() as int, origins, b, even);
        assert forall|q: int| 0 <= q < apply_block_upto(ss, o, entries, n).len() implies succ_wf(
            #[trigger] apply_block_upto(ss, o, entries, n)[q],
            origins,
            b,
            even,
        ) by {
            let prev = apply_block_upto(ss, o, entries, n - 1);
            let ext = apply_entries_upto(ss[n - 1], o, entries, entries.len() as int);
            if q < prev.len() {
                assert(apply_block_upto(ss, o, entries, n)[q] == prev[q]);
            } else {
                assert(apply_block_upto(ss, o, entries, n)[q] == ext[q - prev.len()]);
            }
        }
    }
}

/// The origins of a bounded cell list are aligned, bounded and strictly
/// sorted.
proof fn lemma_origins_spec_wf(cells: Seq<(Coordinates, bool)>, even: bool, b: int)
    requires
        cells_bounded(cells, b),
        0 <= b <= COORD_LIMIT as int,
    ensures
        crate::config::strictly_sorted(origins_spec(cells, even)),
        forall|t: int|
            0 <= t < origins_spec(cells, even).len() ==> aligned_coord(
                #[trigger] origins_spec(cells, even)[t],
                even,
            ) && coord_in_bounds(origins_spec(cells, even)[t], b + 1),
    decreases cells.len(),
{
    if cells.len() == 0 {
    } else {
        let front = cells.drop_last();
        assert(cells_bounded(front, b)) by {
            assert(forall|i: int| 0 <= i < front.len() ==> front[i] == cells[i]);
        }
        lemma_origins_spec_wf(front, even, b);
        let prev = origins_spec(front, even);
        let c = cells.last().0;
        let o = origin_coord(c, even);
        assert(coord_in_bounds(c, b)) by {
            assert(cells[cells.len() - 1].0 == c);
        }
        assert(c.x as int - 1 <= origin_val(c.x as int, even) <= c.x as int);
        assert(c.y as int - 1 <= origin_val(c.y as int, even) <= c.y as int);
        assert(o.x as int == origin_val(c.x as int, even));
        assert(o.y as int == origin_val(c.y as int, even));
        lemma_origin_idempotent(c.x as int, even);
        lemma_origin_idempotent(c.y as int, even);
        assert(aligned_coord(o, even));
        assert(coord_in_bounds(o, b + 1));
        crate::config::lemma_sorted_insert_props(prev, o);
        assert forall|t: int| 0 <= t < origins_spec(cells, even).len() implies aligned_coord(
            #[trigger] origins_spec(cells, even)[t],
            even,
        ) && coord_in_bounds(origins_spec(cells, even)[t], b + 1) by {
            let cur = origins_spec(cells, even);
            assert(cur.contains(cur[t]));
            if cur[t] == o {
            } else {
                assert(prev.contains(cur[t]));
                let u = choose|u: int| 0 <= u < prev.len() && prev[u] == cur[t];
            }
        }
    }
}

/// Every successor of a configuration with bounded cells lists each live
/// cell once: the active blocks are pairwise disjoint, and within one
/// block the four cells differ.
pub proof fn lemma_expand_config_distinct(cfg: ConfigView, even: bool, rules: Seq<AmpView>)
    requires
        cells_bounded(cfg.cells, COORD_LIMIT as int),
    ensures
        forall|q: int|
            0 <= q < expand_config_spec(cfg, even, rules).len() ==> cells_distinct(
                (#[trigger] expand_config_spec(cfg, even, rules)[q]).cells,
            ),
{
    let origins = origins_spec(cfg.cells, even);
    lemma_origins_spec_wf(cfg.cells, even, COORD_LIMIT as int);
    lemma_expand_blocks_wf(cfg, origins, rules, origins.len() as int, even);
    assert forall|q: int| 0 <= q < expand_config_spec(cfg, even, rules).len() implies
        cells_distinct((#[trigger] expand_config_spec(cfg, even, rules)[q]).cells) by {
        assert(succ_wf(
            expand_blocks_upto(cfg, origins, rules, origins.len() as int)[q],
            origins,
            origins.len() as int,
            even,
        ));
    }
}

/// The partial-successor invariant holds at every stage of the block
/// iteration.
proof fn lemma_expand_blocks_wf(
    cfg: ConfigView,
    origins: Seq<Coordinates>,
    rules: Seq<AmpView>,
    b: int,
    even: bool,
)
    requires
        0 <= b <= origins.len(),
        crate::config::strictly_sorted(origins),
        forall|t: int|
            0 <= t < origins.len() ==> aligned_coord(#[trigger] origins[t], even)
                && coord_in_bounds(origins[t], COORD_LIMIT as int + 1),
    ensures
        forall|q: int|
            0 <= q < expand_blocks_upto(cfg, origins, rules, b).len() ==> succ_wf(
                #[trigger] expand_blocks_upto(cfg, origins, rules, b)[q],
                origins,
                b,
                even,
            ),
    decreases b,
{
    if b <= 0 {
        let base = expand_blocks_upto(cfg, origins, rules, 0);
        assert(base == seq![ConfigView { amp: cfg.amp, cells: Seq::empty() }]);
        assert(succ_wf(base[0], origins, 0, even));
    } else {
        lemma_expand_blocks_wf(cfg, origins, rules, b - 1, even);
        let prev = expand_blocks_upto(cfg, origins, rules, b - 1);
        // A partial successor of stage b-1 is also one of stage b.
        assert forall|q: int| 0 <= q < prev.len() implies succ_wf(
            #[trigger] prev[q],
            origins,
            b - 1,
            even,
        ) by {}
        lemma_apply_block_wf(
            prev,
            origins[b - 1],
            row_entries_upto(rules, pattern_of(cfg.cells, origins[b - 1]), 16),
            prev.len() as int,
            origins,
            b,
            even,
        );
    }
}

/// Every configuration of the expanded store lists each live cell once.
pub proof fn lemma_expand_state_distinct(state: Seq<ConfigView>, even: bool, rules: Seq<AmpView>, k: int)
    requires
        0 <= k <= state.len(),
        state_bounded(state, COORD_LIMIT as int),
    ensures
        forall|q: int|
            0 <= q < expand_state_upto(state, even, rules, k).len() ==> cells_distinct(
                (#[trigger] expand_state_upto(state, even, rules, k)[q]).cells,
            ),
    decreases k,
{
    if k <= 0 {
    } else {
        lemma_expand_state_distinct(state, even, rules, k - 1);
        lemma_expand_config_distinct(state[k - 1], even, rules);
        assert forall|q: int| 0 <= q < expand_state_upto(state, even, rules, k).len() implies
            cells_distinct((#[trigger] expand_state_upto(state, even, rules, k)[q]).cells) by {
            let prev = expand_state_upto(state, even, rules, k - 1);
            let ext = expand_config_spec(state[k - 1], even, rules);
            if q < prev.len() {
                assert(expand_state_upto(state, even, rules, k)[q] == prev[q]);
            } else {
                assert(expand_state_upto(state, even, rules, k)[q] == ext[q - prev.len()]);
            }
        }
    }
}

/// The store after one full tick: expansion, then interference over the
/// expanded store with its materialized index.
pub open spec fn step_result(state: Seq<ConfigView>, even: bool, rules: Seq<AmpView>) -> Seq<
    ConfigView,
> {
    let ex = expand_state(state, even, rules);
    interfere_state(ex, marginals(ex))
}

impl Universe {
    /// One tick: every configuration is expanded over the blocks of the
    /// current parity that contain one of its live cells; the successor
    /// store replaces the store; parity flips and the counter advances;
    /// the index is materialized, the interference resolver runs, and the
    /// index is recomputed from the pruned store.
    pub fn step(&mut self)
        requires
            old(self).rules.wf(),
            state_bounded(state_views(old(self).state@), COORD_LIMIT as int),
            old(self).step_count < usize::MAX,
        ensures
            final(self).rules == old(self).rules,
            final(self).is_even_step == !old(self).is_even_step,
            final(self).step_count == old(self).step_count + 1,
            state_views(final(self).state@) == step_result(
                state_views(old(self).state@),
                old(self).is_even_step,
                old(self).rules@,
            ),
            index_views(final(self).combined_state@) == marginals(
                state_views(final(self).state@),
            ),
            final(self).wf(),
    {
        let even = self.is_even_step;
        let new_state = expand_state_exec(&self.state, even, &self.rules);
        self.state = new_state;
        self.is_even_step = !even;
        self.step_count = self.step_count + 1;
        self.compute_combined_state();
        self.solve_interference();
        self.compute_combined_state();
        proof {
            let sv0 = state_views(old(self).state@);
            let ex = expand_state(sv0, old(self).is_even_step, old(self).rules@);
            lemma_expand_state_distinct(
                sv0,
                old(self).is_even_step,
                old(self).rules@,
                sv0.len() as int,
            );
            crate::laws::lemma_interference_preserves_distinct(ex, marginals(ex));
        }
    }
}

} // verus!
