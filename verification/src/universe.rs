//! The Universe: the mutable superposition of configurations, the
//! combined-state index (per-cell marginal probabilities), the parity flag
//! and the step counter, under an immutable rule table.

use vstd::prelude::*;
use crate::amplitude::{Amplitude, AmpView, cadd, cnorm, ONE_BITS};
use crate::config::{Configuration, ConfigView, cells_distinct};
use crate::coords::Coordinates;
use crate::rules::{Rules, RuleError, get_default_rules, default_rules_spec, default_rules_evals_ok};

verus! {

/// The views of a stored state, in order.
pub open spec fn state_views(s: Seq<Configuration>) -> Seq<ConfigView> {
    s.map_values(|c: Configuration| c@)
}

/// The views of a stored combined-state index, in order.
pub open spec fn index_views(ix: Seq<(Coordinates, Amplitude)>) -> Seq<(Coordinates, AmpView)> {
    ix.map_values(|p: (Coordinates, Amplitude)| (p.0, p.1@))
}

/// Whether the index holds an entry for `c`.
pub open spec fn index_has_key(ix: Seq<(Coordinates, AmpView)>, c: Coordinates) -> bool {
    exists|i: int| 0 <= i < ix.len() && ix[i].0 == c
}

/// The first position of `c` in the index (the index length if absent).
pub open spec fn index_first(ix: Seq<(Coordinates, AmpView)>, c: Coordinates) -> int
    decreases ix.len(),
{
    if ix.len() == 0 {
        0
    } else if ix[0].0 == c {
        0
    } else {
        1 + index_first(ix.drop_first(), c)
    }
}

/// `index_first` returns the position of the first match, scanning
/// forward.
pub proof fn lemma_index_first_at(ix: Seq<(Coordinates, AmpView)>, c: Coordinates, i: int)
    requires
        0 <= i <= ix.len(),
        forall|j: int| 0 <= j < i ==> ix[j].0 != c,
        i < ix.len() ==> ix[i].0 == c,
    ensures
        index_first(ix, c) == i,
        i == ix.len() ==> !index_has_key(ix, c),
        i < ix.len() ==> index_has_key(ix, c),
    decreases ix.len(),
{
    if ix.len() == 0 {
    } else if i == 0 {
    } else {
        let tail = ix.drop_first();
        assert(forall|j: int| 0 <= j < i - 1 ==> tail[j] == ix[j + 1]);
        assert(i - 1 < tail.len() ==> tail[i - 1] == ix[i]);
        lemma_index_first_at(tail, c, i - 1);
        if i == ix.len() {
            if index_has_key(ix, c) {
                let j = choose|j: int| 0 <= j < ix.len() && ix[j].0 == c;
                assert(false);
            }
        } else {
            assert(index_has_key(ix, c)) by { assert(ix[i].0 == c); }
        }
    }
}

/// Adding `v` to the accumulator of `c`: on a present key the first entry
/// grows by complex addition, on an absent key a fresh entry is appended.
pub open spec fn index_add(
    ix: Seq<(Coordinates, AmpView)>,
    c: Coordinates,
    v: AmpView,
) -> Seq<(Coordinates, AmpView)> {
    if index_has_key(ix, c) {
        let i = index_first(ix, c);
        ix.update(i, (c, cadd(ix[i].1, v)))
    } else {
        ix.push((c, v))
    }
}

/// The index after accumulating the squared magnitude of one
/// configuration into the entries of its first `j` cells.
pub open spec fn add_config_marginal(
    ix: Seq<(Coordinates, AmpView)>,
    cfg: ConfigView,
    j: int,
) -> Seq<(Coordinates, AmpView)>
    decreases j,
{
    if j <= 0 {
        ix
    } else {
        index_add(add_config_marginal(ix, cfg, j - 1), cfg.cells[j - 1].0, cnorm(cfg.amp))
    }
}

/// The index after accumulating the first `k` configurations.
pub open spec fn marginals_upto(state: Seq<ConfigView>, k: int) -> Seq<(Coordinates, AmpView)>
    decreases k,
{
    if k <= 0 {
        Seq::empty()
    } else {
        add_config_marginal(marginals_upto(state, k - 1), state[k - 1], state[k - 1].cells.len() as int)
    }
}

/// The combined-state index determined by a state: for every live cell
/// `c`, the accumulated squared magnitudes of the configurations that
/// contain `c`, one entry per distinct live cell.
pub open spec fn marginals(state: Seq<ConfigView>) -> Seq<(Coordinates, AmpView)> {
    marginals_upto(state, state.len() as int)
}


/// The value the index holds for `c`, if any.
pub open spec fn index_lookup(ix: Seq<(Coordinates, AmpView)>, c: Coordinates) -> Option<AmpView> {
    if index_has_key(ix, c) {
        Some(ix[index_first(ix, c)].1)
    } else {
        None
    }
}

/// The accumulated squared magnitudes of the configurations among the
/// first `k` that contain `c`: absent where none does.
pub open spec fn cell_sum(state: Seq<ConfigView>, c: Coordinates, k: int) -> Option<AmpView>
    decreases k,
{
    if k <= 0 {
        None
    } else {
        let prev = cell_sum(state, c, k - 1);
        if crate::config::cells_contain(state[k - 1].cells, c) {
            match prev {
                Option::None => Some(cnorm(state[k - 1].amp)),
                Option::Some(v) => Some(cadd(v, cnorm(state[k - 1].amp))),
            }
        } else {
            prev
        }
    }
}

/// Sequences with the same keys agree on key positions and presence.
proof fn lemma_index_first_same_keys(
    a: Seq<(Coordinates, AmpView)>,
    b: Seq<(Coordinates, AmpView)>,
    c: Coordinates,
)
    requires
        a.len() == b.len(),
        forall|t: int| 0 <= t < a.len() ==> (#[trigger] a[t]).0 == b[t].0,
    ensures
        index_first(a, c) == index_first(b, c),
        index_has_key(a, c) == index_has_key(b, c),
    decreases a.len(),
{
    if a.len() == 0 {
    } else {
        let at = a.drop_first();
        let bt = b.drop_first();
        assert(forall|t: int| 0 <= t < at.len() ==> (#[trigger] at[t]).0 == a[t + 1].0);
        assert(forall|t: int| 0 <= t < bt.len() ==> (#[trigger] bt[t]).0 == b[t + 1].0);
        lemma_index_first_same_keys(at, bt, c);
        if index_has_key(a, c) {
            let t = choose|t: int| 0 <= t < a.len() && a[t].0 == c;
            if t > 0 {
                assert(bt[t - 1].0 == c);
                assert(index_has_key(b, c)) by {
                    assert(b[t].0 == c);
                }
            }
        }
        if index_has_key(b, c) {
            let t = choose|t: int| 0 <= t < b.len() && b[t].0 == c;
            if t > 0 {
                assert(index_has_key(a, c)) by {
                    assert(a[t].0 == c);
                }
            }
        }
    }
}

/// `index_first` points at the first position holding the key.
proof fn lemma_index_first_hits(ix: Seq<(Coordinates, AmpView)>, c: Coordinates)
    requires
        index_has_key(ix, c),
    ensures
        0 <= index_first(ix, c) < ix.len(),
        ix[index_first(ix, c)].0 == c,
        forall|t: int| 0 <= t < index_first(ix, c) ==> (#[trigger] ix[t]).0 != c,
    decreases ix.len(),
{
    if ix[0].0 == c {
    } else {
        let tail = ix.drop_first();
        assert(index_has_key(tail, c)) by {
            let t = choose|t: int| 0 <= t < ix.len() && ix[t].0 == c;
            assert(tail[t - 1].0 == c);
        }
        lemma_index_first_hits(tail, c);
        assert(ix[index_first(ix, c)] == tail[index_first(tail, c)]);
        assert forall|t: int| 0 <= t < index_first(ix, c) implies (#[trigger] ix[t]).0 != c by {
            if t > 0 {
                assert(ix[t] == tail[t - 1]);
            }
        }
    }
}

/// Accumulating under key `c` acts on the lookup of `c` as an addition
/// (or an insertion), and leaves every other key alone.
proof fn lemma_index_add_lookup(
    ix: Seq<(Coordinates, AmpView)>,
    c: Coordinates,
    v: AmpView,
    d: Coordinates,
)
    ensures
        d == c ==> index_lookup(index_add(ix, c, v), c) == (match index_lookup(ix, c) {
            Option::None => Some(v),
            Option::Some(w) => Some(cadd(w, v)),
        }),
        d != c ==> index_lookup(index_add(ix, c, v), d) == index_lookup(ix, d),
{
    let r = index_add(ix, c, v);
    if index_has_key(ix, c) {
        let i = index_first(ix, c);
        lemma_index_first_hits(ix, c);
        assert(r == ix.update(i, (c, cadd(ix[i].1, v))));
        assert(forall|t: int| 0 <= t < ix.len() ==> (#[trigger] ix[t]).0 == r[t].0);
        lemma_index_first_same_keys(ix, r, c);
        lemma_index_first_same_keys(ix, r, d);
        if d != c && index_has_key(ix, d) {
            lemma_index_first_hits(ix, d);
            assert(index_first(ix, d) != i);
        }
    } else {
        assert(r == ix.push((c, v)));
        if d == c {
            assert(forall|t: int| 0 <= t < ix.len() ==> (#[trigger] ix[t]).0 != c);
            assert(forall|t: int| 0 <= t < r.len() - 1 ==> (#[trigger] r[t]).0 != c);
            assert(r[r.len() - 1].0 == c);
            lemma_index_first_at(r, c, r.len() - 1);
        } else {
            if index_has_key(ix, d) {
                let t = choose|t: int| 0 <= t < ix.len() && ix[t].0 == d;
                assert(index_has_key(r, d)) by {
                    assert(r[t].0 == d);
                }
                lemma_index_first_hits(ix, d);
                lemma_index_first_hits(r, d);
                let fi = index_first(ix, d);
                let fr = index_first(r, d);
                assert(forall|t2: int| 0 <= t2 < fi ==> (#[trigger] ix[t2]).0 != d);
                assert(forall|t2: int| 0 <= t2 < fi ==> (#[trigger] r[t2]).0 != d);
                lemma_index_first_at(r, d, fi);
            } else {
                if index_has_key(r, d) {
                    let t = choose|t: int| 0 <= t < r.len() && r[t].0 == d;
                    assert(t < ix.len() ==> ix[t].0 == d);
                    assert(false);
                }
            }
        }
    }
}

/// Accumulating one configuration changes the lookup of `c` exactly when
/// the configuration contains `c`, and then adds its squared magnitude
/// once: a duplicate-free cell list touches each key at most once.
proof fn lemma_add_config_lookup(
    ix: Seq<(Coordinates, AmpView)>,
    cfg: ConfigView,
    j: int,
    c: Coordinates,
)
    requires
        cells_distinct(cfg.cells),
        0 <= j <= cfg.cells.len(),
    ensures
        index_lookup(add_config_marginal(ix, cfg, j), c) == (if exists|i: int|
            0 <= i < j && (#[trigger] cfg.cells[i]).0 == c {
            match index_lookup(ix, c) {
                Option::None => Some(cnorm(cfg.amp)),
                Option::Some(w) => Some(cadd(w, cnorm(cfg.amp))),
            }
        } else {
            index_lookup(ix, c)
        }),
    decreases j,
{
    if j <= 0 {
    } else {
        lemma_add_config_lookup(ix, cfg, j - 1, c);
        let prev = add_config_marginal(ix, cfg, j - 1);
        lemma_index_add_lookup(prev, cfg.cells[j - 1].0, cnorm(cfg.amp), c);
        if cfg.cells[j - 1].0 == c {
            assert(forall|i: int| 0 <= i < j - 1 ==> (#[trigger] cfg.cells[i]).0 != c);
            assert(exists|i: int| 0 <= i < j && (#[trigger] cfg.cells[i]).0 == c) by {
                assert(cfg.cells[j - 1].0 == c);
            }
        } else {
            if exists|i: int| 0 <= i < j && (#[trigger] cfg.cells[i]).0 == c {
                let i = choose|i: int| 0 <= i < j && (#[trigger] cfg.cells[i]).0 == c;
                assert(exists|i2: int| 0 <= i2 < j - 1 && (#[trigger] cfg.cells[i2]).0 == c) by {
                    assert(cfg.cells[i].0 == c && i < j - 1);
                }
            }
        }
    }
}

/// The combined-state index holds, for every coordinate, exactly the
/// accumulated squared magnitudes of the configurations that contain it,
/// and holds a key exactly for the live cells of the store.
pub proof fn lemma_marginals_cell_sum(state: Seq<ConfigView>, c: Coordinates, k: int)
    requires
        state_wf(state),
        0 <= k <= state.len(),
    ensures
        index_lookup(marginals_upto(state, k), c) == cell_sum(state, c, k),
    decreases k,
{
    if k <= 0 {
        if index_has_key(marginals_upto(state, 0), c) {
            let t = choose|t: int|
                0 <= t < marginals_upto(state, 0).len() && marginals_upto(state, 0)[t].0 == c;
        }
    } else {
        lemma_marginals_cell_sum(state, c, k - 1);
        let cfg = state[k - 1];
        lemma_add_config_lookup(marginals_upto(state, k - 1), cfg, cfg.cells.len() as int, c);
        assert((exists|i: int|
            0 <= i < cfg.cells.len() && (#[trigger] cfg.cells[i]).0 == c)
            == crate::config::cells_contain(cfg.cells, c));
    }
}

/// Every configuration of a state has a duplicate-free cell list.
pub open spec fn state_wf(state: Seq<ConfigView>) -> bool {
    forall|k: int| 0 <= k < state.len() ==> cells_distinct(#[trigger] state[k].cells)
}

/// Scans an index vector for a key.
pub fn index_find(ix: &Vec<(Coordinates, Amplitude)>, c: &Coordinates) -> (pos: usize)
    ensures
        pos <= ix@.len(),
        pos < ix@.len() ==> ix@[pos as int].0 == *c && index_has_key(index_views(ix@), *c)
            && pos as int == index_first(index_views(ix@), *c),
        pos == ix@.len() ==> !index_has_key(index_views(ix@), *c),
{
    let mut i: usize = 0;
    while i < ix.len()
        invariant
            0 <= i <= ix.len(),
            forall|j: int| 0 <= j < i ==> ix@[j].0 != *c,
        decreases ix.len() - i,
    {
        if ix[i].0 == *c {
            proof {
                assert(forall|j: int| 0 <= j < i ==> index_views(ix@)[j].0 != *c);
                lemma_index_first_at(index_views(ix@), *c, i as int);
            }
            return i;
        }
        i = i + 1;
    }
    proof {
        assert(forall|j: int| 0 <= j < ix@.len() ==> index_views(ix@)[j].0 != *c);
        lemma_index_first_at(index_views(ix@), *c, ix@.len() as int);
    }
    i
}

/// Adds `v` to the accumulator of `c` in the index vector, inserting the
/// entry if it is absent.
pub fn index_accumulate(ix: &mut Vec<(Coordinates, Amplitude)>, c: Coordinates, v: Amplitude)
    ensures
        index_views(final(ix)@) == index_add(index_views(old(ix)@), c, v@),
{
    let ghost before = index_views(ix@);
    let pos = index_find(ix, &c);
    if pos < ix.len() {
        let key = ix[pos].0;
        let sum = ix[pos].1.add(&v);
        ix[pos] = (key, sum);
        proof {
            assert(index_views(ix@) =~= before.update(
                pos as int,
                (c, cadd(before[pos as int].1, v@)),
            ));
        }
    } else {
        ix.push((c, v));
        proof {
            assert(index_views(ix@) =~= before.push((c, v@)));
        }
    }
}

/// The branching universe: the superposition, its combined-state index,
/// the tiling parity, the rule table and the step counter.
pub struct Universe {
    pub state: Vec<Configuration>,
    pub combined_state: Vec<(Coordinates, Amplitude)>,
    pub is_even_step: bool,
    pub rules: Rules,
    pub step_count: usize,
}

impl Universe {
    /// Well-formedness: a complete rule table and duplicate-free cell
    /// lists.
    pub open spec fn wf(&self) -> bool {
        self.rules.wf() && state_wf(state_views(self.state@))
    }

    /// Recomputes the combined-state index from the store: clears it,
    /// then, for each configuration and each of its live cells, adds the
    /// configuration's squared magnitude to the cell's accumulator.
    pub fn compute_combined_state(&mut self)
        ensures
            final(self).state == old(self).state,
            final(self).rules == old(self).rules,
            final(self).is_even_step == old(self).is_even_step,
            final(self).step_count == old(self).step_count,
            index_views(final(self).combined_state@) == marginals(state_views(old(self).state@)),
    {
        let ghost sv = state_views(self.state@);
        let mut ix: Vec<(Coordinates, Amplitude)> = Vec::new();
        let mut k: usize = 0;
        while k < self.state.len()
            invariant
                0 <= k <= self.state@.len(),
                sv == state_views(self.state@),
                sv.len() == self.state@.len(),
                index_views(ix@) == marginals_upto(sv, k as int),
            decreases self.state@.len() - k,
        {
            let ghost ix_k = index_views(ix@);
            let ghost cfgv = sv[k as int];
            let cells_len = self.state[k].living_cells.len();
            proof {
                assert(cfgv == self.state@[k as int]@);
                assert(cfgv.cells == self.state@[k as int].living_cells@);
            }
            let mut j: usize = 0;
            while j < cells_len
                invariant
                    0 <= j <= cells_len,
                    k < self.state@.len(),
                    sv == state_views(self.state@),
                    sv.len() == self.state@.len(),
                    cfgv == sv[k as int],
                    cfgv.cells == self.state@[k as int].living_cells@,
                    cells_len == cfgv.cells.len(),
                    index_views(ix@) == add_config_marginal(ix_k, cfgv, j as int),
                decreases cells_len - j,
            {
                let c = self.state[k].living_cells[j].0;
                let n = self.state[k].amplitude.norm_sqr_amp();
                proof {
                    assert(n@ == cnorm(cfgv.amp));
                    assert(c == cfgv.cells[j as int].0);
                }
                index_accumulate(&mut ix, c, n);
                j = j + 1;
            }
            k = k + 1;
        }
        proof {
            assert(index_views(ix@) == marginals(sv));
        }
        self.combined_state = ix;
    }

    /// A fresh universe: one configuration with amplitude 1+0i and no
    /// live cell, an empty index, even parity, step zero, and the default
    /// rule table. Fails exactly where the default table fails to load.
    pub fn new() -> (r: Result<Universe, RuleError>)
        ensures
            r is Ok <==> default_rules_evals_ok(),
            r matches Ok(u) ==> u.wf() && u.rules@ == default_rules_spec() && u.is_even_step
                && u.step_count == 0 && u.combined_state@.len() == 0 && index_views(
                u.combined_state@,
            ) == marginals(state_views(u.state@)) && state_views(u.state@) =~= seq![
                ConfigView { amp: AmpView { re: ONE_BITS, im: 0 }, cells: Seq::empty() },
            ],
    {
        let rules = match get_default_rules() {
            Ok(rules) => rules,
            Err(e) => {
                return Err(e);
            },
        };
        let configuration = Configuration { amplitude: Amplitude::one(), living_cells: Vec::new() };
        let mut state: Vec<Configuration> = Vec::new();
        state.push(configuration);
        let u = Universe {
            state,
            combined_state: Vec::new(),
            is_even_step: true,
            rules,
            step_count: 0,
        };
        proof {
            assert(state_views(u.state@) =~= seq![
                ConfigView { amp: AmpView { re: ONE_BITS, im: 0 }, cells: Seq::empty() },
            ]);
            let sv = state_views(u.state@);
            assert(sv[0].cells.len() == 0);
            assert(marginals_upto(sv, 0) == Seq::<(Coordinates, AmpView)>::empty());
            assert(add_config_marginal(marginals_upto(sv, 0), sv[0], 0) == marginals_upto(sv, 0));
            assert(marginals(sv) =~= Seq::<(Coordinates, AmpView)>::empty());
            assert(index_views(u.combined_state@) =~= marginals(sv));
        }
        Ok(u)
    }

    /// Restores the fresh state: one empty configuration with amplitude
    /// 1+0i, an empty index, even parity, step zero. The rule table is
    /// kept.
    pub fn reset(&mut self)
        requires
            old(self).rules.wf(),
        ensures
            final(self).rules == old(self).rules,
            final(self).is_even_step,
            final(self).step_count == 0,
            final(self).combined_state@.len() == 0,
            index_views(final(self).combined_state@) == marginals(state_views(final(self).state@)),
            state_views(final(self).state@) =~= seq![
                ConfigView { amp: AmpView { re: ONE_BITS, im: 0 }, cells: Seq::empty() },
            ],
            final(self).wf(),
    {
        let configuration = Configuration { amplitude: Amplitude::one(), living_cells: Vec::new() };
        let mut state: Vec<Configuration> = Vec::new();
        state.push(configuration);
        self.state = state;
        self.combined_state = Vec::new();
        self.is_even_step = true;
        self.step_count = 0;
        proof {
            assert(state_views(self.state@) =~= seq![
                ConfigView { amp: AmpView { re: ONE_BITS, im: 0 }, cells: Seq::empty() },
            ]);
            let sv = state_views(self.state@);
            assert(sv[0].cells.len() == 0);
            assert(marginals_upto(sv, 0) == Seq::<(Coordinates, AmpView)>::empty());
            assert(add_config_marginal(marginals_upto(sv, 0), sv[0], 0) == marginals_upto(sv, 0));
            assert(marginals(sv) =~= Seq::<(Coordinates, AmpView)>::empty());
            assert(index_views(self.combined_state@) =~= marginals(sv));
        }
    }

    /// Builds a universe from an already-parsed state and a rule table:
    /// the given configurations verbatim, with the index materialized.
    /// Rejects exactly the states in which some configuration lists a
    /// coordinate twice.
    pub fn new_from_state(state: Vec<Configuration>, rules: Rules) -> (r: Result<
        Universe,
        StateError,
    >)
        requires
            rules.wf(),
        ensures
            r is Ok <==> state_wf(state_views(state@)),
            r matches Ok(u) ==> u.state == state && u.rules == rules && u.is_even_step
                && u.step_count == 0 && u.wf() && index_views(u.combined_state@) == marginals(
                state_views(state@),
            ),
            r matches Err(e) ==> e == StateError::DuplicateCell,
    {
        let mut k: usize = 0;
        while k < state.len()
            invariant
                0 <= k <= state@.len(),
                forall|i: int| 0 <= i < k ==> cells_distinct(#[trigger] state_views(state@)[i].cells),
            decreases state@.len() - k,
        {
            if !check_cells_distinct(&state[k].living_cells) {
                proof {
                    assert(state_views(state@)[k as int].cells == state@[k as int].living_cells@);
                }
                return Err(StateError::DuplicateCell);
            }
            proof {
                assert(state_views(state@)[k as int].cells == state@[k as int].living_cells@);
            }
            k = k + 1;
        }
        let mut u = Universe {
            state,
            combined_state: Vec::new(),
            is_even_step: true,
            rules,
            step_count: 0,
        };
        u.compute_combined_state();
        Ok(u)
    }
}

/// Errors of state construction.
#[derive(Clone, Copy, PartialEq, Eq, Structural, Debug)]
pub enum StateError {
    /// A configuration lists the same coordinate twice.
    DuplicateCell,
}

/// Whether a cell list is duplicate-free.
pub fn check_cells_distinct(cells: &Vec<(Coordinates, bool)>) -> (r: bool)
    ensures
        r == cells_distinct(cells@),
{
    let mut i: usize = 0;
    while i < cells.len()
        invariant
            0 <= i <= cells.len(),
            forall|p: int, q: int| 0 <= p < q < cells@.len() && p < i ==> cells@[p].0 != cells@[q].0,
        decreases cells.len() - i,
    {
        let mut j: usize = i + 1;
        while j < cells.len()
            invariant
                0 <= i < j <= cells.len(),
                forall|p: int, q: int| 0 <= p < q < cells@.len() && p < i ==> cells@[p].0 != cells@[q].0,
                forall|q: int| i < q < j ==> cells@[i as int].0 != cells@[q].0,
            decreases cells.len() - j,
        {
            if cells[i].0 == cells[j].0 {
                return false;
            }
            j = j + 1;
        }
        i = i + 1;
    }
    true
}

} // verus!
