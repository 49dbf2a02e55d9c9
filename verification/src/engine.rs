//! The engine loop: advances a universe a given number of ticks, checking
//! before every tick that the live cells are within the step engine's
//! coordinate range and that the step counter can advance.

use vstd::prelude::*;
use crate::config::{Configuration, cells_bounded};
use crate::coords::COORD_LIMIT;
use crate::step::{state_bounded, step_result};
use crate::universe::{Universe, state_views, index_views, marginals};

verus! {

/// Whether every live cell of every configuration is within the step
/// engine's coordinate limit.
pub fn check_state_bounded(state: &Vec<Configuration>) -> (r: bool)
    ensures
        r == state_bounded(state_views(state@), COORD_LIMIT as int),
{
    let mut k: usize = 0;
    while k < state.len()
        invariant
            0 <= k <= state@.len(),
            forall|i: int|
                0 <= i < k ==> cells_bounded(
                    #[trigger] state_views(state@)[i].cells,
                    COORD_LIMIT as int,
                ),
        decreases state.len() - k,
    {
        let cells = &state[k].living_cells;
        let mut j: usize = 0;
        while j < cells.len()
            invariant
                0 <= j <= cells@.len(),
                k < state@.len(),
                cells@ == state@[k as int].living_cells@,
                forall|i: int|
                    0 <= i < j ==> crate::coords::coord_in_bounds(
                        #[trigger] cells@[i].0,
                        COORD_LIMIT as int,
                    ),
            decreases cells.len() - j,
        {
            let c = cells[j].0;
            if !(-COORD_LIMIT <= c.x && c.x <= COORD_LIMIT && -COORD_LIMIT <= c.y && c.y
                <= COORD_LIMIT) {
                proof {
                    assert(state_views(state@)[k as int].cells == cells@);
                    assert(!cells_bounded(cells@, COORD_LIMIT as int));
                }
                return false;
            }
            j = j + 1;
        }
        proof {
            assert(state_views(state@)[k as int].cells == cells@);
            assert(cells_bounded(state_views(state@)[k as int].cells, COORD_LIMIT as int));
        }
        k = k + 1;
    }
    true
}

/// The store, parity and counter after at most `ticks` ticks: each tick
/// applies `step_result` and flips parity, stopping early where a live
/// cell has left the engine's coordinate range or the counter cannot
/// advance.
pub open spec fn run_spec(
    state: Seq<crate::config::ConfigView>,
    even: bool,
    count: int,
    rules: Seq<crate::amplitude::AmpView>,
    ticks: int,
) -> (Seq<crate::config::ConfigView>, bool, int)
    decreases ticks,
{
    if ticks <= 0 || !state_bounded(state, COORD_LIMIT as int) || count >= usize::MAX as int {
        (state, even, count)
    } else {
        run_spec(step_result(state, even, rules), !even, count + 1, rules, ticks - 1)
    }
}

/// Advances the universe by up to `ticks` ticks. The parity flag after
/// the call agrees with the starting flag exactly when an even number of
/// ticks ran; after at least one tick, the combined-state index matches
/// the marginals of the final store.
pub fn run(universe: &mut Universe, ticks: usize)
    requires
        old(universe).rules.wf(),
    ensures
        final(universe).rules == old(universe).rules,
        ({
            let r = run_spec(
                state_views(old(universe).state@),
                old(universe).is_even_step,
                old(universe).step_count as int,
                old(universe).rules@,
                ticks as int,
            );
            state_views(final(universe).state@) == r.0 && final(universe).is_even_step == r.1
                && final(universe).step_count as int == r.2
        }),
        old(universe).step_count <= final(universe).step_count,
        (final(universe).is_even_step == old(universe).is_even_step) <==> ((
        final(universe).step_count - old(universe).step_count) % 2 == 0),
        final(universe).step_count > old(universe).step_count ==> index_views(
            final(universe).combined_state@,
        ) == marginals(state_views(final(universe).state@)),
{
    let ghost s_init = state_views(universe.state@);
    let ghost even_init = universe.is_even_step;
    let ghost count_init = universe.step_count as int;
    let ghost rv = universe.rules@;
    let mut t: usize = 0;
    while t < ticks
        invariant
            0 <= t <= ticks,
            s_init == state_views(old(universe).state@),
            even_init == old(universe).is_even_step,
            count_init == old(universe).step_count as int,
            rv == old(universe).rules@,
            universe.rules == old(universe).rules,
            universe.rules@ == rv,
            universe.rules.wf(),
            universe.step_count as int == count_init + t,
            count_init + t <= usize::MAX as int,
            run_spec(s_init, even_init, count_init, rv, ticks as int) == run_spec(
                state_views(universe.state@),
                universe.is_even_step,
                universe.step_count as int,
                rv,
                (ticks - t) as int,
            ),
            universe.is_even_step == (if (t as int) % 2 == 0 {
                even_init
            } else {
                !even_init
            }),
            t > 0 ==> index_views(universe.combined_state@) == marginals(
                state_views(universe.state@),
            ),
            t == 0 ==> universe.state == old(universe).state && universe.combined_state
                == old(universe).combined_state,
        decreases ticks - t,
    {
        let bounded = check_state_bounded(&universe.state);
        if !bounded || universe.step_count == usize::MAX {
            proof {
                assert(run_spec(
                    state_views(universe.state@),
                    universe.is_even_step,
                    universe.step_count as int,
                    rv,
                    (ticks - t) as int,
                ) == (state_views(universe.state@), universe.is_even_step, universe.step_count as int));
            }
            return;
        }
        universe.step();
        t = t + 1;
    }
}

} // verus!
