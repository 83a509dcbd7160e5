use vstd::prelude::*;

use crate::grid::{is_grid_of, lemma_members};
use crate::layout::{Layout, STRIDE};
use crate::store::{Particle, active_particles, encoded, is_zero_scalar, slot_count};

verus! {

/// Substeps that one tick runs; each integrates by a fifth of the tick.
pub const SUBSTEP_COUNT: usize = 5;

/// A tick hands back a buffer of the length it was given: whatever the
/// substeps make of the compacted collection, it still fits the buffer, and
/// writing it back yields exactly as many scalars.
pub proof fn lemma_tick_keeps_length(buf: Seq<u32>, layout: Layout, ps: Seq<Particle>)
    requires
        layout.wf(),
        buf.len() % (STRIDE as nat) == 0,
        ps.len() == active_particles(buf, layout, slot_count(buf)).len(),
    ensures
        ps.len() * STRIDE <= buf.len(),
        encoded(ps, layout, buf.len()).len() == buf.len(),
{
    crate::store::lemma_active_particles_bounds(buf, layout, slot_count(buf));
}

/// No empty slot reaches the broad phase: every item of a grid built over
/// the compacted collection names a particle with a non-zero radius.
pub proof fn lemma_grid_holds_only_active(
    buf: Seq<u32>,
    layout: Layout,
    dim: int,
    coords: Seq<(i64, i64)>,
    cells: Seq<crate::grid::GridCell>,
)
    requires
        layout.wf(),
        buf.len() % (STRIDE as nat) == 0,
        buf.len() <= usize::MAX,
        coords.len() == active_particles(buf, layout, slot_count(buf)).len(),
        is_grid_of(dim, coords, cells),
    ensures
        forall|k: int, t: int|
            0 <= k < cells.len() && 0 <= t < cells[k].items@.len() ==> {
                let ps = active_particles(buf, layout, slot_count(buf));
                &&& #[trigger] cells[k].items@[t] < ps.len()
                &&& !is_zero_scalar(ps[cells[k].items@[t] as int].radius)
            },
{
    let ps = active_particles(buf, layout, slot_count(buf));
    crate::store::lemma_active_particles_bounds(buf, layout, slot_count(buf));
    assert forall|k: int, t: int|
        0 <= k < cells.len() && 0 <= t < cells[k].items@.len() implies #[trigger] cells[k].items@[t]
        < ps.len() && !is_zero_scalar(ps[cells[k].items@[t] as int].radius) by {
        lemma_members(dim, coords, k, coords.len());
    }
}

} // verus!
