//! Entry points of the collector for the rest of the runtime.
use vstd::prelude::*;
use crate::collector::{freeable, freeable_count, Collector};
use crate::header::Phase;
use crate::pause::{pass_due, GcTimer};
use crate::status::GcResult;

verus! {

/// What an enabled pass over `old` promises of its result `r` and the heap
/// `new` it leaves: the first phase frees, and counts, every buffered entry
/// destroyed while buffered, black and at zero; and every live object the
/// pass flags as cyclic garbage ends freed.
pub open spec fn pass_result(old: Collector, new: Collector, r: GcResult) -> bool {
    &&& r.acyclic_cnt == freeable_count(old.headers(), old.root_buffer())
    &&& forall|k: int|
        0 <= k < old.root_buffer().len() && freeable(old.hdr(old.root_buffer()[k] as int))
            ==> #[trigger] new.hdr(old.root_buffer()[k] as int).phase == Phase::Freed
    &&& r.cyclic_cnt <= old.len()
    &&& forall|o: int|
        0 <= o < old.len() && #[trigger] new.hdr(o).in_cycle && !old.hdr(o).in_cycle && old.hdr(
            o,
        ).phase == Phase::Live ==> new.hdr(o).phase == Phase::Freed
}

/// Both counts of a pass together, stopping at the largest `usize`.
pub open spec fn saturating_total(r: GcResult) -> int {
    if r.acyclic_cnt + r.cyclic_cnt <= usize::MAX {
        r.acyclic_cnt + r.cyclic_cnt
    } else {
        usize::MAX as int
    }
}

/// An explicit collection: a whole pass, unless collection is disabled, a
/// pass is already open or the root buffer is empty.
pub fn collect(gc: &mut Collector) -> (r: GcResult)
    requires
        old(gc).wf(),
    ensures
        final(gc).wf(),
        final(gc).len() == old(gc).len(),
        !old(gc).is_enabled_spec() || old(gc).in_pass() || old(gc).root_buffer().len() == 0
            ==> *final(gc) == *old(gc) && r == GcResult::empty_spec(),
        old(gc).is_enabled_spec() && !old(gc).in_pass() ==> pass_result(*old(gc), *final(gc), r),
{
    gc.collect()
}

/// An opportunistic collection: runs a pass only when one is due by the
/// timer (`now_ms` is the caller's clock) and collection is enabled.
pub fn try_gc(gc: &mut Collector, timer: &mut GcTimer, now_ms: u64) -> (r: GcResult)
    requires
        old(gc).wf(),
    ensures
        final(gc).wf(),
        final(gc).len() == old(gc).len(),
        !(old(gc).is_enabled_spec() && pass_due(
            *old(timer),
            old(gc).root_buffer().len(),
            old(gc).in_pass(),
            now_ms,
        )) ==> *final(gc) == *old(gc) && r == GcResult::empty_spec() && *final(timer) == *old(
            timer,
        ),
        old(gc).is_enabled_spec() && pass_due(
            *old(timer),
            old(gc).root_buffer().len(),
            old(gc).in_pass(),
            now_ms,
        ) ==> final(timer).last_gc_ms == now_ms && pass_result(*old(gc), *final(gc), r),
{
    if !gc.is_enabled() {
        return GcResult::empty();
    }
    if timer.should_gc(gc.roots_len(), gc.is_pass_open(), now_ms) {
        gc.collect()
    } else {
        GcResult::empty()
    }
}

/// Runs a pass and returns how many objects it freed in all.
pub fn try_collect(gc: &mut Collector) -> (r: usize)
    requires
        old(gc).wf(),
    ensures
        final(gc).wf(),
        final(gc).len() == old(gc).len(),
        !old(gc).is_enabled_spec() || old(gc).in_pass() || old(gc).root_buffer().len() == 0
            ==> *final(gc) == *old(gc) && r == 0,
        old(gc).is_enabled_spec() && !old(gc).in_pass() ==> exists|res: GcResult|
            pass_result(*old(gc), *final(gc), res) && r == saturating_total(res),
{
    let res = gc.collect();
    let r = match res.total() {
        Some(t) => t,
        None => usize::MAX,
    };
    proof {
        if old(gc).is_enabled_spec() && !old(gc).in_pass() {
            assert(pass_result(*old(gc), *gc, res) && r == saturating_total(res));
        }
    }
    r
}

pub fn isenabled(gc: &Collector) -> (r: bool)
    ensures
        r == gc.is_enabled_spec(),
{
    gc.is_enabled()
}

pub fn enable(gc: &mut Collector)
    requires
        old(gc).wf(),
    ensures
        final(gc).wf(),
        final(gc).is_enabled_spec(),
        final(gc).headers() == old(gc).headers(),
        final(gc).root_buffer() == old(gc).root_buffer(),
        final(gc).len() == old(gc).len(),
        final(gc).in_pass() == old(gc).in_pass(),
        forall|o: int| 0 <= o < old(gc).len() ==> final(gc).refs(o) == old(gc).refs(o)
            && final(gc).traceable_at(o) == old(gc).traceable_at(o),
{
    gc.enable()
}

pub fn disable(gc: &mut Collector)
    requires
        old(gc).wf(),
    ensures
        final(gc).wf(),
        !final(gc).is_enabled_spec(),
        final(gc).headers() == old(gc).headers(),
        final(gc).root_buffer() == old(gc).root_buffer(),
        final(gc).len() == old(gc).len(),
        final(gc).in_pass() == old(gc).in_pass(),
        forall|o: int| 0 <= o < old(gc).len() ==> final(gc).refs(o) == old(gc).refs(o)
            && final(gc).traceable_at(o) == old(gc).traceable_at(o),
{
    gc.disable()
}

pub fn setenabled(gc: &mut Collector, enabled: bool)
    requires
        old(gc).wf(),
    ensures
        final(gc).wf(),
        final(gc).is_enabled_spec() == enabled,
        final(gc).headers() == old(gc).headers(),
        final(gc).root_buffer() == old(gc).root_buffer(),
        final(gc).len() == old(gc).len(),
        final(gc).in_pass() == old(gc).in_pass(),
        forall|o: int| 0 <= o < old(gc).len() ==> final(gc).refs(o) == old(gc).refs(o)
            && final(gc).traceable_at(o) == old(gc).traceable_at(o),
{
    if enabled {
        gc.enable()
    } else {
        gc.disable()
    }
}

} // verus!
