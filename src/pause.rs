//! Bookkeeping for the stop-the-world pause held by a mutator, and the
//! conditions that trigger a collection pass.
use vstd::prelude::*;

verus! {

/// A mutator's share of the pause lock: whether it holds the shared side,
/// and how many nested pauses sit on top of that.
#[derive(Debug, Clone, Copy, PartialEq, Eq, Structural)]
pub struct GCReadLock {
    pub held: bool,
    pub recursive: usize,
}

/// What the owner of the lock must do after `resuming`.
#[derive(Debug, Clone, Copy, PartialEq, Eq, Structural)]
pub enum ResumeAction {
    /// A nested pause ended; the shared lock stays held.
    Keep,
    /// The outermost pause ended; release the shared lock.
    Release,
    /// Nothing was paused.
    NotPaused,
}

impl GCReadLock {
    pub fn new() -> (r: GCReadLock)
        ensures
            !r.held,
            r.recursive == 0,
    {
        GCReadLock { held: false, recursive: 0 }
    }

    /// Moves the state out, leaving nothing held behind.
    pub fn take(&mut self) -> (r: GCReadLock)
        ensures
            r == *old(self),
            !final(self).held,
            final(self).recursive == 0,
    {
        let r = *self;
        self.held = false;
        self.recursive = 0;
        r
    }
}

/// Enters a pause: blocks collection passes until the matching `resuming`.
/// Returns true when the caller must now take the shared lock; a nested
/// pause only counts one more level.
pub fn pausing(state: &mut GCReadLock) -> (acquire: bool)
    requires
        old(state).held ==> old(state).recursive < usize::MAX,
        !old(state).held ==> old(state).recursive == 0,
    ensures
        acquire == !old(state).held,
        final(state).held,
        old(state).held ==> final(state).recursive == old(state).recursive + 1,
        !old(state).held ==> final(state).recursive == 0,
{
    if state.held {
        state.recursive = state.recursive + 1;
        false
    } else {
        state.held = true;
        true
    }
}

/// Leaves a pause, undoing one `pausing`.
pub fn resuming(state: &mut GCReadLock) -> (r: ResumeAction)
    ensures
        old(state).held && old(state).recursive > 0 ==> r == ResumeAction::Keep && *final(state)
            == (GCReadLock { held: true, recursive: (old(state).recursive - 1) as usize }),
        old(state).held && old(state).recursive == 0 ==> r == ResumeAction::Release && *final(state)
            == (GCReadLock { held: false, recursive: 0 }),
        !old(state).held ==> r == ResumeAction::NotPaused && *final(state) == *old(state),
{
    if state.held {
        if state.recursive > 0 {
            state.recursive = state.recursive - 1;
            ResumeAction::Keep
        } else {
            state.held = false;
            ResumeAction::Release
        }
    } else {
        ResumeAction::NotPaused
    }
}

/// Allocation counters and the thresholds that call for a pass.
#[derive(Debug, Clone, Copy, PartialEq, Eq, Structural)]
pub struct GcCond {
    pub threshold: usize,
    pub root_cleanup_size: usize,
    pub alloc_cnt: usize,
    pub dealloc_cnt: usize,
}

pub const DEFAULT_THRESHOLD: usize = 700;

pub const DEFAULT_ROOT_CLEANUP_SIZE: usize = 10000;

impl GcCond {
    /// Default thresholds and zeroed counters.
    pub fn new() -> (r: GcCond)
        ensures
            r.threshold == DEFAULT_THRESHOLD,
            r.root_cleanup_size == DEFAULT_ROOT_CLEANUP_SIZE,
            r.alloc_cnt == 0,
            r.dealloc_cnt == 0,
    {
        GcCond {
            threshold: DEFAULT_THRESHOLD,
            root_cleanup_size: DEFAULT_ROOT_CLEANUP_SIZE,
            alloc_cnt: 0,
            dealloc_cnt: 0,
        }
    }

    /// Counts one allocation; the counter stops at its maximum.
    pub fn inc_alloc_cnt(&mut self)
        ensures
            *final(self) == (GcCond {
                alloc_cnt: if old(self).alloc_cnt < usize::MAX {
                    (old(self).alloc_cnt + 1) as usize
                } else {
                    old(self).alloc_cnt
                },
                ..*old(self)
            }),
    {
        if self.alloc_cnt < usize::MAX {
            self.alloc_cnt = self.alloc_cnt + 1;
        }
    }

    /// Counts one deallocation; the counter stops at its maximum.
    pub fn inc_dealloc_cnt(&mut self)
        ensures
            *final(self) == (GcCond {
                dealloc_cnt: if old(self).dealloc_cnt < usize::MAX {
                    (old(self).dealloc_cnt + 1) as usize
                } else {
                    old(self).dealloc_cnt
                },
                ..*old(self)
            }),
    {
        if self.dealloc_cnt < usize::MAX {
            self.dealloc_cnt = self.dealloc_cnt + 1;
        }
    }
}

/// The pass condition: more allocations than the threshold above the
/// deallocations, or a root buffer over its cleanup size.
pub open spec fn gc_wanted(c: GcCond, root_len: nat) -> bool {
    c.alloc_cnt > c.threshold + c.dealloc_cnt || root_len > c.root_cleanup_size
}

/// Whether a pass is due. When it is (and collection is enabled) the
/// counters start again from zero.
pub fn need_gc(cond: &mut GcCond, root_len: usize, enabled: bool) -> (r: bool)
    ensures
        r == (enabled && gc_wanted(*old(cond), root_len as nat)),
        r ==> *final(cond) == (GcCond { alloc_cnt: 0, dealloc_cnt: 0, ..*old(cond) }),
        !r ==> *final(cond) == *old(cond),
{
    let over_alloc = cond.alloc_cnt > cond.threshold && cond.alloc_cnt - cond.threshold
        > cond.dealloc_cnt;
    let wanted = over_alloc || root_len > cond.root_cleanup_size;
    let r = wanted && enabled;
    if r {
        cond.alloc_cnt = 0;
        cond.dealloc_cnt = 0;
    }
    r
}

/// Root-buffer length above which an opportunistic pass is considered.
pub const ROOTS_THRESHOLD: usize = 700;

/// Least time between two opportunistic passes, in milliseconds.
pub const MIN_PASS_INTERVAL_MS: u64 = 100;

/// When the last opportunistic pass started.
#[derive(Debug, Clone, Copy, PartialEq, Eq, Structural)]
pub struct GcTimer {
    pub last_gc_ms: u64,
}

/// The rate-limited trigger: enough roots, no pass already open, and enough
/// time since the last one.
pub open spec fn pass_due(t: GcTimer, roots_len: nat, in_pass: bool, now_ms: u64) -> bool {
    roots_len > ROOTS_THRESHOLD && !in_pass && now_ms >= t.last_gc_ms && now_ms - t.last_gc_ms
        >= MIN_PASS_INTERVAL_MS
}

impl GcTimer {
    pub fn new(now_ms: u64) -> (r: GcTimer)
        ensures
            r.last_gc_ms == now_ms,
    {
        GcTimer { last_gc_ms: now_ms }
    }

    /// Whether an opportunistic pass should run now (`now_ms` is the
    /// caller's clock); when it should, `now_ms` is recorded as its start.
    pub fn should_gc(&mut self, roots_len: usize, in_pass: bool, now_ms: u64) -> (r: bool)
        ensures
            r == pass_due(*old(self), roots_len as nat, in_pass, now_ms),
            r ==> final(self).last_gc_ms == now_ms,
            !r ==> *final(self) == *old(self),
    {
        if roots_len > ROOTS_THRESHOLD && !in_pass && now_ms >= self.last_gc_ms && now_ms
            - self.last_gc_ms >= MIN_PASS_INTERVAL_MS {
            self.last_gc_ms = now_ms;
            true
        } else {
            false
        }
    }
}

/// Instructions the interpreter runs between two opportunistic checks.
pub const CHECK_INTERVAL: u32 = 1000;

/// Counts executed instructions for the interpreter's periodic check.
#[derive(Debug, Clone, Copy, PartialEq, Eq, Structural)]
pub struct GcTicker {
    pub count: u32,
}

impl GcTicker {
    pub fn new() -> (r: GcTicker)
        ensures
            r.count == 0,
    {
        GcTicker { count: 0 }
    }

    /// One more instruction; true once every `CHECK_INTERVAL + 1`
    /// instructions, when the interpreter should try a pass.
    pub fn tick(&mut self) -> (due: bool)
        requires
            old(self).count <= CHECK_INTERVAL,
        ensures
            due == (old(self).count == CHECK_INTERVAL),
            due ==> final(self).count == 0,
            !due ==> final(self).count == old(self).count + 1,
            final(self).count <= CHECK_INTERVAL,
    {
        self.count = self.count + 1;
        if self.count > CHECK_INTERVAL {
            self.count = 0;
            true
        } else {
            false
        }
    }
}

} // verus!
