//! Heap-limit bookkeeping: smoothed measurements of how fast memory is
//! allocated and how fast a pass reclaims it. Memory readings and clock
//! readings come from the caller as plain numbers (bytes, nanoseconds);
//! `None` means the platform gave no reading. The smoothing weights
//! (one half, and 95% / 5%) are applied exactly in integer arithmetic and
//! rounded down, not in single-precision floating point.
use vstd::prelude::*;

verus! {

#[derive(Debug, Clone, Copy, PartialEq, Eq, Structural)]
pub struct MemBalancer {
    pub gced_bytes: u64,
    pub gc_time_ns: u64,
    pub live: u64,
    pub mem_delta: u64,
    pub beat_period_ns: u64,
    pub mem_before_gc: u64,
    pub gc_start_ns: u64,
    pub last_mem: u64,
    pub last_beat_ns: u64,
    pub heap_limit: u64,
}

/// Smallest amount a pass is taken to have reclaimed.
pub const MIN_GCED_BYTES: u64 = 1024;

/// Equal-weight average of the old and the new measurement, rounded down.
pub open spec fn half_mix(old: u64, new: u64) -> int {
    (old + new) / 2
}

/// 95% of the old measurement and 5% of the new one, rounded down.
pub open spec fn slow_mix(old: u64, new: u64) -> int {
    (95 * old + 5 * new) / 100
}

pub open spec fn elapsed(now: u64, start: u64) -> u64 {
    if now >= start {
        (now - start) as u64
    } else {
        0
    }
}

fn mix_half(old: u64, new: u64) -> (r: u64)
    ensures
        r == half_mix(old, new),
{
    ((old as u128 + new as u128) / 2) as u64
}

fn mix_slow(old: u64, new: u64) -> (r: u64)
    ensures
        r == slow_mix(old, new),
{
    ((95 * (old as u128) + 5 * (new as u128)) / 100) as u64
}

fn since(now: u64, start: u64) -> (r: u64)
    ensures
        r == elapsed(now, start),
{
    if now >= start {
        now - start
    } else {
        0
    }
}

impl MemBalancer {
    /// Nothing measured yet; both clocks start at `now_ns`.
    pub fn new(now_ns: u64) -> (r: MemBalancer)
        ensures
            r == (MemBalancer {
                gced_bytes: 0,
                gc_time_ns: 0,
                live: 0,
                mem_delta: 0,
                beat_period_ns: 0,
                mem_before_gc: 0,
                gc_start_ns: now_ns,
                last_mem: 0,
                last_beat_ns: now_ns,
                heap_limit: 0,
            }),
    {
        MemBalancer {
            gced_bytes: 0,
            gc_time_ns: 0,
            live: 0,
            mem_delta: 0,
            beat_period_ns: 0,
            mem_before_gc: 0,
            gc_start_ns: now_ns,
            last_mem: 0,
            last_beat_ns: now_ns,
            heap_limit: 0,
        }
    }

    /// Whether the memory in use is above the heap limit; false without a reading.
    pub fn excess_heap_limit(&self, mem: Option<u64>) -> (r: bool)
        ensures
            r == (mem matches Some(m) && m > self.heap_limit),
    {
        match mem {
            Some(m) => m > self.heap_limit,
            None => false,
        }
    }

    /// Records the start of a pass.
    pub fn mark_start_gc(&mut self, mem: Option<u64>, now_ns: u64)
        ensures
            *final(self) == (MemBalancer {
                mem_before_gc: match mem {
                    Some(m) => m,
                    None => 0,
                },
                gc_start_ns: now_ns,
                ..*old(self)
            }),
    {
        self.mem_before_gc = match mem {
            Some(m) => m,
            None => 0,
        };
        self.gc_start_ns = now_ns;
    }

    /// Records the end of a pass that reclaimed `gced_bytes`.
    pub fn mark_end_gc(&mut self, gced_bytes: u64, mem: Option<u64>, now_ns: u64)
        ensures
            ({
                let g = if gced_bytes > MIN_GCED_BYTES {
                    gced_bytes
                } else {
                    MIN_GCED_BYTES
                };
                *final(self) == (MemBalancer {
                    gced_bytes: half_mix(old(self).gced_bytes, g) as u64,
                    gc_time_ns: half_mix(
                        old(self).gc_time_ns,
                        elapsed(now_ns, old(self).gc_start_ns),
                    ) as u64,
                    live: match mem {
                        Some(m) => m,
                        None => 0,
                    },
                    ..*old(self)
                })
            }),
    {
        let cur = match mem {
            Some(m) => m,
            None => 0,
        };
        let g = if gced_bytes > MIN_GCED_BYTES {
            gced_bytes
        } else {
            MIN_GCED_BYTES
        };
        let t = since(now_ns, self.gc_start_ns);
        self.on_gc(g, t, cur);
    }

    fn on_gc(&mut self, gced_bytes: u64, gc_time_ns: u64, live: u64)
        ensures
            *final(self) == (MemBalancer {
                gced_bytes: half_mix(old(self).gced_bytes, gced_bytes) as u64,
                gc_time_ns: half_mix(old(self).gc_time_ns, gc_time_ns) as u64,
                live: live,
                ..*old(self)
            }),
    {
        self.gced_bytes = mix_half(self.gced_bytes, gced_bytes);
        self.gc_time_ns = mix_half(self.gc_time_ns, gc_time_ns);
        self.live = live;
    }

    /// Folds a new memory reading into the allocation rate.
    pub fn update_mem_delta(&mut self, mem: Option<u64>, now_ns: u64)
        ensures
            mem is None ==> *final(self) == *old(self),
            mem matches Some(m) ==> *final(self) == (MemBalancer {
                last_mem: m,
                mem_delta: slow_mix(
                    old(self).mem_delta,
                    if m > old(self).last_mem {
                        (m - old(self).last_mem) as u64
                    } else {
                        0
                    },
                ) as u64,
                beat_period_ns: slow_mix(
                    old(self).beat_period_ns,
                    elapsed(now_ns, old(self).last_beat_ns),
                ) as u64,
                ..*old(self)
            }),
    {
        if let Some(new) = mem {
            let delta = if new > self.last_mem {
                new - self.last_mem
            } else {
                0
            };
            self.last_mem = new;
            let period = since(now_ns, self.last_beat_ns);
            self.on_heartbeat(delta, period);
        }
    }

    fn on_heartbeat(&mut self, mem_delta: u64, hb_period_ns: u64)
        ensures
            *final(self) == (MemBalancer {
                mem_delta: slow_mix(old(self).mem_delta, mem_delta) as u64,
                beat_period_ns: slow_mix(old(self).beat_period_ns, hb_period_ns) as u64,
                ..*old(self)
            }),
    {
        self.mem_delta = mix_slow(self.mem_delta, mem_delta);
        self.beat_period_ns = mix_slow(self.beat_period_ns, hb_period_ns);
    }
}

} // verus!
