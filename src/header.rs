//! The per-object header: reference count, collector colour and flags.
use vstd::prelude::*;

verus! {

/// Collector colour of an object.
#[derive(Debug, Clone, Copy, PartialEq, Eq, Structural)]
pub enum Color {
    /// In use (or free).
    Black,
    /// Possible member of a cycle; its count has been trial-decremented.
    Gray,
    /// Member of a garbage cycle.
    White,
    /// Possible root of a cycle.
    Purple,
}

/// Teardown state of an object: destruction runs once, then freeing runs once.
#[derive(Debug, Clone, Copy, PartialEq, Eq, Structural)]
pub enum Phase {
    /// Allocated and not yet destroyed.
    Live,
    /// Destructor has run; the memory is still allocated.
    Finalized,
    /// Memory released.
    Freed,
}

/// Metadata attached to every reference-counted object.
#[derive(Debug, Clone, Copy, PartialEq, Eq, Structural)]
pub struct GcHeader {
    pub ref_cnt: usize,
    pub color: Color,
    pub buffered: bool,
    pub leak: bool,
    pub in_cycle: bool,
    pub phase: Phase,
}

impl GcHeader {
    /// The header of a fresh allocation, as a value.
    pub open spec fn new_spec() -> GcHeader {
        GcHeader {
            ref_cnt: 1,
            color: Color::Black,
            buffered: false,
            leak: false,
            in_cycle: false,
            phase: Phase::Live,
        }
    }

    /// The header of a fresh allocation: one reference, black, unbuffered.
    pub fn new() -> (r: GcHeader)
        ensures
            r.ref_cnt == 1,
            r.color == Color::Black,
            !r.buffered,
            !r.leak,
            !r.in_cycle,
            r.phase == Phase::Live,
    {
        GcHeader {
            ref_cnt: 1,
            color: Color::Black,
            buffered: false,
            leak: false,
            in_cycle: false,
            phase: Phase::Live,
        }
    }

    /// Adds a reference and marks the object in use; nothing on a leaked object.
    pub fn inc_black(&mut self)
        requires
            old(self).leak || old(self).ref_cnt < usize::MAX,
        ensures
            old(self).leak ==> *final(self) == *old(self),
            !old(self).leak ==> *final(self) == (GcHeader {
                ref_cnt: (old(self).ref_cnt + 1) as usize,
                color: Color::Black,
                ..*old(self)
            }),
    {
        if self.leak {
            return;
        }
        self.ref_cnt = self.ref_cnt + 1;
        self.color = Color::Black;
    }

    /// Adds a reference and marks the object in use.
    pub fn increment(&mut self)
        requires
            old(self).leak || old(self).ref_cnt < usize::MAX,
        ensures
            old(self).leak ==> *final(self) == *old(self),
            !old(self).leak ==> *final(self) == (GcHeader {
                ref_cnt: (old(self).ref_cnt + 1) as usize,
                color: Color::Black,
                ..*old(self)
            }),
    {
        self.inc_black()
    }

    /// Raw increment of the count; the colour is left alone.
    pub fn inc(&mut self)
        requires
            old(self).ref_cnt < usize::MAX,
        ensures
            *final(self) == (GcHeader { ref_cnt: (old(self).ref_cnt + 1) as usize, ..*old(self) }),
    {
        self.ref_cnt = self.ref_cnt + 1;
    }

    /// Raw decrement of the count; returns the new count.
    pub fn dec(&mut self) -> (r: usize)
        requires
            old(self).ref_cnt > 0,
        ensures
            r == old(self).ref_cnt - 1,
            *final(self) == (GcHeader { ref_cnt: r, ..*old(self) }),
    {
        self.ref_cnt = self.ref_cnt - 1;
        self.ref_cnt
    }

    /// Adds a reference only if the object still has one; returns whether it did.
    pub fn safe_inc(&mut self) -> (r: bool)
        requires
            old(self).leak || old(self).ref_cnt < usize::MAX,
        ensures
            r == (old(self).ref_cnt != 0),
            !r ==> *final(self) == *old(self),
            r && old(self).leak ==> *final(self) == *old(self),
            r && !old(self).leak ==> *final(self) == (GcHeader {
                ref_cnt: (old(self).ref_cnt + 1) as usize,
                color: Color::Black,
                ..*old(self)
            }),
    {
        if self.ref_cnt == 0 {
            false
        } else {
            self.inc_black();
            true
        }
    }

    pub fn rc(&self) -> (r: usize)
        ensures
            r == self.ref_cnt,
    {
        self.ref_cnt
    }

    pub fn get(&self) -> (r: usize)
        ensures
            r == self.ref_cnt,
    {
        self.ref_cnt
    }

    pub fn color(&self) -> (r: Color)
        ensures
            r == self.color,
    {
        self.color
    }

    pub fn set_color(&mut self, new_color: Color)
        ensures
            *final(self) == (GcHeader { color: new_color, ..*old(self) }),
    {
        self.color = new_color;
    }

    pub fn buffered(&self) -> (r: bool)
        ensures
            r == self.buffered,
    {
        self.buffered
    }

    pub fn set_buffered(&mut self, buffered: bool)
        ensures
            *final(self) == (GcHeader { buffered: buffered, ..*old(self) }),
    {
        self.buffered = buffered;
    }

    pub fn is_leaked(&self) -> (r: bool)
        ensures
            r == self.leak,
    {
        self.leak
    }

    pub fn set_leaked(&mut self, leaked: bool)
        ensures
            *final(self) == (GcHeader { leak: leaked, ..*old(self) }),
    {
        self.leak = leaked;
    }

    /// Marks the object as permanently alive.
    pub fn leak(&mut self)
        ensures
            *final(self) == (GcHeader { leak: true, ..*old(self) }),
    {
        self.leak = true;
    }

    pub fn in_cycle(&self) -> (r: bool)
        ensures
            r == self.in_cycle,
    {
        self.in_cycle
    }

    pub fn set_in_cycle(&mut self, in_cycle: bool)
        ensures
            *final(self) == (GcHeader { in_cycle: in_cycle, ..*old(self) }),
    {
        self.in_cycle = in_cycle;
    }
}

} // verus!
