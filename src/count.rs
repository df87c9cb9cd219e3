//! Counting headers by colour and by teardown phase: the measures that bound
//! the collector's graph walks.
use vstd::prelude::*;
use crate::header::{Color, GcHeader, Phase};

verus! {

/// Number of headers of colour `c`.
pub open spec fn count_color(s: Seq<GcHeader>, c: Color) -> nat
    decreases s.len(),
{
    if s.len() == 0 {
        0
    } else {
        count_color(s.drop_last(), c) + if s.last().color == c {
            1nat
        } else {
            0nat
        }
    }
}

/// Number of headers in phase `p`.
pub open spec fn count_phase(s: Seq<GcHeader>, p: Phase) -> nat
    decreases s.len(),
{
    if s.len() == 0 {
        0
    } else {
        count_phase(s.drop_last(), p) + if s.last().phase == p {
            1nat
        } else {
            0nat
        }
    }
}

pub proof fn lemma_count_color_bound(s: Seq<GcHeader>, c: Color)
    ensures
        count_color(s, c) <= s.len(),
    decreases s.len(),
{
    if s.len() > 0 {
        lemma_count_color_bound(s.drop_last(), c);
    }
}

/// Replacing one header changes each colour count by what left and what came.
pub proof fn lemma_count_color_update(s: Seq<GcHeader>, i: int, h: GcHeader, c: Color)
    requires
        0 <= i < s.len(),
    ensures
        count_color(s.update(i, h), c) == count_color(s, c) - (if s[i].color == c {
            1int
        } else {
            0int
        }) + (if h.color == c {
            1int
        } else {
            0int
        }),
    decreases s.len(),
{
    if i == s.len() - 1 {
        assert(s.update(i, h).drop_last() =~= s.drop_last());
    } else {
        lemma_count_color_update(s.drop_last(), i, h, c);
        assert(s.update(i, h).drop_last() =~= s.drop_last().update(i, h));
    }
}

/// Replacing one header changes each phase count by what left and what came.
pub proof fn lemma_count_phase_update(s: Seq<GcHeader>, i: int, h: GcHeader, p: Phase)
    requires
        0 <= i < s.len(),
    ensures
        count_phase(s.update(i, h), p) == count_phase(s, p) - (if s[i].phase == p {
            1int
        } else {
            0int
        }) + (if h.phase == p {
            1int
        } else {
            0int
        }),
    decreases s.len(),
{
    if i == s.len() - 1 {
        assert(s.update(i, h).drop_last() =~= s.drop_last());
    } else {
        lemma_count_phase_update(s.drop_last(), i, h, p);
        assert(s.update(i, h).drop_last() =~= s.drop_last().update(i, h));
    }
}

/// Number of set marks.
pub open spec fn count_true(s: Seq<bool>) -> nat
    decreases s.len(),
{
    if s.len() == 0 {
        0
    } else {
        count_true(s.drop_last()) + if s.last() {
            1nat
        } else {
            0nat
        }
    }
}

pub proof fn lemma_count_true_bound(s: Seq<bool>)
    ensures
        count_true(s) <= s.len(),
    decreases s.len(),
{
    if s.len() > 0 {
        lemma_count_true_bound(s.drop_last());
    }
}

/// Setting one clear mark adds one to the count.
pub proof fn lemma_count_true_set(s: Seq<bool>, i: int)
    requires
        0 <= i < s.len(),
        !s[i],
    ensures
        count_true(s.update(i, true)) == count_true(s) + 1,
    decreases s.len(),
{
    if i == s.len() - 1 {
        assert(s.update(i, true).drop_last() =~= s.drop_last());
    } else {
        lemma_count_true_set(s.drop_last(), i);
        assert(s.update(i, true).drop_last() =~= s.drop_last().update(i, true));
    }
}

} // verus!
