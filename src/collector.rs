//! The reference counter and cycle collector over an arena of objects.
//!
//! Objects are named by handles (indices into the arena). Each object has a
//! header and the list of handles it holds strong references to. References
//! held from outside the arena (stack slots, globals) are not listed: they
//! show only in the count.
use vstd::prelude::*;
use crate::count::{
    count_color, count_phase, count_true, lemma_count_color_bound, lemma_count_color_update,
    lemma_count_phase_update, lemma_count_true_bound, lemma_count_true_set,
};
use crate::header::{Color, GcHeader, Phase};
use crate::seqs::{lemma_drop_first, lemma_drop_last};
use crate::status::{GcResult, GcStatus};

verus! {

/// The collector together with the heap it manages.
pub struct Collector {
    headers: Vec<GcHeader>,
    children: Vec<Vec<usize>>,
    traceable: Vec<bool>,
    roots: Vec<usize>,
    pending: Vec<usize>,
    collecting: bool,
    enabled: bool,
}

/// Two headers that differ at most in count and colour.
pub open spec fn same_flags(a: GcHeader, b: GcHeader) -> bool {
    a.buffered == b.buffered && a.leak == b.leak && a.in_cycle == b.in_cycle && a.phase == b.phase
}

impl Collector {
    /// Number of objects ever allocated.
    pub open spec fn len(&self) -> nat {
        self.headers().len()
    }

    pub closed spec fn headers(&self) -> Seq<GcHeader> {
        self.headers@
    }

    /// Header of object `o`.
    pub open spec fn hdr(&self, o: int) -> GcHeader {
        self.headers()[o]
    }

    /// Handles that object `o` holds references to.
    pub closed spec fn refs(&self, o: int) -> Seq<usize> {
        self.children@[o]@
    }

    /// Whether object `o` can hold references that form cycles.
    pub closed spec fn traceable_at(&self, o: int) -> bool {
        self.traceable@[o]
    }

    /// The root buffer: possible roots of garbage cycles.
    pub closed spec fn root_buffer(&self) -> Seq<usize> {
        self.roots@
    }

    /// Objects found to be cyclic garbage and awaiting teardown.
    pub closed spec fn pending_white(&self) -> Seq<usize> {
        self.pending@
    }

    /// True between the start and the end of a collection pass.
    pub closed spec fn in_pass(&self) -> bool {
        self.collecting
    }

    pub closed spec fn is_enabled_spec(&self) -> bool {
        self.enabled
    }

    /// Every handle stored in the heap names an allocated object.
    pub closed spec fn wf_graph(&self) -> bool {
        &&& self.children@.len() == self.headers@.len()
        &&& self.traceable@.len() == self.headers@.len()
        &&& forall|o: int, k: int|
            0 <= o < self.children@.len() && 0 <= k < self.children@[o]@.len()
                ==> #[trigger] self.children@[o]@[k] < self.headers@.len()
        &&& forall|k: int|
            0 <= k < self.pending@.len() ==> #[trigger] self.pending@[k] < self.headers@.len()
        &&& (!self.collecting ==> self.pending@.len() == 0)
    }

    /// The entries `a + b` name allocated objects, none twice, and an object
    /// is flagged buffered exactly when it has an entry there.
    pub closed spec fn buffer_ok(&self, a: Seq<usize>, b: Seq<usize>) -> bool {
        let u = a + b;
        &&& forall|k: int| 0 <= k < u.len() ==> #[trigger] u[k] < self.headers@.len()
        &&& forall|i: int, j: int| 0 <= i < j < u.len() ==> #[trigger] u[i] != #[trigger] u[j]
        &&& forall|o: usize|
            o < self.headers@.len() ==> (#[trigger] self.headers@[o as int].buffered
                <==> u.contains(o))
    }

    /// Handles in range, and the root buffer holds each buffered object exactly once.
    pub closed spec fn wf(&self) -> bool {
        &&& self.wf_graph()
        &&& forall|k: int| 0 <= k < self.roots@.len() ==> #[trigger] self.roots@[k] < self.headers@.len()
        &&& forall|i: int, j: int|
            0 <= i < j < self.roots@.len() ==> #[trigger] self.roots@[i] != #[trigger] self.roots@[j]
        &&& forall|o: usize|
            o < self.headers@.len() ==> (#[trigger] self.headers@[o as int].buffered
                <==> self.roots@.contains(o))
        &&& forall|o: int|
            0 <= o < self.headers@.len() && #[trigger] self.headers@[o].color == Color::Purple
                ==> self.headers@[o].buffered
    }

    /// The root buffer holds no object twice, and an object is flagged
    /// buffered exactly when it has an entry there.
    pub proof fn lemma_buffer_single_membership(&self)
        requires
            self.wf(),
        ensures
            forall|i: int, j: int|
                0 <= i < j < self.root_buffer().len() ==> #[trigger] self.root_buffer()[i]
                    != #[trigger] self.root_buffer()[j],
            forall|o: usize|
                o < self.len() ==> (#[trigger] self.hdr(o as int).buffered
                    <==> self.root_buffer().contains(o)),
    {
    }

    /// An empty heap with collection enabled.
    pub fn new() -> (r: Collector)
        ensures
            r.wf(),
            r.len() == 0,
            r.root_buffer().len() == 0,
            !r.in_pass(),
            r.is_enabled_spec(),
    {
        Collector {
            headers: Vec::new(),
            children: Vec::new(),
            traceable: Vec::new(),
            roots: Vec::new(),
            pending: Vec::new(),
            collecting: false,
            enabled: true,
        }
    }

    /// Number of objects ever allocated.
    pub fn size(&self) -> (r: usize)
        ensures
            r == self.len(),
    {
        self.headers.len()
    }

    /// Allocates an object with one outside reference and no children.
    pub fn allocate(&mut self, traceable: bool) -> (r: usize)
        requires
            old(self).wf(),
            old(self).len() < usize::MAX,
        ensures
            final(self).wf(),
            r == old(self).len(),
            final(self).len() == old(self).len() + 1,
            final(self).hdr(r as int) == GcHeader::new_spec(),
            final(self).refs(r as int).len() == 0,
            final(self).traceable_at(r as int) == traceable,
            forall|o: int| 0 <= o < old(self).len() ==> final(self).hdr(o) == old(self).hdr(o)
                && final(self).refs(o) == old(self).refs(o)
                && final(self).traceable_at(o) == old(self).traceable_at(o),
            final(self).root_buffer() == old(self).root_buffer(),
            final(self).in_pass() == old(self).in_pass(),
            final(self).is_enabled_spec() == old(self).is_enabled_spec(),
    {
        let r = self.headers.len();
        self.headers.push(GcHeader::new());
        self.children.push(Vec::new());
        self.traceable.push(traceable);
        proof {
            assert(!self.roots@.contains(r)) by {
                if self.roots@.contains(r) {
                    let k = choose|k: int| 0 <= k < self.roots@.len() && self.roots@[k] == r;
                    assert(self.roots@[k] < r);
                }
            }
            assert forall|o: int, k: int|
                0 <= o < self.children@.len() && 0 <= k < self.children@[o]@.len()
                    implies #[trigger] self.children@[o]@[k] < self.headers@.len() by {
                if o < r {
                    assert(old(self).children@[o]@[k] < old(self).headers@.len());
                }
            }
        }
        r
    }

    /// Header of object `o`.
    pub fn header(&self, o: usize) -> (r: GcHeader)
        requires
            self.wf(),
            o < self.len(),
        ensures
            r == self.hdr(o as int),
    {
        self.headers[o]
    }

    /// Reference count of object `o`.
    pub fn rc(&self, o: usize) -> (r: usize)
        requires
            self.wf(),
            o < self.len(),
        ensures
            r == self.hdr(o as int).ref_cnt,
    {
        self.headers[o].ref_cnt
    }

    /// Whether object `o` can hold cycle-forming references.
    pub fn is_traceable(&self, o: usize) -> (r: bool)
        requires
            self.wf(),
            o < self.len(),
        ensures
            r == self.traceable_at(o as int),
    {
        self.traceable[o]
    }

    /// Number of entries in the root buffer.
    pub fn roots_len(&self) -> (r: usize)
        ensures
            r == self.root_buffer().len(),
    {
        self.roots.len()
    }

    /// Handles held by object `o`.
    pub fn children_of(&self, o: usize) -> (r: Vec<usize>)
        requires
            self.wf(),
            o < self.len(),
        ensures
            r@ == self.refs(o as int),
    {
        let kids = &self.children[o];
        let mut out: Vec<usize> = Vec::new();
        let mut k: usize = 0;
        while k < kids.len()
            invariant
                k <= kids@.len(),
                out@ == kids@.subrange(0, k as int),
            decreases kids@.len() - k,
        {
            out.push(kids[k]);
            k = k + 1;
        }
        proof {
            assert(out@ =~= kids@);
        }
        out
    }

    /// Whether a pass has begun and not yet finished.
    pub fn is_pass_open(&self) -> (r: bool)
        ensures
            r == self.in_pass(),
    {
        self.collecting
    }

    pub fn is_enabled(&self) -> (r: bool)
        ensures
            r == self.is_enabled_spec(),
    {
        self.enabled
    }

    pub fn enable(&mut self)
        requires
            old(self).wf(),
        ensures
            final(self).wf(),
            final(self).is_enabled_spec(),
            final(self).headers() == old(self).headers(),
            final(self).root_buffer() == old(self).root_buffer(),
            final(self).in_pass() == old(self).in_pass(),
            forall|o: int| 0 <= o < old(self).len() ==> final(self).refs(o) == old(self).refs(o)
                && final(self).traceable_at(o) == old(self).traceable_at(o),
    {
        self.enabled = true;
    }

    pub fn disable(&mut self)
        requires
            old(self).wf(),
        ensures
            final(self).wf(),
            !final(self).is_enabled_spec(),
            final(self).headers() == old(self).headers(),
            final(self).root_buffer() == old(self).root_buffer(),
            final(self).in_pass() == old(self).in_pass(),
            forall|o: int| 0 <= o < old(self).len() ==> final(self).refs(o) == old(self).refs(o)
                && final(self).traceable_at(o) == old(self).traceable_at(o),
    {
        self.enabled = false;
    }

    /// Replaces one header, leaving everything else alone.
    fn set_header(&mut self, o: usize, h: GcHeader)
        requires
            o < old(self).headers@.len(),
        ensures
            final(self).headers@ == old(self).headers@.update(o as int, h),
            final(self).children@ == old(self).children@,
            final(self).traceable@ == old(self).traceable@,
            final(self).roots@ == old(self).roots@,
            final(self).pending@ == old(self).pending@,
            final(self).collecting == old(self).collecting,
            final(self).enabled == old(self).enabled,
            forall|c: Color|
                #[trigger] count_color(final(self).headers@, c) == count_color(old(self).headers@, c)
                    - (if old(self).headers@[o as int].color == c {
                    1int
                } else {
                    0int
                }) + (if h.color == c {
                    1int
                } else {
                    0int
                }),
            forall|p: Phase|
                #[trigger] count_phase(final(self).headers@, p) == count_phase(old(self).headers@, p)
                    - (if old(self).headers@[o as int].phase == p {
                    1int
                } else {
                    0int
                }) + (if h.phase == p {
                    1int
                } else {
                    0int
                }),
    {
        proof {
            assert forall|c: Color| #[trigger]
                count_color(old(self).headers@.update(o as int, h), c) == count_color(
                    old(self).headers@,
                    c,
                ) - (if old(self).headers@[o as int].color == c {
                    1int
                } else {
                    0int
                }) + (if h.color == c {
                    1int
                } else {
                    0int
                }) by {
                lemma_count_color_update(old(self).headers@, o as int, h, c);
            }
            assert forall|p: Phase| #[trigger]
                count_phase(old(self).headers@.update(o as int, h), p) == count_phase(
                    old(self).headers@,
                    p,
                ) - (if old(self).headers@[o as int].phase == p {
                    1int
                } else {
                    0int
                }) + (if h.phase == p {
                    1int
                } else {
                    0int
                }) by {
                lemma_count_phase_update(old(self).headers@, o as int, h, p);
            }
        }
        self.headers.set(o, h);
    }
}


/// The phase went from `a` to `b` without destroying anything, and freed
/// only an already-destroyed object that was in the root buffer.
pub open spec fn phase_kept_or_buffered_free(a: Phase, b: Phase, in_buffer: bool) -> bool {
    b == a || (a == Phase::Finalized && b == Phase::Freed && in_buffer)
}

/// A buffered entry the first phase of a pass frees: destroyed while
/// buffered, black and at zero.
pub open spec fn freeable(h: GcHeader) -> bool {
    h.color == Color::Black && h.ref_cnt == 0 && h.phase == Phase::Finalized
}

/// The entries of `s` whose object is purple in `hs`, in order.
pub open spec fn purple_entries(hs: Seq<GcHeader>, s: Seq<usize>) -> Seq<usize>
    decreases s.len(),
{
    if s.len() == 0 {
        Seq::empty()
    } else {
        let rest = purple_entries(hs, s.drop_last());
        if hs[s.last() as int].color == Color::Purple {
            rest.push(s.last())
        } else {
            rest
        }
    }
}

/// How many entries of `s` are freeable in `hs`.
pub open spec fn freeable_count(hs: Seq<GcHeader>, s: Seq<usize>) -> nat
    decreases s.len(),
{
    if s.len() == 0 {
        0
    } else {
        freeable_count(hs, s.drop_last()) + if freeable(hs[s.last() as int]) {
            1nat
        } else {
            0nat
        }
    }
}

/// `p` is a chain of pending objects, each holding a reference to the
/// next, that starts at one whose count is positive (a finalizer gave it a
/// reference).
pub open spec fn survivor_path(c: Collector, p: Seq<usize>) -> bool {
    &&& p.len() > 0
    &&& c.hdr(p[0] as int).ref_cnt > 0
    &&& forall|t: int| 0 <= t < p.len() ==> c.pending_white().contains(#[trigger] p[t]) && p[t] < c.len()
    &&& forall|t: int| 0 <= t < p.len() - 1 ==> c.refs(p[t] as int).contains(#[trigger] p[t + 1])
}

/// Pending object `o` is reached from an object that a finalizer made
/// reachable again.
pub open spec fn reached_from_survivor(c: Collector, o: int) -> bool {
    exists|p: Seq<usize>| survivor_path(c, p) && p.last() == o as usize
}

/// How many of the objects below `k` were pending in `old`, not reached
/// from a survivor, not yet freed in `old`, and are freed in `new`.
pub open spec fn freed_garbage(old: Collector, new: Collector, k: int) -> nat
    decreases k,
{
    if k <= 0 {
        0
    } else {
        freed_garbage(old, new, k - 1) + if old.pending_white().contains((k - 1) as usize)
            && !reached_from_survivor(old, k - 1) && old.hdr(k - 1).phase != Phase::Freed && new.hdr(
            k - 1,
        ).phase == Phase::Freed {
            1nat
        } else {
            0nat
        }
    }
}

pub proof fn lemma_freed_garbage_bound(old: Collector, new: Collector, k: int)
    ensures
        freed_garbage(old, new, k) <= if k > 0 {
            k
        } else {
            0
        },
    decreases k,
{
    if k > 0 {
        lemma_freed_garbage_bound(old, new, k - 1);
    }
}

/// The same count over marks: collected, not surviving, not freed in `hb`,
/// freed in `hs`.
pub open spec fn count_freed_upto(
    in_w: Seq<bool>,
    in_x: Seq<bool>,
    hb: Seq<GcHeader>,
    hs: Seq<GcHeader>,
    k: int,
) -> nat
    decreases k,
{
    if k <= 0 {
        0
    } else {
        count_freed_upto(in_w, in_x, hb, hs, k - 1) + if in_w[k - 1] && !in_x[k - 1] && hb[k
            - 1].phase != Phase::Freed && hs[k - 1].phase == Phase::Freed {
            1nat
        } else {
            0nat
        }
    }
}

/// Changing only entry `o` leaves the count below `o`, and the count below
/// `o + 1` adds entry `o`.
proof fn lemma_count_freed_frame(
    in_w: Seq<bool>,
    in_x: Seq<bool>,
    hb: Seq<GcHeader>,
    s1: Seq<GcHeader>,
    s2: Seq<GcHeader>,
    o: int,
)
    requires
        0 <= o,
        forall|x: int| 0 <= x < o ==> #[trigger] s2[x].phase == s1[x].phase,
    ensures
        count_freed_upto(in_w, in_x, hb, s2, o) == count_freed_upto(in_w, in_x, hb, s1, o),
    decreases o,
{
    if o > 0 {
        lemma_count_freed_frame(in_w, in_x, hb, s1, s2, o - 1);
    }
}

/// Two counts whose entries agree below `k` are equal.
proof fn lemma_count_freed_same(
    old: Collector,
    new: Collector,
    in_w: Seq<bool>,
    in_x: Seq<bool>,
    hb: Seq<GcHeader>,
    k: int,
)
    requires
        forall|x: int|
            0 <= x < k ==> (old.pending_white().contains(x as usize) && !reached_from_survivor(old, x)
                && old.hdr(x).phase != Phase::Freed && #[trigger] new.hdr(x).phase == Phase::Freed) == (
            in_w[x] && !in_x[x] && hb[x].phase != Phase::Freed && new.headers()[x].phase == Phase::Freed),
    ensures
        freed_garbage(old, new, k) == count_freed_upto(in_w, in_x, hb, new.headers(), k),
    decreases k,
{
    if k > 0 {
        lemma_count_freed_same(old, new, in_w, in_x, hb, k - 1);
        assert(new.hdr(k - 1).phase == new.headers()[k - 1].phase);
    }
}

/// Every object on a survivor path is marked, when the marks include every
/// pending object with a positive count and are closed under references
/// between pending objects.
proof fn lemma_path_marked(c: Collector, p: Seq<usize>, in_w: Seq<bool>, in_x: Seq<bool>, n: int)
    requires
        survivor_path(c, p),
        n == c.len(),
        in_w.len() == n,
        in_x.len() == n,
        forall|y: int| 0 <= y < n && c.pending_white().contains(y as usize) ==> #[trigger] in_w[y],
        forall|y: int|
            0 <= y < n && c.pending_white().contains(y as usize) && c.hdr(y).ref_cnt > 0
                ==> #[trigger] in_x[y],
        forall|y: int, j: int|
            0 <= y < n && in_x[y] && 0 <= j < c.refs(y).len() && in_w[#[trigger] c.refs(y)[j] as int]
                ==> in_x[c.refs(y)[j] as int],
    ensures
        in_x[p.last() as int],
    decreases p.len(),
{
    assert(c.pending_white().contains(p[0]) && p[0] < c.len());
    if p.len() > 1 {
        let q = p.drop_last();
        assert forall|t: int| 0 <= t < q.len() implies c.pending_white().contains(#[trigger] q[t]) && q[t] < c.len() by {
            assert(q[t] == p[t]);
            assert(c.pending_white().contains(p[t]) && p[t] < c.len());
        }
        assert forall|t: int| 0 <= t < q.len() - 1 implies c.refs(q[t] as int).contains(#[trigger] q[t + 1]) by {
            assert(q[t] == p[t] && q[t + 1] == p[t + 1]);
            assert(c.refs(p[t] as int).contains(p[t + 1]));
        }
        lemma_path_marked(c, q, in_w, in_x, n);
        let y = q.last() as int;
        let t = p.len() - 2;
        assert(c.refs(p[t] as int).contains(p[t + 1]));
        assert(q.last() == p[t]);
        let j = choose|j: int| 0 <= j < c.refs(y).len() && c.refs(y)[j] == p.last();
        assert(c.pending_white().contains(p[p.len() - 1]) && p[p.len() - 1] < c.len());
        assert(in_w[p.last() as int]);
        assert(in_w[c.refs(y)[j] as int]);
    }
}

/// Header after the object is considered a possible cycle root.
pub open spec fn purple_of(h: GcHeader) -> GcHeader {
    if h.color == Color::Purple {
        h
    } else {
        GcHeader { color: Color::Purple, buffered: true, ..h }
    }
}

/// Root buffer after object `o`, with header `h`, is considered a possible root.
pub open spec fn roots_after_purple(roots: Seq<usize>, h: GcHeader, o: usize) -> Seq<usize> {
    if h.color != Color::Purple && !h.buffered {
        roots.push(o)
    } else {
        roots
    }
}

/// What a count that reaches zero asks of the caller.
pub open spec fn release_status(h: GcHeader) -> GcStatus {
    if h.buffered {
        GcStatus::BufferedDrop
    } else if h.in_cycle {
        GcStatus::GarbageCycle
    } else {
        GcStatus::ShouldDrop
    }
}

impl Collector {
    /// Everything but the headers is as before.
    pub closed spec fn same_shape(&self, other: &Collector) -> bool {
        &&& self.children@ == other.children@
        &&& self.traceable@ == other.traceable@
        &&& self.pending@ == other.pending@
        &&& self.collecting == other.collecting
        &&& self.enabled == other.enabled
    }

    /// The decision `decrement` takes for object `o`.
    pub open spec fn decrement_status(&self, o: int) -> GcStatus {
        let h = self.hdr(o);
        if h.leak || h.ref_cnt == 0 {
            GcStatus::DoNothing
        } else if h.ref_cnt == 1 {
            release_status(h)
        } else {
            GcStatus::ShouldKeep
        }
    }

    /// Marks object `o` as permanently alive: counting leaves it alone from now on.
    pub fn leak(&mut self, o: usize)
        requires
            old(self).wf(),
            o < old(self).len(),
        ensures
            final(self).wf(),
            final(self).same_shape(old(self)),
            final(self).headers() == old(self).headers().update(
                o as int,
                GcHeader { leak: true, ..old(self).hdr(o as int) },
            ),
            final(self).root_buffer() == old(self).root_buffer(),
    {
        let mut h = self.headers[o];
        h.leak();
        self.set_header(o, h);
    }

    pub fn is_leaked(&self, o: usize) -> (r: bool)
        requires
            self.wf(),
            o < self.len(),
        ensures
            r == self.hdr(o as int).leak,
    {
        self.headers[o].leak
    }

    /// A new strong reference to `o`: the count grows and the object is in use.
    /// Nothing changes for a leaked object.
    pub fn increment(&mut self, o: usize)
        requires
            old(self).wf(),
            o < old(self).len(),
            old(self).hdr(o as int).leak || old(self).hdr(o as int).ref_cnt < usize::MAX,
            old(self).hdr(o as int).phase != Phase::Freed,
        ensures
            final(self).wf(),
            final(self).same_shape(old(self)),
            final(self).root_buffer() == old(self).root_buffer(),
            old(self).hdr(o as int).leak ==> *final(self) == *old(self),
            !old(self).hdr(o as int).leak ==> final(self).headers() == old(self).headers().update(
                o as int,
                GcHeader {
                    ref_cnt: (old(self).hdr(o as int).ref_cnt + 1) as usize,
                    color: Color::Black,
                    ..old(self).hdr(o as int)
                },
            ),
            final(self).in_pass() == old(self).in_pass(),
            final(self).pending_white() == old(self).pending_white(),
    {
        if self.headers[o].leak {
            return;
        }
        let mut h = self.headers[o];
        h.inc_black();
        self.set_header(o, h);
    }

    /// The count of `o` reached zero: the object is black again, and the
    /// result tells the caller who tears it down.
    fn release(&mut self, o: usize) -> (r: GcStatus)
        requires
            old(self).wf(),
            o < old(self).len(),
        ensures
            final(self).wf(),
            final(self).same_shape(old(self)),
            final(self).root_buffer() == old(self).root_buffer(),
            final(self).headers() == old(self).headers().update(
                o as int,
                GcHeader { color: Color::Black, ..old(self).hdr(o as int) },
            ),
            r == release_status(old(self).hdr(o as int)),
            forall|p: Phase| #[trigger]
                count_phase(final(self).headers(), p) == count_phase(old(self).headers(), p),
    {
        let mut h = self.headers[o];
        h.set_color(Color::Black);
        self.set_header(o, h);
        if h.buffered {
            GcStatus::BufferedDrop
        } else if h.in_cycle {
            GcStatus::GarbageCycle
        } else {
            GcStatus::ShouldDrop
        }
    }

    /// Object `o` lost a reference but is still alive: it may be the root of
    /// a garbage cycle, so it turns purple and enters the root buffer once.
    fn possible_root(&mut self, o: usize)
        requires
            old(self).wf(),
            o < old(self).len(),
        ensures
            final(self).wf(),
            final(self).same_shape(old(self)),
            final(self).headers() == old(self).headers().update(
                o as int,
                purple_of(old(self).hdr(o as int)),
            ),
            final(self).root_buffer() == roots_after_purple(
                old(self).root_buffer(),
                old(self).hdr(o as int),
                o,
            ),
            forall|p: Phase| #[trigger]
                count_phase(final(self).headers(), p) == count_phase(old(self).headers(), p),
    {
        let mut h = self.headers[o];
        if h.color != Color::Purple {
            h.set_color(Color::Purple);
            if !h.buffered {
                h.set_buffered(true);
                proof {
                    assert(!self.roots@.contains(o));
                }
                self.roots.push(o);
            }
            self.set_header(o, h);
            proof {
                assert(self.headers@ =~= old(self).headers@.update(o as int, purple_of(old(self).headers@[o as int])));
                assert forall|x: usize| x < self.headers@.len() implies (#[trigger] self.headers@[x as int].buffered
                    <==> self.roots@.contains(x)) by {
                    if !old(self).headers@[o as int].buffered {
                        assert(self.roots@ == old(self).roots@.push(o));
                        if x != o {
                            if self.roots@.contains(x) {
                                let k = choose|k: int| 0 <= k < self.roots@.len() && self.roots@[k] == x;
                                assert(k < old(self).roots@.len());
                                assert(old(self).roots@[k] == x);
                            }
                            if old(self).roots@.contains(x) {
                                let k = choose|k: int| 0 <= k < old(self).roots@.len() && old(self).roots@[k] == x;
                                assert(self.roots@[k] == x);
                            }
                        } else {
                            assert(self.roots@[self.roots@.len() - 1] == o);
                        }
                    }
                }
                assert forall|a: int, b: int| 0 <= a < b < self.roots@.len()
                    implies #[trigger] self.roots@[a] != #[trigger] self.roots@[b] by {
                    if !old(self).headers@[o as int].buffered && b == self.roots@.len() - 1 {
                        assert(old(self).roots@[a] == self.roots@[a]);
                    }
                }
            }
        } else {
            proof {
                assert(self.headers@ =~= old(self).headers@.update(o as int, purple_of(old(self).headers@[o as int])));
            }
        }
    }

    /// A strong reference to `o` is dropped. Leaked objects and objects whose
    /// count is already zero are left alone. A count that reaches zero is
    /// released; a traceable object that stays alive becomes a possible cycle
    /// root while collection is enabled.
    pub fn decrement(&mut self, o: usize) -> (r: GcStatus)
        requires
            old(self).wf(),
            o < old(self).len(),
        ensures
            final(self).wf(),
            final(self).same_shape(old(self)),
            r == old(self).decrement_status(o as int),
            forall|p: Phase| #[trigger]
                count_phase(final(self).headers(), p) == count_phase(old(self).headers(), p),
            r == GcStatus::DoNothing ==> *final(self) == *old(self),
            old(self).hdr(o as int).leak ==> r == GcStatus::DoNothing && *final(self) == *old(self),
            ({
                let h = old(self).hdr(o as int);
                let h1 = GcHeader { ref_cnt: (h.ref_cnt - 1) as usize, ..h };
                &&& r != GcStatus::DoNothing && h.ref_cnt == 1 ==> {
                    &&& final(self).headers() == old(self).headers().update(
                        o as int,
                        GcHeader { color: Color::Black, ..h1 },
                    )
                    &&& final(self).root_buffer() == old(self).root_buffer()
                }
                &&& r == GcStatus::ShouldKeep && old(self).traceable_at(o as int)
                    && old(self).is_enabled_spec() ==> {
                    &&& final(self).headers() == old(self).headers().update(o as int, purple_of(h1))
                    &&& final(self).root_buffer() == roots_after_purple(
                        old(self).root_buffer(),
                        h1,
                        o,
                    )
                }
                &&& r == GcStatus::ShouldKeep && !(old(self).traceable_at(o as int)
                    && old(self).is_enabled_spec()) ==> {
                    &&& final(self).headers() == old(self).headers().update(o as int, h1)
                    &&& final(self).root_buffer() == old(self).root_buffer()
                }
            }),
            final(self).teardown_frame(old(self)),
            final(self).keeps_idle(old(self), -1),
            final(self).in_pass() == old(self).in_pass(),
            final(self).pending_white() == old(self).pending_white(),
    {
        let mut h = self.headers[o];
        if h.leak || h.ref_cnt == 0 {
            return GcStatus::DoNothing;
        }
        let rc = h.dec();
        self.set_header(o, h);
        if rc == 0 {
            let r = self.release(o);
            proof {
                assert(self.headers@ =~= old(self).headers@.update(o as int, GcHeader { color: Color::Black, ..h }));
            }
            r
        } else if self.traceable[o] && self.enabled {
            self.possible_root(o);
            proof {
                assert(self.headers@ =~= old(self).headers@.update(o as int, purple_of(h)));
            }
            GcStatus::ShouldKeep
        } else {
            GcStatus::ShouldKeep
        }
    }
}

impl Collector {
    /// Teardown never takes an object out of the root buffer, never touches
    /// its cycle flag, and never frees a buffered object.
    pub closed spec fn teardown_frame(&self, old: &Collector) -> bool {
        &&& self.headers@.len() == old.headers@.len()
        &&& forall|x: int|
            0 <= x < old.headers@.len() ==> {
                let a = old.headers@[x];
                let b = #[trigger] self.headers@[x];
                &&& a.buffered ==> b.buffered
                &&& b.in_cycle == a.in_cycle
                &&& a.buffered && a.phase != Phase::Freed ==> b.phase != Phase::Freed
                &&& a.ref_cnt == 0 ==> b.ref_cnt == 0
                &&& a.ref_cnt == 0 && !a.buffered ==> !b.buffered
                &&& a.phase == Phase::Freed ==> b.phase == Phase::Freed
                &&& a.phase != Phase::Live ==> b.phase != Phase::Live
            }
    }

    /// Every object at zero other than `skip` kept its header.
    pub closed spec fn keeps_idle(&self, old: &Collector, skip: int) -> bool {
        forall|x: int|
            0 <= x < old.headers@.len() && x != skip && old.headers@[x].ref_cnt == 0
                ==> #[trigger] self.headers@[x] == old.headers@[x]
    }
}

/// A quiet teardown step followed by one that spares all but `skip`
/// spares all but `skip`.
proof fn lemma_keeps_idle_trans(a: &Collector, b: &Collector, c: &Collector, skip: int)
    requires
        b.teardown_frame(a),
        b.keeps_idle(a, -1),
        c.keeps_idle(b, skip),
    ensures
        c.keeps_idle(a, skip),
{
    assert forall|x: int|
        0 <= x < a.headers@.len() && x != skip && a.headers@[x].ref_cnt == 0 implies #[trigger] c.headers@[x]
            == a.headers@[x] by {
        assert(b.headers@[x] == a.headers@[x]);
        assert(b.headers@[x].ref_cnt == 0);
    }
}

/// A step that spares all but `skip` followed by a quiet teardown step
/// spares all but `skip`.
proof fn lemma_keeps_idle_trans2(a: &Collector, b: &Collector, c: &Collector, skip: int)
    requires
        b.teardown_frame(a),
        b.keeps_idle(a, skip),
        c.keeps_idle(b, -1),
    ensures
        c.keeps_idle(a, skip),
{
    assert forall|x: int|
        0 <= x < a.headers@.len() && x != skip && a.headers@[x].ref_cnt == 0 implies #[trigger] c.headers@[x]
            == a.headers@[x] by {
        assert(b.headers@[x] == a.headers@[x]);
        assert(b.headers@[x].ref_cnt == 0);
    }
}

/// Teardown steps compose.
proof fn lemma_teardown_frame_trans(a: &Collector, b: &Collector, c: &Collector)
    requires
        b.teardown_frame(a),
        c.teardown_frame(b),
    ensures
        c.teardown_frame(a),
{
    assert forall|x: int| 0 <= x < a.headers@.len() implies {
        let p = a.headers@[x];
        let q = #[trigger] c.headers@[x];
        &&& p.buffered ==> q.buffered
        &&& q.in_cycle == p.in_cycle
        &&& p.buffered && p.phase != Phase::Freed ==> q.phase != Phase::Freed
        &&& p.ref_cnt == 0 ==> q.ref_cnt == 0
        &&& p.ref_cnt == 0 && !p.buffered ==> !q.buffered
        &&& p.phase == Phase::Freed ==> q.phase == Phase::Freed
        &&& p.phase != Phase::Live ==> q.phase != Phase::Live
    } by {
        let mid = b.headers@[x];
    }
}

impl Collector {
    /// Runs the destructor of `o` if it has not run yet: the object becomes
    /// finalized and hands back the references it held.
    fn finalize(&mut self, o: usize) -> (r: Vec<usize>)
        requires
            old(self).wf(),
            o < old(self).len(),
        ensures
            final(self).wf(),
            final(self).traceable@ == old(self).traceable@,
            final(self).pending@ == old(self).pending@,
            final(self).collecting == old(self).collecting,
            final(self).enabled == old(self).enabled,
            final(self).roots@ == old(self).roots@,
            old(self).hdr(o as int).phase == Phase::Live ==> {
                &&& final(self).headers() == old(self).headers().update(
                    o as int,
                    GcHeader { phase: Phase::Finalized, ..old(self).hdr(o as int) },
                )
                &&& final(self).children@.len() == old(self).children@.len()
                &&& final(self).children@[o as int]@.len() == 0
                &&& forall|x: int| 0 <= x < old(self).children@.len() && x != o ==> #[trigger] final(self).children@[x]
                    == old(self).children@[x]
                &&& r@ == old(self).refs(o as int)
                &&& count_phase(final(self).headers(), Phase::Live) == count_phase(
                    old(self).headers(),
                    Phase::Live,
                ) - 1
            },
            old(self).hdr(o as int).phase != Phase::Live ==> {
                &&& *final(self) == *old(self)
                &&& r@.len() == 0
            },
            forall|k: int| 0 <= k < r@.len() ==> #[trigger] r@[k] < final(self).len(),
            final(self).teardown_frame(old(self)),
            final(self).keeps_idle(old(self), o as int),
    {
        let mut h = self.headers[o];
        if h.phase != Phase::Live {
            return Vec::new();
        }
        h.phase = Phase::Finalized;
        self.set_header(o, h);
        let mut kids: Vec<usize> = Vec::new();
        self.children.set_and_swap(o, &mut kids);
        proof {
            assert(kids@ == old(self).children@[o as int]@);
            assert forall|x: int, k: int|
                0 <= x < self.children@.len() && 0 <= k < self.children@[x]@.len()
                    implies #[trigger] self.children@[x]@[k] < self.headers@.len() by {
                assert(x != o);
                assert(self.children@[x] == old(self).children@[x]);
            }
            assert forall|k: int| 0 <= k < kids@.len() implies #[trigger] kids@[k] < self.headers@.len() by {
                assert(old(self).children@[o as int]@[k] < old(self).headers@.len());
            }
        }
        kids
    }

    /// Drops one reference to each handle in `refs`, tearing down every
    /// object whose count reaches zero in turn, and the references it held.
    fn release_refs(&mut self, refs: Vec<usize>, protect: &Vec<bool>)
        requires
            old(self).wf(),
            forall|k: int| 0 <= k < refs@.len() ==> #[trigger] refs@[k] < old(self).len(),
        ensures
            final(self).wf(),
            final(self).len() == old(self).len(),
            final(self).traceable@ == old(self).traceable@,
            final(self).pending@ == old(self).pending@,
            final(self).collecting == old(self).collecting,
            final(self).enabled == old(self).enabled,
            forall|o: int| 0 <= o < old(self).len() && #[trigger] old(self).hdr(o).leak ==> final(self).hdr(o)
                == old(self).hdr(o),
            forall|o: int|
                0 <= o < old(self).len() && #[trigger] old(self).hdr(o).phase == Phase::Freed
                    ==> final(self).hdr(o).phase == Phase::Freed,
            forall|o: int|
                0 <= o < old(self).len() && #[trigger] old(self).hdr(o).phase != Phase::Live
                    ==> final(self).hdr(o).phase != Phase::Live,
            final(self).teardown_frame(old(self)),
            final(self).keeps_idle(old(self), -1),
            refs@.len() == 0 ==> *final(self) == *old(self),
            forall|x: int|
                0 <= x < old(self).len() && #[trigger] final(self).hdr(x).phase == Phase::Live
                    ==> final(self).children@[x] == old(self).children@[x],
            forall|x: int|
                0 <= x < old(self).len() && x < protect@.len() && #[trigger] protect@[x] ==> final(self).hdr(x)
                    == old(self).hdr(x) && final(self).children@[x] == old(self).children@[x],
    {
        if refs.len() == 0 {
            return;
        }
        let mut stack = refs;
        while stack.len() > 0
            invariant
                self.wf(),
                self.len() == old(self).len(),
                self.traceable@ == old(self).traceable@,
                self.pending@ == old(self).pending@,
                self.collecting == old(self).collecting,
                self.enabled == old(self).enabled,
                forall|k: int| 0 <= k < stack@.len() ==> #[trigger] stack@[k] < self.len(),
                forall|o: int| 0 <= o < old(self).len() && #[trigger] old(self).hdr(o).leak ==> self.hdr(o)
                    == old(self).hdr(o),
                self.teardown_frame(old(self)),
                forall|o: int|
                    0 <= o < old(self).len() && #[trigger] old(self).hdr(o).phase == Phase::Freed
                        ==> self.hdr(o).phase == Phase::Freed,
                forall|o: int|
                    0 <= o < old(self).len() && #[trigger] old(self).hdr(o).phase != Phase::Live
                        ==> self.hdr(o).phase != Phase::Live,
                self.keeps_idle(old(self), -1),
                self.children@.len() == old(self).children@.len(),
                forall|x: int|
                    0 <= x < old(self).len() && #[trigger] self.hdr(x).phase == Phase::Live
                        ==> self.children@[x] == old(self).children@[x],
                forall|x: int|
                    0 <= x < old(self).len() && x < protect@.len() && #[trigger] protect@[x] ==> self.hdr(x)
                        == old(self).hdr(x) && self.children@[x] == old(self).children@[x],
            decreases count_phase(self.headers@, Phase::Live), stack@.len(),
        {
            let c = stack.pop().unwrap();
            if c < protect.len() && protect[c] {
                continue;
            }
            let ghost s0 = *self;
            let st = self.decrement(c);
            proof {
                lemma_keeps_idle_trans(old(self), &s0, self, -1);
                lemma_teardown_frame_trans(old(self), &s0, self);
            }
            match st {
                GcStatus::ShouldDrop => {
                    let ghost s1 = *self;
                    let kids = self.finalize(c);
                    proof {
                        assert(self.keeps_idle(old(self), -1)) by {
                            assert forall|x: int|
                                0 <= x < old(self).headers@.len() && x != -1 && old(self).headers@[x].ref_cnt
                                    == 0 implies #[trigger] self.headers@[x] == old(self).headers@[x] by {
                                assert(s1.headers@[x] == old(self).headers@[x]);
                                assert(s1.headers@[x].ref_cnt == 0);
                                if x == c {
                                    assert(s0.headers@[x].ref_cnt == 0);
                                }
                            }
                        }
                        lemma_teardown_frame_trans(old(self), &s1, self);
                    }
                    let ghost s2 = *self;
                    self.dealloc_only(c);
                    proof {
                        assert(self.keeps_idle(old(self), -1)) by {
                            assert forall|x: int|
                                0 <= x < old(self).headers@.len() && x != -1 && old(self).headers@[x].ref_cnt
                                    == 0 implies #[trigger] self.headers@[x] == old(self).headers@[x] by {
                                assert(s2.headers@[x] == old(self).headers@[x]);
                                assert(s2.headers@[x].ref_cnt == 0);
                                if x == c {
                                    assert(s0.headers@[x].ref_cnt == 0);
                                }
                            }
                        }
                        lemma_teardown_frame_trans(old(self), &s2, self);
                    }
                    Self::push_all(&mut stack, &kids);
                },
                GcStatus::BufferedDrop => {
                    let ghost s1 = *self;
                    let kids = self.finalize(c);
                    proof {
                        assert(self.keeps_idle(old(self), -1)) by {
                            assert forall|x: int|
                                0 <= x < old(self).headers@.len() && x != -1 && old(self).headers@[x].ref_cnt
                                    == 0 implies #[trigger] self.headers@[x] == old(self).headers@[x] by {
                                assert(s1.headers@[x] == old(self).headers@[x]);
                                assert(s1.headers@[x].ref_cnt == 0);
                                if x == c {
                                    assert(s0.headers@[x].ref_cnt == 0);
                                }
                            }
                        }
                        lemma_teardown_frame_trans(old(self), &s1, self);
                    }
                    Self::push_all(&mut stack, &kids);
                },
                _ => {},
            }
            proof {
                assert forall|x: int|
                    0 <= x < old(self).len() && #[trigger] self.hdr(x).phase == Phase::Live
                        implies self.children@[x] == old(self).children@[x] by {
                    if x != c {
                        assert(self.headers@[x].phase == s0.headers@[x].phase);
                        assert(s0.hdr(x).phase == Phase::Live);
                        assert(self.children@[x] == s0.children@[x]);
                    } else {
                        assert(s0.hdr(x).phase == Phase::Live);
                        assert(self.children@[x] == s0.children@[x]);
                    }
                }
                assert forall|x: int|
                    0 <= x < old(self).len() && x < protect@.len() && #[trigger] protect@[x] implies self.hdr(x)
                        == old(self).hdr(x) && self.children@[x] == old(self).children@[x] by {
                    assert(x != c);
                    assert(s0.hdr(x) == old(self).hdr(x));
                }
            }
        }
    }

    /// Appends `kids` to `stack`.
    fn push_all(stack: &mut Vec<usize>, kids: &Vec<usize>)
        ensures
            final(stack)@ == old(stack)@ + kids@,
    {
        let mut k: usize = 0;
        let ghost start = stack@;
        while k < kids.len()
            invariant
                k <= kids@.len(),
                stack@ == start + kids@.subrange(0, k as int),
            decreases kids@.len() - k,
        {
            stack.push(kids[k]);
            proof {
                assert(kids@.subrange(0, k + 1) =~= kids@.subrange(0, k as int).push(kids@[k as int]));
            }
            k = k + 1;
        }
        proof {
            assert(kids@.subrange(0, kids@.len() as int) =~= kids@);
        }
    }

    /// Runs the destructor of `o` without freeing its memory: the references
    /// it held are dropped. Runs at most once: a second call does nothing and
    /// returns false. An object whose count is positive again (a finalizer
    /// stored a reference to it) is not destroyed: the call returns false
    /// and a traceable object returns to the root buffer.
    pub fn drop_only(&mut self, o: usize) -> (r: bool)
        requires
            old(self).wf(),
            o < old(self).len(),
        ensures
            final(self).wf(),
            final(self).len() == old(self).len(),
            final(self).teardown_frame(old(self)),
            r == (old(self).hdr(o as int).phase == Phase::Live && old(self).hdr(o as int).ref_cnt
                == 0),
            old(self).hdr(o as int).phase != Phase::Live ==> *final(self) == *old(self),
            old(self).hdr(o as int).phase == Phase::Live && old(self).hdr(o as int).ref_cnt > 0 ==> {
                &&& final(self).same_shape(old(self))
                &&& old(self).traceable_at(o as int) ==> {
                    &&& final(self).headers() == old(self).headers().update(
                        o as int,
                        purple_of(old(self).hdr(o as int)),
                    )
                    &&& final(self).root_buffer() == roots_after_purple(
                        old(self).root_buffer(),
                        old(self).hdr(o as int),
                        o,
                    )
                }
                &&& !old(self).traceable_at(o as int) ==> *final(self) == *old(self)
            },
            r ==> final(self).hdr(o as int).phase == Phase::Finalized,
            final(self).in_pass() == old(self).in_pass(),
            final(self).is_enabled_spec() == old(self).is_enabled_spec(),
            final(self).keeps_idle(old(self), o as int),
    {
        if self.headers[o].phase != Phase::Live {
            return false;
        }
        if self.headers[o].ref_cnt > 0 {
            if self.traceable[o] {
                self.possible_root(o);
                proof {
                    assert(self.teardown_frame(old(self))) by {
                        assert forall|x: int| 0 <= x < old(self).headers@.len() implies {
                            let a = old(self).headers@[x];
                            let b = #[trigger] self.headers@[x];
                            &&& a.buffered ==> b.buffered
                            &&& b.in_cycle == a.in_cycle
                            &&& a.buffered && a.phase != Phase::Freed ==> b.phase != Phase::Freed
                        } by {
                            if x != o {
                                assert(self.headers@[x] == old(self).headers@[x]);
                            }
                        }
                    }
                }
            }
            return false;
        }
        let kids = self.finalize(o);
        assert(self.hdr(o as int).phase == Phase::Finalized);
        let ghost s1 = *self;
        self.release_refs(kids, &Vec::new());
        proof {
            lemma_keeps_idle_trans2(old(self), &s1, self, o as int);
            lemma_teardown_frame_trans(old(self), &s1, self);
        }
        true
    }

    /// Frees the memory of `o`, once its destructor has run, its count is
    /// zero and it is out of the root buffer. Otherwise nothing happens and
    /// the result is false.
    pub fn dealloc_only(&mut self, o: usize) -> (r: bool)
        requires
            old(self).wf(),
            o < old(self).len(),
        ensures
            final(self).wf(),
            final(self).same_shape(old(self)),
            final(self).root_buffer() == old(self).root_buffer(),
            ({
                let h = old(self).hdr(o as int);
                r == (h.phase == Phase::Finalized && h.ref_cnt == 0 && !h.buffered)
            }),
            r ==> final(self).headers() == old(self).headers().update(
                o as int,
                GcHeader { phase: Phase::Freed, ..old(self).hdr(o as int) },
            ),
            !r ==> *final(self) == *old(self),
            count_phase(final(self).headers(), Phase::Live) == count_phase(
                old(self).headers(),
                Phase::Live,
            ),
            final(self).teardown_frame(old(self)),
            final(self).keeps_idle(old(self), o as int),
    {
        self.try_free(o)
    }

    /// Frees `o` when it is finalized, at zero and unbuffered.
    fn try_free(&mut self, o: usize) -> (r: bool)
        requires
            old(self).wf_graph(),
            o < old(self).headers@.len(),
        ensures
            final(self).wf_graph(),
            final(self).same_shape(old(self)),
            final(self).roots@ == old(self).roots@,
            ({
                let h = old(self).headers@[o as int];
                r == (h.phase == Phase::Finalized && h.ref_cnt == 0 && !h.buffered)
            }),
            r ==> final(self).headers@ == old(self).headers@.update(
                o as int,
                GcHeader { phase: Phase::Freed, ..old(self).headers@[o as int] },
            ),
            !r ==> *final(self) == *old(self),
            count_phase(final(self).headers@, Phase::Live) == count_phase(
                old(self).headers@,
                Phase::Live,
            ),
            final(self).teardown_frame(old(self)),
            final(self).keeps_idle(old(self), o as int),
    {
        let mut h = self.headers[o];
        if h.phase == Phase::Finalized && h.ref_cnt == 0 && !h.buffered {
            h.phase = Phase::Freed;
            self.set_header(o, h);
            true
        } else {
            false
        }
    }

    /// Drops a strong reference to `o` and acts on the decision: an object
    /// whose count reaches zero outside any cycle is destroyed and freed at
    /// once; one still in the root buffer is destroyed, and freed by the
    /// next collection pass.
    pub fn dec_ref(&mut self, o: usize) -> (r: GcStatus)
        requires
            old(self).wf(),
            o < old(self).len(),
        ensures
            final(self).wf(),
            final(self).len() == old(self).len(),
            r == old(self).decrement_status(o as int),
            r == GcStatus::DoNothing ==> *final(self) == *old(self),
            old(self).hdr(o as int).leak ==> r == GcStatus::DoNothing && *final(self) == *old(self),
            r == GcStatus::ShouldDrop && old(self).hdr(o as int).phase == Phase::Live
                ==> final(self).hdr(o as int).phase == Phase::Freed,
            ({
                let h = old(self).hdr(o as int);
                h.ref_cnt == 1 && !h.leak && !h.buffered && !h.in_cycle && h.phase == Phase::Live
                    ==> r == GcStatus::ShouldDrop && final(self).hdr(o as int).phase == Phase::Freed
            }),
            ({
                let h = old(self).hdr(o as int);
                h.ref_cnt == 1 && !h.leak && !h.buffered && !h.in_cycle && h.phase == Phase::Live
                    && old(self).refs(o as int).len() == 0 ==> final(self).root_buffer()
                    == old(self).root_buffer() && !final(self).hdr(o as int).buffered
                    && final(self).headers() == old(self).headers().update(
                    o as int,
                    GcHeader {
                        ref_cnt: 0,
                        color: Color::Black,
                        phase: Phase::Freed,
                        ..h
                    },
                )
            }),
            r == GcStatus::BufferedDrop && old(self).hdr(o as int).phase == Phase::Live
                ==> final(self).hdr(o as int).phase != Phase::Live,
            forall|x: int| 0 <= x < old(self).len() && #[trigger] old(self).hdr(x).leak ==> final(self).hdr(x)
                == old(self).hdr(x),
            final(self).in_pass() == old(self).in_pass(),
            final(self).is_enabled_spec() == old(self).is_enabled_spec(),
            forall|x: int|
                0 <= x < old(self).len() && #[trigger] final(self).hdr(x).phase == Phase::Live
                    ==> final(self).refs(x) == old(self).refs(x),
            ({
                let h = old(self).hdr(o as int);
                h.ref_cnt == 1 && !h.leak && h.buffered && h.phase == Phase::Live ==> r
                    == GcStatus::BufferedDrop && final(self).hdr(o as int) == (GcHeader {
                    ref_cnt: 0,
                    color: Color::Black,
                    phase: Phase::Finalized,
                    ..h
                }) && final(self).root_buffer().contains(o)
            }),
    {
        let st = self.decrement(o);
        let ghost s0 = *self;
        let ghost mut s1 = *self;
        match st {
            GcStatus::ShouldDrop => {
                let kids = self.finalize(o);
                self.dealloc_only(o);
                assert(old(self).hdr(o as int).phase == Phase::Live ==> self.hdr(o as int).phase
                    == Phase::Freed);
                proof {
                    s1 = *self;
                }
                self.release_refs(kids, &Vec::new());
            },
            GcStatus::BufferedDrop => {
                let kids = self.finalize(o);
                assert(old(self).hdr(o as int).phase == Phase::Live ==> self.hdr(o as int).phase
                    == Phase::Finalized);
                proof {
                    s1 = *self;
                }
                self.release_refs(kids, &Vec::new());
            },
            _ => {},
        }
        proof {
            // Leaked objects are never touched: decrement leaves them alone,
            // and teardown only reaches objects whose count fell to zero.
            assert forall|x: int| 0 <= x < old(self).len() && #[trigger] old(self).hdr(x).leak implies self.hdr(x)
                == old(self).hdr(x) by {
                assert(s0.hdr(x) == old(self).hdr(x));
                if st == GcStatus::ShouldDrop || st == GcStatus::BufferedDrop {
                    assert(x != o);
                    assert(s1.hdr(x) == s0.hdr(x));
                }
            }
        }
        st
    }

    /// Object `from` stores a new strong reference to `to`.
    pub fn add_ref(&mut self, from: usize, to: usize)
        requires
            old(self).wf(),
            from < old(self).len(),
            to < old(self).len(),
            old(self).hdr(to as int).leak || old(self).hdr(to as int).ref_cnt < usize::MAX,
            old(self).hdr(to as int).phase != Phase::Freed,
        ensures
            final(self).wf(),
            final(self).len() == old(self).len(),
            final(self).refs(from as int) == old(self).refs(from as int).push(to),
            forall|x: int| 0 <= x < old(self).len() && x != from ==> final(self).refs(x) == old(self).refs(x),
            final(self).root_buffer() == old(self).root_buffer(),
            old(self).hdr(to as int).leak ==> final(self).headers() == old(self).headers(),
            !old(self).hdr(to as int).leak ==> final(self).headers() == old(self).headers().update(
                to as int,
                GcHeader {
                    ref_cnt: (old(self).hdr(to as int).ref_cnt + 1) as usize,
                    color: Color::Black,
                    ..old(self).hdr(to as int)
                },
            ),
            final(self).in_pass() == old(self).in_pass(),
            final(self).is_enabled_spec() == old(self).is_enabled_spec(),
            forall|x: int| 0 <= x < old(self).len() ==> final(self).traceable_at(x) == old(self).traceable_at(x),
    {
        self.increment(to);
        let mut kids: Vec<usize> = Vec::new();
        self.children.set_and_swap(from, &mut kids);
        kids.push(to);
        self.children.set_and_swap(from, &mut kids);
        proof {
            assert forall|x: int, k: int|
                0 <= x < self.children@.len() && 0 <= k < self.children@[x]@.len()
                    implies #[trigger] self.children@[x]@[k] < self.headers@.len() by {
                if x != from {
                    assert(self.children@[x] == old(self).children@[x]);
                } else if k < old(self).children@[x]@.len() {
                    assert(self.children@[x]@[k] == old(self).children@[x]@[k]);
                }
            }
        }
    }

    /// Object `from` drops the strong reference at position `k` of its list.
    pub fn remove_ref(&mut self, from: usize, k: usize) -> (r: GcStatus)
        requires
            old(self).wf(),
            from < old(self).len(),
            k < old(self).refs(from as int).len(),
        ensures
            final(self).wf(),
            final(self).len() == old(self).len(),
            ({
                let to = old(self).refs(from as int)[k as int] as int;
                let mid = old(self).hdr(to);
                r == (if mid.leak || mid.ref_cnt == 0 {
                    GcStatus::DoNothing
                } else if mid.ref_cnt == 1 {
                    release_status(mid)
                } else {
                    GcStatus::ShouldKeep
                })
            }),
            final(self).in_pass() == old(self).in_pass(),
            final(self).hdr(from as int).phase == Phase::Live ==> final(self).refs(from as int)
                == old(self).refs(from as int).remove(k as int),
    {
        let mut kids: Vec<usize> = Vec::new();
        self.children.set_and_swap(from, &mut kids);
        let to = kids.remove(k);
        self.children.set_and_swap(from, &mut kids);
        proof {
            assert(to < self.headers@.len());
            assert forall|x: int, j: int|
                0 <= x < self.children@.len() && 0 <= j < self.children@[x]@.len()
                    implies #[trigger] self.children@[x]@[j] < self.headers@.len() by {
                if x != from {
                    assert(self.children@[x] == old(self).children@[x]);
                } else if j < k {
                    assert(self.children@[x]@[j] == old(self).children@[x]@[j]);
                } else {
                    assert(self.children@[x]@[j] == old(self).children@[x]@[j + 1]);
                }
            }
        }
        self.dec_ref(to)
    }
}

impl Collector {
    /// Only counts and colours differ from `old`.
    pub closed spec fn counts_only(&self, old: &Collector) -> bool {
        &&& self.same_shape(old)
        &&& self.roots@ == old.roots@
        &&& self.headers@.len() == old.headers@.len()
        &&& forall|o: int|
            0 <= o < self.headers@.len() ==> same_flags(#[trigger] self.headers@[o], old.headers@[o])
    }

    /// Only counts, colours and cycle flags differ from `old`.
    pub closed spec fn marks_only(&self, old: &Collector) -> bool {
        &&& self.same_shape(old)
        &&& self.roots@ == old.roots@
        &&& self.headers@.len() == old.headers@.len()
        &&& forall|o: int|
            0 <= o < self.headers@.len() ==> {
                let a = #[trigger] self.headers@[o];
                let b = old.headers@[o];
                a.buffered == b.buffered && a.leak == b.leak && a.phase == b.phase
            }
    }

    /// Trial deletion from `r`: `r` and everything reachable from it turn
    /// gray, and each reference from a newly gray object to a non-leaked
    /// child takes one off that child's count.
    fn mark_gray(&mut self, r: usize)
        requires
            old(self).wf_graph(),
            r < old(self).headers@.len(),
        ensures
            final(self).wf_graph(),
            final(self).counts_only(old(self)),
            forall|x: int|
                0 <= x < final(self).headers@.len() && #[trigger] final(self).headers@[x].color
                    == Color::Purple ==> old(self).headers@[x].color == Color::Purple,
            final(self).headers@[r as int].color == Color::Gray,
            forall|x: int|
                0 <= x < old(self).headers@.len() && old(self).headers@[x].color == Color::Gray
                    ==> #[trigger] final(self).headers@[x].color == Color::Gray,
            forall|x: int, j: int|
                0 <= x < final(self).headers@.len() && final(self).headers@[x].color == Color::Gray
                    && old(self).headers@[x].color != Color::Gray && 0 <= j < final(self).children@[x]@.len()
                    && !final(self).headers@[#[trigger] final(self).children@[x]@[j] as int].leak
                    ==> final(self).headers@[final(self).children@[x]@[j] as int].color == Color::Gray,
    {
        let mut stack: Vec<usize> = Vec::new();
        stack.push(r);
        proof {
            lemma_count_color_bound(self.headers@, Color::Gray);
        }
        proof {
            assert(stack@ =~= seq![r]);
        }
        while stack.len() > 0
            invariant
                forall|x: int|
                    0 <= x < self.headers@.len() && #[trigger] self.headers@[x].color == Color::Purple
                        ==> old(self).headers@[x].color == Color::Purple,
                self.wf_graph(),
                self.counts_only(old(self)),
                forall|k: int| 0 <= k < stack@.len() ==> #[trigger] stack@[k] < self.headers@.len(),
                count_color(self.headers@, Color::Gray) <= self.headers@.len(),
                r < self.headers@.len(),
                self.headers@[r as int].color == Color::Gray || stack@ == seq![r],
                forall|x: int|
                    0 <= x < old(self).headers@.len() && old(self).headers@[x].color == Color::Gray
                        ==> #[trigger] self.headers@[x].color == Color::Gray,
                forall|x: int, j: int|
                    0 <= x < self.headers@.len() && self.headers@[x].color == Color::Gray
                        && old(self).headers@[x].color != Color::Gray && 0 <= j < self.children@[x]@.len()
                        && !self.headers@[#[trigger] self.children@[x]@[j] as int].leak ==> self.headers@[
                        self.children@[x]@[j] as int].color == Color::Gray || stack@.contains(
                        self.children@[x]@[j],
                    ),
            decreases self.headers@.len() - count_color(self.headers@, Color::Gray), stack@.len(),
        {
            let ghost before = stack@;
            let ghost hb = self.headers@;
            let o = stack.pop().unwrap();
            proof {
                if before == seq![r] {
                    assert(o == r);
                }
            }
            let mut h = self.headers[o];
            if h.color != Color::Gray {
                h.color = Color::Gray;
                self.set_header(o, h);
                proof {
                    assert forall|x: int, j: int|
                        0 <= x < self.headers@.len() && self.headers@[x].color == Color::Gray
                            && old(self).headers@[x].color != Color::Gray && (x != o || j < 0) && 0 <= j
                            < self.children@[x]@.len() && !self.headers@[
                            #[trigger] self.children@[x]@[j] as int].leak implies self.headers@[
                        self.children@[x]@[j] as int].color == Color::Gray || stack@.contains(
                        self.children@[x]@[j],
                    ) by {
                        let c = self.children@[x]@[j];
                        assert(hb[x].color == Color::Gray);
                        assert(self.headers@[c as int].leak == hb[c as int].leak);
                        if c != o && !(hb[c as int].color == Color::Gray) {
                            assert(before.contains(c));
                            let t = choose|t: int| 0 <= t < before.len() && before[t] == c;
                            assert(t != before.len() - 1);
                            assert(stack@[t] == c);
                        }
                    }
                }
                let ghost g1 = count_color(self.headers@, Color::Gray);
                let ghost s1 = stack@.len();
                let n = self.children[o].len();
                let mut k: usize = 0;
                while k < n
                    invariant
                        forall|x: int|
                            0 <= x < self.headers@.len() && #[trigger] self.headers@[x].color == Color::Purple
                                ==> old(self).headers@[x].color == Color::Purple,
                        self.wf_graph(),
                        self.counts_only(old(self)),
                        o < self.headers@.len(),
                        n == self.children@[o as int]@.len(),
                        k <= n,
                        count_color(self.headers@, Color::Gray) == g1,
                        stack@.len() >= s1,
                        forall|j: int| 0 <= j < stack@.len() ==> #[trigger] stack@[j] < self.headers@.len(),
                        r < self.headers@.len(),
                        self.headers@[r as int].color == Color::Gray,
                        forall|x: int|
                            0 <= x < old(self).headers@.len() && old(self).headers@[x].color == Color::Gray
                                ==> #[trigger] self.headers@[x].color == Color::Gray,
                        self.headers@[o as int].color == Color::Gray,
                        forall|x: int, j: int|
                            0 <= x < self.headers@.len() && self.headers@[x].color == Color::Gray
                                && old(self).headers@[x].color != Color::Gray && (x != o || j < k) && 0 <= j
                                < self.children@[x]@.len() && !self.headers@[
                                #[trigger] self.children@[x]@[j] as int].leak ==> self.headers@[
                                self.children@[x]@[j] as int].color == Color::Gray || stack@.contains(
                                self.children@[x]@[j],
                            ),
                    decreases n - k,
                {
                    let ch = self.children[o][k];
                    let mut hc = self.headers[ch];
                    let ghost sk = stack@;
                    let ghost hk = self.headers@;
                    if !hc.leak {
                        if hc.ref_cnt > 0 {
                            hc.ref_cnt = hc.ref_cnt - 1;
                            self.set_header(ch, hc);
                        }
                        stack.push(ch);
                    }
                    proof {
                        assert forall|x: int, j: int|
                            0 <= x < self.headers@.len() && self.headers@[x].color == Color::Gray
                                && old(self).headers@[x].color != Color::Gray && (x != o || j < k + 1) && 0
                                <= j < self.children@[x]@.len() && !self.headers@[
                                #[trigger] self.children@[x]@[j] as int].leak implies self.headers@[
                            self.children@[x]@[j] as int].color == Color::Gray || stack@.contains(
                            self.children@[x]@[j],
                        ) by {
                            let c = self.children@[x]@[j];
                            assert(self.headers@[x].color == hk[x].color);
                            assert(self.headers@[c as int].leak == hk[c as int].leak);
                            assert(self.headers@[c as int].color == hk[c as int].color);
                            if x == o && j == k {
                                assert(c == ch);
                                assert(stack@[stack@.len() - 1] == ch);
                            } else if sk.contains(c) {
                                let t = choose|t: int| 0 <= t < sk.len() && sk[t] == c;
                                assert(stack@[t] == c);
                            }
                        }
                    }
                    k = k + 1;
                }
            }
            proof {
                lemma_count_color_bound(self.headers@, Color::Gray);
                if hb[o as int].color == Color::Gray {
                    assert forall|x: int, j: int|
                        0 <= x < self.headers@.len() && self.headers@[x].color == Color::Gray
                            && old(self).headers@[x].color != Color::Gray && 0 <= j < self.children@[x]@.len()
                            && !self.headers@[#[trigger] self.children@[x]@[j] as int].leak implies self.headers@[
                        self.children@[x]@[j] as int].color == Color::Gray || stack@.contains(
                        self.children@[x]@[j],
                    ) by {
                        let c = self.children@[x]@[j];
                        if c != o && !(self.headers@[c as int].color == Color::Gray) {
                            assert(before.contains(c));
                            let t = choose|t: int| 0 <= t < before.len() && before[t] == c;
                            assert(t != before.len() - 1);
                            assert(stack@[t] == c);
                        }
                    }
                }
            }
        }
    }

    /// Restores `r` and everything reachable from it that is not yet black:
    /// each reference from a newly black object gives one back to its child.
    fn scan_black(&mut self, r: usize)
        requires
            old(self).wf_graph(),
            r < old(self).headers@.len(),
        ensures
            final(self).wf_graph(),
            final(self).counts_only(old(self)),
            final(self).headers@[r as int].color == Color::Black,
            count_color(final(self).headers@, Color::Gray) + (if old(self).headers@[r as int].color
                == Color::Gray {
                1int
            } else {
                0int
            }) <= count_color(old(self).headers@, Color::Gray),
            forall|x: int|
                0 <= x < final(self).headers@.len() && #[trigger] final(self).headers@[x].color
                    == Color::Purple ==> old(self).headers@[x].color == Color::Purple,
            forall|x: int|
                0 <= x < old(self).headers@.len() && #[trigger] final(self).headers@[x].color == Color::Gray
                    ==> old(self).headers@[x].color == Color::Gray,
            forall|x: int|
                0 <= x < old(self).headers@.len() && old(self).headers@[x].color == Color::Black
                    ==> #[trigger] final(self).headers@[x].color == Color::Black,
            forall|x: int, j: int|
                0 <= x < final(self).headers@.len() && final(self).headers@[x].color == Color::Black
                    && old(self).headers@[x].color != Color::Black && 0 <= j < final(self).children@[x]@.len()
                    && !final(self).headers@[#[trigger] final(self).children@[x]@[j] as int].leak
                    ==> final(self).headers@[final(self).children@[x]@[j] as int].color == Color::Black,
            forall|x: int|
                0 <= x < old(self).headers@.len() && #[trigger] final(self).headers@[x].color
                    != old(self).headers@[x].color ==> final(self).headers@[x].color == Color::Black,
    {
        let mut h = self.headers[r];
        h.color = Color::Black;
        self.set_header(r, h);
        let ghost g0 = count_color(self.headers@, Color::Gray);
        let mut stack: Vec<usize> = Vec::new();
        stack.push(r);
        proof {
            assert(stack@[0] == r);
            assert forall|x: int, j: int|
                0 <= x < self.headers@.len() && self.headers@[x].color == Color::Black
                    && old(self).headers@[x].color != Color::Black && 0 <= j < self.children@[x]@.len()
                    && !self.headers@[#[trigger] self.children@[x]@[j] as int].leak implies self.headers@[
                self.children@[x]@[j] as int].color == Color::Black || stack@.contains(x as usize) by {
                if x != r {
                    assert(self.headers@[x] == old(self).headers@[x]);
                }
            }
            lemma_count_color_bound(self.headers@, Color::Black);
        }
        while stack.len() > 0
            invariant
                forall|x: int|
                    0 <= x < old(self).headers@.len() && #[trigger] self.headers@[x].color == Color::Gray
                        ==> old(self).headers@[x].color == Color::Gray,
                forall|x: int|
                    0 <= x < self.headers@.len() && #[trigger] self.headers@[x].color == Color::Purple
                        ==> old(self).headers@[x].color == Color::Purple,
                self.wf_graph(),
                self.counts_only(old(self)),
                forall|k: int| 0 <= k < stack@.len() ==> #[trigger] stack@[k] < self.headers@.len(),
                count_color(self.headers@, Color::Black) <= self.headers@.len(),
                count_color(self.headers@, Color::Gray) <= g0,
                r < self.headers@.len(),
                self.headers@[r as int].color == Color::Black,
                forall|x: int|
                    0 <= x < old(self).headers@.len() && old(self).headers@[x].color == Color::Black
                        ==> #[trigger] self.headers@[x].color == Color::Black,
                forall|x: int, j: int|
                    0 <= x < self.headers@.len() && self.headers@[x].color == Color::Black
                        && old(self).headers@[x].color != Color::Black && 0 <= j < self.children@[x]@.len()
                        && !self.headers@[#[trigger] self.children@[x]@[j] as int].leak ==> self.headers@[
                        self.children@[x]@[j] as int].color == Color::Black || stack@.contains(x as usize),
                forall|x: int|
                    0 <= x < old(self).headers@.len() && #[trigger] self.headers@[x].color
                        != old(self).headers@[x].color ==> self.headers@[x].color == Color::Black,
            decreases self.headers@.len() - count_color(self.headers@, Color::Black), stack@.len(),
        {
            let ghost before = stack@;
            let o = stack.pop().unwrap();
            let hl = self.headers.len();
            proof {
                assert forall|x: int, j: int|
                    0 <= x < self.headers@.len() && self.headers@[x].color == Color::Black
                        && old(self).headers@[x].color != Color::Black && (x != o || j < 0) && 0 <= j
                        < self.children@[x]@.len() && !self.headers@[
                        #[trigger] self.children@[x]@[j] as int].leak implies self.headers@[
                    self.children@[x]@[j] as int].color == Color::Black || stack@.contains(x as usize) by {
                    assert(before[before.len() - 1] == o);
                    assert(x < hl);
                    if before.contains(x as usize) && !(self.headers@[self.children@[x]@[j] as int].color
                        == Color::Black) {
                        let t = choose|t: int| 0 <= t < before.len() && before[t] == x as usize;
                        assert(t != before.len() - 1);
                        assert(stack@[t] == x as usize);
                    }
                }
            }
            let ghost b1 = count_color(self.headers@, Color::Black);
            let ghost s1 = stack@.len();
            let n = self.children[o].len();
            let mut k: usize = 0;
            while k < n
                invariant
                    forall|x: int|
                        0 <= x < old(self).headers@.len() && #[trigger] self.headers@[x].color == Color::Gray
                            ==> old(self).headers@[x].color == Color::Gray,
                    forall|x: int|
                        0 <= x < self.headers@.len() && #[trigger] self.headers@[x].color == Color::Purple
                            ==> old(self).headers@[x].color == Color::Purple,
                    self.wf_graph(),
                    self.counts_only(old(self)),
                    o < self.headers@.len(),
                    n == self.children@[o as int]@.len(),
                    k <= n,
                    count_color(self.headers@, Color::Black) - b1 == stack@.len() - s1,
                    stack@.len() >= s1,
                    count_color(self.headers@, Color::Gray) <= g0,
                    forall|j: int| 0 <= j < stack@.len() ==> #[trigger] stack@[j] < self.headers@.len(),
                    r < self.headers@.len(),
                    self.headers@[r as int].color == Color::Black,
                    forall|x: int|
                        0 <= x < old(self).headers@.len() && old(self).headers@[x].color == Color::Black
                            ==> #[trigger] self.headers@[x].color == Color::Black,
                    forall|x: int, j: int|
                        0 <= x < self.headers@.len() && self.headers@[x].color == Color::Black
                            && old(self).headers@[x].color != Color::Black && (x != o || j < k) && 0 <= j
                            < self.children@[x]@.len() && !self.headers@[
                            #[trigger] self.children@[x]@[j] as int].leak ==> self.headers@[
                            self.children@[x]@[j] as int].color == Color::Black || stack@.contains(x as usize),
                    forall|x: int|
                        0 <= x < old(self).headers@.len() && #[trigger] self.headers@[x].color
                            != old(self).headers@[x].color ==> self.headers@[x].color == Color::Black,
                decreases n - k,
            {
                let ch = self.children[o][k];
                let mut hc = self.headers[ch];
                let ghost sk = stack@;
                let ghost hk = self.headers@;
                if !hc.leak {
                    if hc.ref_cnt < usize::MAX {
                        hc.ref_cnt = hc.ref_cnt + 1;
                    }
                    if hc.color != Color::Black {
                        hc.color = Color::Black;
                        self.set_header(ch, hc);
                        stack.push(ch);
                    } else {
                        self.set_header(ch, hc);
                    }
                }
                proof {
                    assert forall|x: int, j: int|
                        0 <= x < self.headers@.len() && self.headers@[x].color == Color::Black
                            && old(self).headers@[x].color != Color::Black && (x != o || j < k + 1) && 0 <= j
                            < self.children@[x]@.len() && !self.headers@[
                            #[trigger] self.children@[x]@[j] as int].leak implies self.headers@[
                        self.children@[x]@[j] as int].color == Color::Black || stack@.contains(x as usize) by {
                        let c = self.children@[x]@[j];
                        assert(self.headers@[c as int].leak == hk[c as int].leak);
                        if x != ch as int {
                            assert(self.headers@[x].color == hk[x].color);
                        }
                        if x == ch as int && hk[x].color != Color::Black {
                            assert(stack@[stack@.len() - 1] == ch);
                        } else if !(x == o && j == k) {
                            if hk[c as int].color == Color::Black {
                                assert(self.headers@[c as int].color == Color::Black);
                            } else if sk.contains(x as usize) {
                                let t = choose|t: int| 0 <= t < sk.len() && sk[t] == x as usize;
                                assert(stack@[t] == x as usize);
                            }
                        }
                    }
                }
                k = k + 1;
            }
            proof {
                lemma_count_color_bound(self.headers@, Color::Black);
            }
        }
    }

    /// From `r`: a gray object whose count is still positive is referenced
    /// from outside its subgraph and is restored with `scan_black`; a gray
    /// object at zero turns white and its children are scanned.
    fn scan(&mut self, r: usize)
        requires
            old(self).wf_graph(),
            r < old(self).headers@.len(),
        ensures
            final(self).wf_graph(),
            final(self).counts_only(old(self)),
            forall|x: int|
                0 <= x < final(self).headers@.len() && #[trigger] final(self).headers@[x].color
                    == Color::Purple ==> old(self).headers@[x].color == Color::Purple,
            old(self).headers@[r as int].color != Color::Gray ==> *final(self) == *old(self),
            old(self).headers@[r as int].color == Color::Gray ==> final(self).headers@[r as int].color
                != Color::Gray,
            forall|x: int|
                0 <= x < old(self).headers@.len() && #[trigger] final(self).headers@[x].color == Color::Gray
                    ==> old(self).headers@[x].color == Color::Gray,
            forall|x: int|
                0 <= x < old(self).headers@.len() && old(self).headers@[x].color == Color::Black
                    ==> #[trigger] final(self).headers@[x].color == Color::Black,
            forall|x: int, j: int|
                0 <= x < final(self).headers@.len() && final(self).headers@[x].color == Color::Black
                    && old(self).headers@[x].color != Color::Black && 0 <= j < final(self).children@[x]@.len()
                    && !final(self).headers@[#[trigger] final(self).children@[x]@[j] as int].leak
                    ==> final(self).headers@[final(self).children@[x]@[j] as int].color == Color::Black,
            forall|x: int, j: int|
                0 <= x < final(self).headers@.len() && final(self).headers@[x].color == Color::White
                    && old(self).headers@[x].color == Color::Gray && 0 <= j < final(self).children@[x]@.len()
                    && !final(self).headers@[#[trigger] final(self).children@[x]@[j] as int].leak
                    ==> final(self).headers@[final(self).children@[x]@[j] as int].color != Color::Gray,
    {
        let mut stack: Vec<usize> = Vec::new();
        stack.push(r);
        let ghost mut first = true;
        proof {
            assert(stack@ =~= seq![r]);
        }
        while stack.len() > 0
            invariant
                forall|x: int|
                    0 <= x < self.headers@.len() && #[trigger] self.headers@[x].color == Color::Purple
                        ==> old(self).headers@[x].color == Color::Purple,
                self.wf_graph(),
                self.counts_only(old(self)),
                forall|k: int| 0 <= k < stack@.len() ==> #[trigger] stack@[k] < self.headers@.len(),
                r < old(self).headers@.len(),
                first ==> stack@ == seq![r] && *self == *old(self),
                !first && old(self).headers@[r as int].color != Color::Gray ==> *self == *old(self)
                    && stack@.len() == 0,
                !first && old(self).headers@[r as int].color == Color::Gray ==> self.headers@[r as int].color
                    != Color::Gray,
                forall|x: int|
                    0 <= x < old(self).headers@.len() && #[trigger] self.headers@[x].color == Color::Gray
                        ==> old(self).headers@[x].color == Color::Gray,
                forall|x: int|
                    0 <= x < old(self).headers@.len() && old(self).headers@[x].color == Color::Black
                        ==> #[trigger] self.headers@[x].color == Color::Black,
                forall|x: int, j: int|
                    0 <= x < self.headers@.len() && self.headers@[x].color == Color::Black
                        && old(self).headers@[x].color != Color::Black && 0 <= j < self.children@[x]@.len()
                        && !self.headers@[#[trigger] self.children@[x]@[j] as int].leak ==> self.headers@[
                        self.children@[x]@[j] as int].color == Color::Black,
                forall|x: int, j: int|
                    0 <= x < self.headers@.len() && self.headers@[x].color == Color::White
                        && old(self).headers@[x].color == Color::Gray && 0 <= j < self.children@[x]@.len()
                        && !self.headers@[#[trigger] self.children@[x]@[j] as int].leak ==> self.headers@[
                        self.children@[x]@[j] as int].color != Color::Gray || stack@.contains(
                        self.children@[x]@[j],
                    ),
            decreases count_color(self.headers@, Color::Gray), stack@.len(),
        {
            let ghost st = stack@;
            let o = stack.pop().unwrap();
            proof {
                if first {
                    assert(o == r);
                    assert(stack@.len() == 0);
                }
            }
            proof {
                first = false;
            }
            let ghost hs = self.headers@;
            let mut h = self.headers[o];
            if h.color == Color::Gray {
                if h.ref_cnt > 0 {
                    self.scan_black(o);
                    proof {
                        assert forall|x: int, j: int|
                            0 <= x < self.headers@.len() && self.headers@[x].color == Color::White
                                && old(self).headers@[x].color == Color::Gray && 0 <= j < self.children@[x]@.len()
                                && !self.headers@[#[trigger] self.children@[x]@[j] as int].leak implies self.headers@[
                            self.children@[x]@[j] as int].color != Color::Gray || stack@.contains(
                            self.children@[x]@[j],
                        ) by {
                            let c = self.children@[x]@[j];
                            assert(hs[x].color == Color::White);
                            if hs[c as int].color == Color::Gray && c != o {
                                assert(st.contains(c));
                                let t = choose|t: int| 0 <= t < st.len() && st[t] == c;
                                assert(t != st.len() - 1);
                                assert(stack@[t] == c);
                            }
                        }
                        assert forall|x: int, j: int|
                            0 <= x < self.headers@.len() && self.headers@[x].color == Color::Black
                                && old(self).headers@[x].color != Color::Black && 0 <= j < self.children@[x]@.len()
                                && !self.headers@[#[trigger] self.children@[x]@[j] as int].leak implies self.headers@[
                            self.children@[x]@[j] as int].color == Color::Black by {
                            let c = self.children@[x]@[j];
                            if hs[x].color == Color::Black {
                                assert(hs[c as int].color == Color::Black);
                            }
                        }
                    }
                } else {
                    h.color = Color::White;
                    self.set_header(o, h);
                    let ghost hw = self.headers@;
                    proof {
                        assert forall|x: int, j: int|
                            0 <= x < self.headers@.len() && self.headers@[x].color == Color::White
                                && old(self).headers@[x].color == Color::Gray && (x != o || j < 0) && 0 <= j
                                < self.children@[x]@.len() && !self.headers@[
                                #[trigger] self.children@[x]@[j] as int].leak implies self.headers@[
                            self.children@[x]@[j] as int].color != Color::Gray || stack@.contains(
                            self.children@[x]@[j],
                        ) by {
                            let c = self.children@[x]@[j];
                            assert(self.headers@[x] == hs[x]);
                            if c != o && hs[c as int].color == Color::Gray {
                                assert(st.contains(c));
                                let t = choose|t: int| 0 <= t < st.len() && st[t] == c;
                                assert(t != st.len() - 1);
                                assert(stack@[t] == c);
                            }
                        }
                        assert forall|x: int, j: int|
                            0 <= x < self.headers@.len() && self.headers@[x].color == Color::Black
                                && old(self).headers@[x].color != Color::Black && 0 <= j < self.children@[x]@.len()
                                && !self.headers@[#[trigger] self.children@[x]@[j] as int].leak implies self.headers@[
                            self.children@[x]@[j] as int].color == Color::Black by {
                            let c = self.children@[x]@[j];
                            assert(x != o);
                            assert(self.headers@[x] == hs[x]);
                            assert(hs[c as int].color == Color::Black);
                        }
                    }
                    let ghost g1 = count_color(self.headers@, Color::Gray);
                    let n = self.children[o].len();
                    let mut k: usize = 0;
                    while k < n
                        invariant
                            forall|x: int|
                                0 <= x < self.headers@.len() && #[trigger] self.headers@[x].color == Color::Purple
                                    ==> old(self).headers@[x].color == Color::Purple,
                            self.wf_graph(),
                            self.counts_only(old(self)),
                            o < self.headers@.len(),
                            n == self.children@[o as int]@.len(),
                            k <= n,
                            count_color(self.headers@, Color::Gray) == g1,
                            r < old(self).headers@.len(),
                            old(self).headers@[r as int].color == Color::Gray,
                            self.headers@[r as int].color != Color::Gray,
                            !first,
                            forall|x: int|
                                0 <= x < old(self).headers@.len() && #[trigger] self.headers@[x].color
                                    == Color::Gray ==> old(self).headers@[x].color == Color::Gray,
                            forall|j: int| 0 <= j < stack@.len() ==> #[trigger] stack@[j] < self.headers@.len(),
                            forall|x: int, j: int|
                                0 <= x < self.headers@.len() && self.headers@[x].color == Color::White
                                    && old(self).headers@[x].color == Color::Gray && (x != o || j < k) && 0
                                    <= j < self.children@[x]@.len() && !self.headers@[
                                    #[trigger] self.children@[x]@[j] as int].leak ==> self.headers@[
                                    self.children@[x]@[j] as int].color != Color::Gray || stack@.contains(
                                    self.children@[x]@[j],
                                ),
                            self.headers@ == hw,
                            hw[o as int].color == Color::White,
                        decreases n - k,
                    {
                        let ch = self.children[o][k];
                        let ghost sk = stack@;
                        if !self.headers[ch].leak {
                            stack.push(ch);
                        }
                        proof {
                            assert forall|x: int, j: int|
                                0 <= x < self.headers@.len() && self.headers@[x].color == Color::White
                                    && old(self).headers@[x].color == Color::Gray && (x != o || j < k + 1) && 0
                                    <= j < self.children@[x]@.len() && !self.headers@[
                                    #[trigger] self.children@[x]@[j] as int].leak implies self.headers@[
                                self.children@[x]@[j] as int].color != Color::Gray || stack@.contains(
                                self.children@[x]@[j],
                            ) by {
                                let c = self.children@[x]@[j];
                                if x == o && j == k {
                                    assert(stack@[stack@.len() - 1] == c);
                                } else if sk.contains(c) {
                                    let t = choose|t: int| 0 <= t < sk.len() && sk[t] == c;
                                    assert(stack@[t] == c);
                                }
                            }
                        }
                        k = k + 1;
                    }
                }
            } else {
                proof {
                    assert forall|x: int, j: int|
                        0 <= x < self.headers@.len() && self.headers@[x].color == Color::White
                            && old(self).headers@[x].color == Color::Gray && 0 <= j < self.children@[x]@.len()
                            && !self.headers@[#[trigger] self.children@[x]@[j] as int].leak implies self.headers@[
                        self.children@[x]@[j] as int].color != Color::Gray || stack@.contains(
                        self.children@[x]@[j],
                    ) by {
                        let c = self.children@[x]@[j];
                        if c != o && self.headers@[c as int].color == Color::Gray {
                            assert(st.contains(c));
                            let t = choose|t: int| 0 <= t < st.len() && st[t] == c;
                            assert(t != st.len() - 1);
                            assert(stack@[t] == c);
                        }
                    }
                }
            }
        }
    }

    /// Gathers into `white` every white, unbuffered object reachable from
    /// `r`; each one turns black and is flagged as part of a garbage cycle.
    fn collect_white(&mut self, r: usize, white: &mut Vec<usize>)
        requires
            old(self).wf_graph(),
            r < old(self).headers@.len(),
            forall|k: int| 0 <= k < old(white)@.len() ==> #[trigger] old(white)@[k] < old(self).headers@.len(),
            forall|k: int|
                0 <= k < old(white)@.len() ==> {
                    let h = #[trigger] old(self).headers@[old(white)@[k] as int];
                    h.color == Color::Black && h.in_cycle && !h.buffered
                },
            forall|a: int, b: int| 0 <= a < b < old(white)@.len() ==> #[trigger] old(white)@[a] != #[trigger] old(white)@[b],
        ensures
            final(self).wf_graph(),
            final(self).marks_only(old(self)),
            forall|k: int| 0 <= k < final(white)@.len() ==> #[trigger] final(white)@[k] < final(self).headers@.len(),
            forall|x: int|
                0 <= x < final(self).headers@.len() && #[trigger] final(self).headers@[x].color
                    == Color::Purple ==> old(self).headers@[x].color == Color::Purple,
            forall|k: int|
                0 <= k < final(white)@.len() ==> {
                    let h = #[trigger] final(self).headers@[final(white)@[k] as int];
                    h.color == Color::Black && h.in_cycle && !h.buffered
                },
            forall|a: int, b: int| 0 <= a < b < final(white)@.len() ==> #[trigger] final(white)@[a] != #[trigger] final(white)@[b],
            forall|x: int|
                0 <= x < old(self).headers@.len() && #[trigger] final(self).headers@[x].in_cycle
                    && !old(self).headers@[x].in_cycle ==> final(white)@.contains(x as usize),
            final(white)@.len() >= old(white)@.len(),
            forall|k: int| 0 <= k < old(white)@.len() ==> #[trigger] final(white)@[k] == old(white)@[k],
            forall|x: int|
                0 <= x < old(self).headers@.len() && #[trigger] final(self).headers@[x].color
                    != old(self).headers@[x].color ==> old(self).headers@[x].color == Color::White
                    && final(self).headers@[x].color == Color::Black && final(white)@.contains(x as usize),
            forall|k: int|
                old(white)@.len() <= k < final(white)@.len() ==> #[trigger] old(self).headers@[final(white)@[k] as int].color
                    == Color::White,
            old(self).headers@[r as int].color == Color::White && !old(self).headers@[r as int].buffered
                ==> final(white)@.contains(r),
    {
        let mut stack: Vec<usize> = Vec::new();
        stack.push(r);
        proof {
            assert(stack@ =~= seq![r]);
        }
        while stack.len() > 0
            invariant
                forall|x: int|
                    0 <= x < self.headers@.len() && #[trigger] self.headers@[x].color == Color::Purple
                        ==> old(self).headers@[x].color == Color::Purple,
                self.wf_graph(),
                self.marks_only(old(self)),
                forall|k: int| 0 <= k < stack@.len() ==> #[trigger] stack@[k] < self.headers@.len(),
                forall|k: int| 0 <= k < white@.len() ==> #[trigger] white@[k] < self.headers@.len(),
                forall|k: int|
                    0 <= k < white@.len() ==> {
                        let h = #[trigger] self.headers@[white@[k] as int];
                        h.color == Color::Black && h.in_cycle && !h.buffered
                    },
                forall|a: int, b: int| 0 <= a < b < white@.len() ==> #[trigger] white@[a] != #[trigger] white@[b],
                forall|x: int|
                    0 <= x < old(self).headers@.len() && #[trigger] self.headers@[x].in_cycle
                        && !old(self).headers@[x].in_cycle ==> white@.contains(x as usize),
                white@.len() >= old(white)@.len(),
                forall|k: int| 0 <= k < old(white)@.len() ==> #[trigger] white@[k] == old(white)@[k],
                forall|x: int|
                    0 <= x < old(self).headers@.len() && #[trigger] self.headers@[x].color
                        != old(self).headers@[x].color ==> old(self).headers@[x].color == Color::White
                        && self.headers@[x].color == Color::Black && white@.contains(x as usize),
                forall|k: int|
                    old(white)@.len() <= k < white@.len() ==> #[trigger] old(self).headers@[white@[k] as int].color
                        == Color::White,
                r < old(self).headers@.len(),
                stack@ == seq![r] || (old(self).headers@[r as int].color == Color::White
                    && !old(self).headers@[r as int].buffered ==> white@.contains(r)),
            decreases count_color(self.headers@, Color::White), stack@.len(),
        {
            let ghost st = stack@;
            let ghost hh = self.headers@;
            let ghost wh = white@;
            let o = stack.pop().unwrap();
            proof {
                if st == seq![r] {
                    assert(o == r);
                }
            }
            let mut h = self.headers[o];
            if h.color == Color::White && !h.buffered {
                proof {
                    assert forall|j: int| 0 <= j < white@.len() implies #[trigger] white@[j] != o by {
                        assert(self.headers@[white@[j] as int].color == Color::Black);
                    }
                }
                h.color = Color::Black;
                h.in_cycle = true;
                self.set_header(o, h);
                let ghost w1 = count_color(self.headers@, Color::White);
                let ghost hb = self.headers@;
                let ghost wv = white@;
                let n = self.children[o].len();
                let mut k: usize = 0;
                while k < n
                    invariant
                        forall|x: int|
                            0 <= x < self.headers@.len() && #[trigger] self.headers@[x].color == Color::Purple
                                ==> old(self).headers@[x].color == Color::Purple,
                        self.wf_graph(),
                        self.marks_only(old(self)),
                        o < self.headers@.len(),
                        n == self.children@[o as int]@.len(),
                        k <= n,
                        count_color(self.headers@, Color::White) == w1,
                        forall|j: int| 0 <= j < stack@.len() ==> #[trigger] stack@[j] < self.headers@.len(),
                        forall|k: int|
                            0 <= k < white@.len() ==> {
                                let h = #[trigger] self.headers@[white@[k] as int];
                                h.color == Color::Black && h.in_cycle && !h.buffered
                            },
                        forall|a: int, b: int| 0 <= a < b < white@.len() ==> #[trigger] white@[a] != #[trigger] white@[b],
                        o < self.headers@.len(),
                        self.headers@[o as int].color == Color::Black && self.headers@[o as int].in_cycle
                            && !self.headers@[o as int].buffered,
                        forall|j: int| 0 <= j < white@.len() ==> #[trigger] white@[j] != o,
                        white@.len() >= old(white)@.len(),
                        forall|k: int| 0 <= k < old(white)@.len() ==> #[trigger] white@[k] == old(white)@[k],
                        forall|x: int|
                            0 <= x < old(self).headers@.len() && #[trigger] self.headers@[x].in_cycle
                                && !old(self).headers@[x].in_cycle && x != o ==> white@.contains(x as usize),
                        self.headers@ == hb,
                        white@ == wv,
                    decreases n - k,
                {
                    let ch = self.children[o][k];
                    if !self.headers[ch].leak {
                        stack.push(ch);
                    }
                    k = k + 1;
                }
                let ghost wb = white@;
                white.push(o);
                proof {
                    assert(white@[white@.len() - 1] == o);
                    assert(white@.contains(o));
                    assert(old(self).headers@[o as int].color == Color::White) by {
                        if hh[o as int].color != old(self).headers@[o as int].color {
                            assert(hh[o as int].color == Color::Black);
                        }
                    }
                    assert forall|x: int|
                        0 <= x < old(self).headers@.len() && #[trigger] self.headers@[x].color
                            != old(self).headers@[x].color implies old(self).headers@[x].color == Color::White
                            && self.headers@[x].color == Color::Black && white@.contains(x as usize) by {
                        if x != o {
                            assert(self.headers@[x] == hh[x]);
                            let j = choose|j: int| 0 <= j < wb.len() && wb[j] == x as usize;
                            assert(white@[j] == x as usize);
                        }
                    }
                    assert forall|k: int|
                        old(white)@.len() <= k < white@.len() implies #[trigger] old(self).headers@[white@[k] as int].color
                            == Color::White by {
                        if k < wb.len() {
                            assert(white@[k] == wb[k]);
                        }
                    }
                    if old(self).headers@[r as int].color == Color::White && !old(self).headers@[r as int].buffered
                        && wh.contains(r) {
                        let j = choose|j: int| 0 <= j < wh.len() && wh[j] == r;
                        assert(white@[j] == r);
                    }
                    assert forall|x: int|
                        0 <= x < old(self).headers@.len() && #[trigger] self.headers@[x].in_cycle
                            && !old(self).headers@[x].in_cycle implies white@.contains(x as usize) by {
                        if x != o {
                            let j = choose|j: int| 0 <= j < wb.len() && wb[j] == x as usize;
                            assert(white@[j] == x as usize);
                        }
                    }
                }
            }
        }
    }
}

impl Collector {
    /// First phase of a pass. The root buffer keeps exactly its purple
    /// entries; the others leave it, and those destroyed while buffered,
    /// black and at zero are freed here (their number is returned). Then
    /// each kept root is trial-deleted.
    fn mark_roots(&mut self) -> (freed: usize)
        requires
            old(self).wf(),
        ensures
            final(self).wf(),
            final(self).same_shape(old(self)),
            final(self).headers@.len() == old(self).headers@.len(),
            final(self).roots@ == purple_entries(old(self).headers@, old(self).roots@),
            freed == freeable_count(old(self).headers@, old(self).roots@),
            forall|k: int|
                0 <= k < old(self).roots@.len() && freeable(
                    old(self).headers@[old(self).roots@[k] as int],
                ) ==> #[trigger] final(self).headers@[old(self).roots@[k] as int].phase == Phase::Freed,
            forall|o: int|
                0 <= o < old(self).headers@.len() ==> phase_kept_or_buffered_free(
                    old(self).headers@[o].phase,
                    #[trigger] final(self).headers@[o].phase,
                    old(self).roots@.contains(o as usize),
                ),
            forall|x: int|
                0 <= x < final(self).headers@.len() ==> #[trigger] final(self).headers@[x].color
                    != Color::Purple,
            forall|x: int|
                0 <= x < old(self).headers@.len() ==> #[trigger] final(self).headers@[x].in_cycle
                    == old(self).headers@[x].in_cycle,
            forall|k: int|
                0 <= k < final(self).roots@.len() ==> #[trigger] final(self).headers@[final(self).roots@[k] as int].color
                    == Color::Gray,
            forall|x: int, j: int|
                0 <= x < final(self).headers@.len() && final(self).headers@[x].color == Color::Gray
                    && old(self).headers@[x].color != Color::Gray && 0 <= j < final(self).children@[x]@.len()
                    && !final(self).headers@[#[trigger] final(self).children@[x]@[j] as int].leak
                    ==> final(self).headers@[final(self).children@[x]@[j] as int].color == Color::Gray,
    {
        let ghost hs0 = self.headers@;
        let ghost rs = self.roots@;
        let n = self.roots.len();
        let mut kept: Vec<usize> = Vec::new();
        let mut freed: usize = 0;
        let mut i: usize = 0;
        proof {
            assert(kept@ + rs.subrange(0, n as int) =~= rs);
            assert(rs.subrange(0, 0) =~= Seq::<usize>::empty());
        }
        while i < n
            invariant
                self.wf_graph(),
                self.same_shape(old(self)),
                self.roots@ == rs,
                rs == old(self).roots@,
                hs0 == old(self).headers@,
                n == rs.len(),
                i <= n,
                self.headers@.len() == hs0.len(),
                self.buffer_ok(kept@, rs.subrange(i as int, n as int)),
                kept@ == purple_entries(hs0, rs.subrange(0, i as int)),
                freed == freeable_count(hs0, rs.subrange(0, i as int)),
                freed <= i,
                forall|p: int, q: int| 0 <= p < q < n ==> #[trigger] rs[p] != #[trigger] rs[q],
                forall|j: int| 0 <= j < n ==> #[trigger] rs[j] < hs0.len(),
                forall|j: int| i <= j < n ==> #[trigger] self.headers@[rs[j] as int] == hs0[rs[j] as int],
                forall|x: int|
                    0 <= x < hs0.len() && #[trigger] self.headers@[x].color == Color::Purple
                        ==> self.headers@[x].buffered,
                forall|j: int|
                    0 <= j < i && freeable(hs0[rs[j] as int]) ==> #[trigger] self.headers@[rs[j] as int].phase
                        == Phase::Freed,
                forall|x: int|
                    0 <= x < hs0.len() ==> phase_kept_or_buffered_free(
                        hs0[x].phase,
                        #[trigger] self.headers@[x].phase,
                        rs.contains(x as usize),
                    ),
                forall|x: int|
                    0 <= x < hs0.len() ==> #[trigger] self.headers@[x].color == hs0[x].color
                        && self.headers@[x].ref_cnt == hs0[x].ref_cnt && self.headers@[x].leak
                        == hs0[x].leak && self.headers@[x].in_cycle == hs0[x].in_cycle,
            decreases n - i,
        {
            let o = self.roots[i];
            let ghost a = kept@;
            let ghost b = rs.subrange(i as int, n as int);
            proof {
                assert(b[0] == o);
                assert(rs.subrange(0, i + 1).drop_last() =~= rs.subrange(0, i as int));
                assert(rs.subrange(0, i + 1).last() == o);
                assert(b.drop_first() =~= rs.subrange(i + 1, n as int));
                assert((a + b)[a.len() as int] == o);
                assert(o < self.headers@.len());
                assert(self.headers@[o as int] == hs0[o as int]);
                assert(rs.contains(o));
            }
            let h = self.headers[o];
            if h.color == Color::Purple {
                kept.push(o);
                proof {
                    assert(kept@ + b.drop_first() =~= a + b);
                }
            } else {
                let mut h2 = h;
                h2.buffered = false;
                self.set_header(o, h2);
                proof {
                    lemma_drop_first(a, b);
                }
                if h.color == Color::Black && h.ref_cnt == 0 && h.phase == Phase::Finalized {
                    let ok = self.try_free(o);
                    assert(ok);
                    freed = freed + 1;
                }
            }
            proof {
                assert forall|j: int| i + 1 <= j < n implies #[trigger] self.headers@[rs[j] as int]
                    == hs0[rs[j] as int] by {
                    assert(rs[i as int] != rs[j]);
                }
                assert forall|j: int|
                    0 <= j < i + 1 && freeable(hs0[rs[j] as int]) implies #[trigger] self.headers@[rs[j] as int].phase
                        == Phase::Freed by {
                    if j < i {
                        assert(rs[j] != rs[i as int]);
                    }
                }
            }
            i = i + 1;
        }
        proof {
            assert(rs.subrange(0, n as int) =~= rs);
            assert(rs.subrange(n as int, n as int) =~= Seq::<usize>::empty());
            assert(kept@ + Seq::<usize>::empty() =~= kept@);
        }
        self.roots = kept;
        let ghost p1 = self.headers@;
        proof {
            assert forall|x: int| 0 <= x < hs0.len() implies #[trigger] self.headers@[x].in_cycle
                == hs0[x].in_cycle by {
                assert(self.headers@[x].color == hs0[x].color);
            }
        }
        let mut k: usize = 0;
        while k < self.roots.len()
            invariant
                self.wf(),
                self.same_shape(old(self)),
                self.headers@.len() == hs0.len(),
                self.roots@ == purple_entries(hs0, rs),
                rs == old(self).roots@,
                hs0 == old(self).headers@,
                p1.len() == hs0.len(),
                forall|x: int| 0 <= x < hs0.len() ==> #[trigger] self.headers@[x].phase == p1[x].phase,
                forall|x: int| 0 <= x < hs0.len() ==> #[trigger] self.headers@[x].in_cycle == hs0[x].in_cycle,
                k <= self.roots@.len(),
                forall|x: int|
                    0 <= x < hs0.len() && p1[x].color == Color::Gray ==> #[trigger] self.headers@[x].color
                        == Color::Gray,
                forall|x: int, j: int|
                    0 <= x < self.headers@.len() && self.headers@[x].color == Color::Gray && p1[x].color
                        != Color::Gray && 0 <= j < self.children@[x]@.len() && !self.headers@[
                        #[trigger] self.children@[x]@[j] as int].leak ==> self.headers@[
                        self.children@[x]@[j] as int].color == Color::Gray,
                forall|x: int|
                    0 <= x < hs0.len() && #[trigger] self.headers@[x].color == Color::Purple
                        ==> p1[x].color == Color::Purple,
                forall|j: int| 0 <= j < k ==> #[trigger] self.headers@[self.roots@[j] as int].color == Color::Gray,
                forall|x: usize| x < hs0.len() ==> (#[trigger] p1[x as int].buffered <==> self.roots@.contains(x)),
                forall|x: int| 0 <= x < hs0.len() && #[trigger] p1[x].color == Color::Purple ==> p1[x].buffered,
            decreases self.roots@.len() - k,
        {
            let o = self.roots[k];
            let ghost before = self.headers@;
            let ghost sb = *self;
            self.mark_gray(o);
            proof {
                assert forall|x: int|
                    0 <= x < hs0.len() && p1[x].color == Color::Gray implies #[trigger] self.headers@[x].color
                        == Color::Gray by {
                    assert(before[x].color == Color::Gray);
                }
                assert forall|x: int, j: int|
                    0 <= x < self.headers@.len() && self.headers@[x].color == Color::Gray && p1[x].color
                        != Color::Gray && 0 <= j < self.children@[x]@.len() && !self.headers@[
                        #[trigger] self.children@[x]@[j] as int].leak implies self.headers@[
                    self.children@[x]@[j] as int].color == Color::Gray by {
                    let c = self.children@[x]@[j];
                    assert(self.headers@[c as int].leak == before[c as int].leak);
                    if before[x].color == Color::Gray {
                        assert(sb.children@[x]@[j] == c);
                        assert(before[c as int].color == Color::Gray);
                    }
                }
                assert forall|x: int| 0 <= x < hs0.len() implies #[trigger] self.headers@[x].phase
                    == p1[x].phase by {
                    assert(same_flags(self.headers@[x], before[x]));
                }
                assert forall|x: int| 0 <= x < hs0.len() implies #[trigger] self.headers@[x].in_cycle
                    == hs0[x].in_cycle by {
                    assert(same_flags(self.headers@[x], before[x]));
                }
                assert forall|x: int|
                    0 <= x < hs0.len() && #[trigger] self.headers@[x].color == Color::Purple
                        implies p1[x].color == Color::Purple by {
                    assert(before[x].color == Color::Purple);
                }
                assert forall|j: int| 0 <= j < k + 1 implies #[trigger] self.headers@[self.roots@[j] as int].color
                    == Color::Gray by {
                    if j < k {
                        assert(before[self.roots@[j] as int].color == Color::Gray);
                    }
                }
            }
            k = k + 1;
        }
        let hl = self.headers.len();
        proof {
            assert forall|x: int| 0 <= x < self.headers@.len() implies #[trigger] self.headers@[x].color
                != Color::Purple by {
                assert(x < hl);
                if self.headers@[x].color == Color::Purple {
                    assert(p1[x].color == Color::Purple);
                    assert(p1[x].buffered);
                    assert(p1[(x as usize) as int].buffered);
                    assert(self.roots@.contains(x as usize));
                    assert(k == self.roots@.len());
                    let j = choose|j: int| 0 <= j < self.roots@.len() && self.roots@[j] == x as usize;
                    assert(self.headers@[self.roots@[j] as int].color == Color::Gray);
                }
            }
            assert forall|j: int|
                0 <= j < rs.len() && freeable(hs0[rs[j] as int]) implies #[trigger] self.headers@[rs[j] as int].phase
                    == Phase::Freed by {
                assert(p1[rs[j] as int].phase == Phase::Freed);
            }
            assert forall|x: int| 0 <= x < hs0.len() implies phase_kept_or_buffered_free(
                hs0[x].phase,
                #[trigger] self.headers@[x].phase,
                rs.contains(x as usize),
            ) by {
                assert(self.headers@[x].phase == p1[x].phase);
            }
        }
        freed
    }

    /// Second phase: scans from every root left in the buffer.
    fn scan_roots(&mut self)
        requires
            old(self).wf(),
        ensures
            final(self).wf(),
            final(self).counts_only(old(self)),
            forall|x: int|
                0 <= x < final(self).headers@.len() && #[trigger] final(self).headers@[x].color
                    == Color::Purple ==> old(self).headers@[x].color == Color::Purple,
    {
        let mut i: usize = 0;
        while i < self.roots.len()
            invariant
                forall|x: int|
                    0 <= x < self.headers@.len() && #[trigger] self.headers@[x].color == Color::Purple
                        ==> old(self).headers@[x].color == Color::Purple,
                self.wf(),
                self.counts_only(old(self)),
            decreases self.roots@.len() - i,
        {
            let o = self.roots[i];
            self.scan(o);
            i = i + 1;
        }
    }

    /// Third phase: empties the root buffer and gathers the white objects
    /// reachable from its entries.
    fn collect_roots(&mut self) -> (white: Vec<usize>)
        requires
            old(self).wf(),
            forall|x: int|
                0 <= x < old(self).headers@.len() ==> #[trigger] old(self).headers@[x].color
                    != Color::Purple,
        ensures
            final(self).wf(),
            final(self).same_shape(old(self)),
            final(self).headers@.len() == old(self).headers@.len(),
            final(self).roots@.len() == 0,
            forall|k: int| 0 <= k < white@.len() ==> #[trigger] white@[k] < final(self).headers@.len(),
            forall|o: int|
                0 <= o < old(self).headers@.len() ==> #[trigger] final(self).headers@[o].phase
                    == old(self).headers@[o].phase,
            forall|x: int|
                0 <= x < final(self).headers@.len() ==> #[trigger] final(self).headers@[x].color
                    != Color::Purple,
            forall|k: int|
                0 <= k < white@.len() ==> {
                    let h = #[trigger] final(self).headers@[white@[k] as int];
                    h.color == Color::Black && h.in_cycle && !h.buffered
                },
            forall|a: int, b: int| 0 <= a < b < white@.len() ==> #[trigger] white@[a] != #[trigger] white@[b],
            forall|x: int|
                0 <= x < old(self).headers@.len() && #[trigger] final(self).headers@[x].in_cycle
                    && !old(self).headers@[x].in_cycle ==> white@.contains(x as usize),
            forall|x: int|
                0 <= x < old(self).headers@.len() && #[trigger] final(self).headers@[x].color
                    != old(self).headers@[x].color ==> old(self).headers@[x].color == Color::White
                    && white@.contains(x as usize),
            forall|k: int| 0 <= k < white@.len() ==> #[trigger] old(self).headers@[white@[k] as int].color
                == Color::White,
            forall|k: int|
                0 <= k < old(self).roots@.len() && old(self).headers@[old(self).roots@[k] as int].color
                    == Color::White ==> white@.contains(#[trigger] old(self).roots@[k]),
    {
        let mut white: Vec<usize> = Vec::new();
        proof {
            assert(self.roots@ + Seq::<usize>::empty() =~= self.roots@);
        }
        while self.roots.len() > 0
            invariant
                self.wf_graph(),
                self.same_shape(old(self)),
                self.headers@.len() == old(self).headers@.len(),
                self.buffer_ok(self.roots@, Seq::<usize>::empty()),
                forall|k: int| 0 <= k < white@.len() ==> #[trigger] white@[k] < self.headers@.len(),
                forall|o: int|
                    0 <= o < old(self).headers@.len() ==> #[trigger] self.headers@[o].phase
                        == old(self).headers@[o].phase,
                forall|x: int|
                    0 <= x < self.headers@.len() ==> #[trigger] self.headers@[x].color != Color::Purple,
                forall|k: int|
                    0 <= k < white@.len() ==> {
                        let h = #[trigger] self.headers@[white@[k] as int];
                        h.color == Color::Black && h.in_cycle && !h.buffered
                    },
                forall|a: int, b: int| 0 <= a < b < white@.len() ==> #[trigger] white@[a] != #[trigger] white@[b],
                forall|x: int|
                    0 <= x < old(self).headers@.len() && #[trigger] self.headers@[x].in_cycle
                        && !old(self).headers@[x].in_cycle ==> white@.contains(x as usize),
                forall|x: int|
                    0 <= x < old(self).headers@.len() && #[trigger] self.headers@[x].color
                        != old(self).headers@[x].color ==> old(self).headers@[x].color == Color::White
                        && white@.contains(x as usize),
                forall|k: int| 0 <= k < white@.len() ==> #[trigger] old(self).headers@[white@[k] as int].color
                    == Color::White,
                self.roots@.len() <= old(self).roots@.len(),
                self.roots@ == old(self).roots@.subrange(0, self.roots@.len() as int),
                forall|k: int|
                    self.roots@.len() <= k < old(self).roots@.len() && old(self).headers@[old(self).roots@[k] as int].color
                        == Color::White ==> white@.contains(#[trigger] old(self).roots@[k]),
            decreases self.roots@.len(),
        {
            let ghost a = self.roots@;
            let ghost sh = self.headers@;
            let o = self.roots.pop().unwrap();
            proof {
                assert((a + Seq::<usize>::empty())[a.len() - 1] == o);
            }
            let mut h = self.headers[o];
            h.buffered = false;
            self.set_header(o, h);
            proof {
                lemma_drop_last(a, Seq::<usize>::empty());
            }
            let ghost sb = *self;
            let ghost wb = white@;
            self.collect_white(o, &mut white);
            proof {
                assert(a == old(self).roots@.subrange(0, a.len() as int));
                assert(a[a.len() - 1] == o);
                assert(a[a.len() - 1] == old(self).roots@[a.len() - 1]);
                assert(self.roots@.len() == a.len() - 1);
                assert(old(self).roots@[self.roots@.len() as int] == o);
                assert(self.roots@ =~= old(self).roots@.subrange(0, self.roots@.len() as int));
                assert forall|x: int|
                    0 <= x < old(self).headers@.len() && #[trigger] self.headers@[x].color
                        != old(self).headers@[x].color implies old(self).headers@[x].color == Color::White
                        && white@.contains(x as usize) by {
                    assert(sb.headers@[x].color == sh[x].color);
                    if self.headers@[x].color == sb.headers@[x].color {
                        assert(wb.contains(x as usize));
                        let j = choose|j: int| 0 <= j < wb.len() && wb[j] == x as usize;
                        assert(white@[j] == x as usize);
                    } else if sh[x].color != old(self).headers@[x].color {
                        assert(sh[x].color == Color::Black);
                    }
                }
                assert forall|k: int| 0 <= k < white@.len() implies #[trigger] old(self).headers@[white@[k] as int].color
                    == Color::White by {
                    if k < wb.len() {
                        assert(white@[k] == wb[k]);
                    } else {
                        assert(sb.headers@[white@[k] as int].color == Color::White);
                        assert(sh[white@[k] as int].color == Color::White);
                    }
                }
                assert forall|k: int|
                    self.roots@.len() <= k < old(self).roots@.len() && old(self).headers@[old(self).roots@[k] as int].color
                        == Color::White implies white@.contains(#[trigger] old(self).roots@[k]) by {
                    let y = old(self).roots@[k];
                    if k > self.roots@.len() {
                        assert(wb.contains(y));
                        let j = choose|j: int| 0 <= j < wb.len() && wb[j] == y;
                        assert(white@[j] == y);
                    } else {
                        assert(y == o);
                        if sh[o as int].color != old(self).headers@[o as int].color {
                            assert(wb.contains(o));
                            let j = choose|j: int| 0 <= j < wb.len() && wb[j] == o;
                            assert(white@[j] == o);
                        } else {
                            assert(sb.headers@[o as int].color == Color::White);
                            assert(!sb.headers@[o as int].buffered);
                        }
                    }
                }
                assert forall|x: int|
                    0 <= x < old(self).headers@.len() && #[trigger] self.headers@[x].in_cycle
                        && !old(self).headers@[x].in_cycle implies white@.contains(x as usize) by {
                    if !sb.headers@[x].in_cycle {
                        assert(self.headers@[x].in_cycle && !sb.headers@[x].in_cycle);
                    } else {
                        assert(sb.headers@[x].in_cycle == sh[x].in_cycle);
                        assert(sh[x].in_cycle && !old(self).headers@[x].in_cycle);
                        assert(wb.contains(x as usize));
                        let j = choose|j: int| 0 <= j < wb.len() && wb[j] == x as usize;
                        assert(white@[j] == x as usize);
                    }
                }
            }
        }
        proof {
            assert(self.roots@ + Seq::<usize>::empty() =~= self.roots@);
        }
        white
    }

    /// Gives back the trial decrement on every child, still referenced from
    /// elsewhere, of an object in `white`: destroying that object will take
    /// the reference off again.
    fn compensate(&mut self, white: &Vec<usize>)
        requires
            old(self).wf(),
            forall|k: int| 0 <= k < white@.len() ==> #[trigger] white@[k] < old(self).headers@.len(),
        ensures
            final(self).wf(),
            final(self).counts_only(old(self)),
            forall|x: int|
                0 <= x < final(self).headers@.len() && #[trigger] final(self).headers@[x].color
                    == Color::Purple ==> old(self).headers@[x].color == Color::Purple,
            forall|x: int|
                0 <= x < old(self).headers@.len() ==> #[trigger] final(self).headers@[x].color
                    == old(self).headers@[x].color,
    {
        let mut i: usize = 0;
        while i < white.len()
            invariant
                forall|x: int|
                    0 <= x < old(self).headers@.len() ==> #[trigger] self.headers@[x].color
                        == old(self).headers@[x].color,
                forall|x: int|
                    0 <= x < self.headers@.len() && #[trigger] self.headers@[x].color == Color::Purple
                        ==> old(self).headers@[x].color == Color::Purple,
                self.wf(),
                self.counts_only(old(self)),
                forall|k: int| 0 <= k < white@.len() ==> #[trigger] white@[k] < self.headers@.len(),
            decreases white@.len() - i,
        {
            let o = white[i];
            let n = self.children[o].len();
            let mut k: usize = 0;
            while k < n
                invariant
                    forall|x: int|
                        0 <= x < old(self).headers@.len() ==> #[trigger] self.headers@[x].color
                            == old(self).headers@[x].color,
                    forall|x: int|
                        0 <= x < self.headers@.len() && #[trigger] self.headers@[x].color == Color::Purple
                            ==> old(self).headers@[x].color == Color::Purple,
                    self.wf(),
                    self.counts_only(old(self)),
                    o < self.headers@.len(),
                    n == self.children@[o as int]@.len(),
                    k <= n,
                decreases n - k,
            {
                let ch = self.children[o][k];
                let mut hc = self.headers[ch];
                if !hc.leak && hc.ref_cnt > 0 && hc.ref_cnt < usize::MAX {
                    hc.ref_cnt = hc.ref_cnt + 1;
                    self.set_header(ch, hc);
                }
                k = k + 1;
            }
            i = i + 1;
        }
    }

    /// Starts a collection pass: mark, scan and collect. The garbage cycles
    /// found wait, finalizers not yet run, for `collect_finish`. Returns how
    /// many acyclic objects were freed from the root buffer. Does nothing
    /// while a pass is already open.
    pub fn collect_begin(&mut self) -> (freed: usize)
        requires
            old(self).wf(),
        ensures
            final(self).wf(),
            final(self).len() == old(self).len(),
            final(self).is_enabled_spec() == old(self).is_enabled_spec(),
            old(self).in_pass() || old(self).root_buffer().len() == 0 ==> *final(self) == *old(self)
                && freed == 0,
            !old(self).in_pass() && old(self).root_buffer().len() > 0 ==> {
                &&& final(self).in_pass()
                &&& final(self).root_buffer().len() == 0
                &&& freed == freeable_count(old(self).headers(), old(self).root_buffer())
            },
            !old(self).in_pass() ==> forall|k: int|
                0 <= k < old(self).root_buffer().len() && freeable(
                    old(self).hdr(old(self).root_buffer()[k] as int),
                ) ==> #[trigger] final(self).hdr(old(self).root_buffer()[k] as int).phase == Phase::Freed,
            forall|o: int|
                0 <= o < old(self).len() ==> phase_kept_or_buffered_free(
                    old(self).hdr(o).phase,
                    #[trigger] final(self).hdr(o).phase,
                    old(self).root_buffer().contains(o as usize),
                ),
            !old(self).in_pass() ==> forall|k: int|
                0 <= k < final(self).pending_white().len() ==> {
                    let h = #[trigger] final(self).hdr(final(self).pending_white()[k] as int);
                    h.color == Color::Black && h.in_cycle && !h.buffered
                },
            !old(self).in_pass() ==> forall|a: int, b: int|
                0 <= a < b < final(self).pending_white().len() ==> #[trigger] final(self).pending_white()[a]
                    != #[trigger] final(self).pending_white()[b],
            !old(self).in_pass() ==> forall|o: int|
                0 <= o < old(self).len() && #[trigger] final(self).hdr(o).in_cycle && !old(self).hdr(
                    o,
                ).in_cycle ==> final(self).pending_white().contains(o as usize),
    {
        if self.collecting || self.roots.len() == 0 {
            return 0;
        }
        let freed = self.mark_roots();
        let ghost after_mark = self.headers@;
        self.scan_roots();
        assert(forall|x: int| 0 <= x < self.headers@.len() ==> #[trigger] self.headers@[x].color != Color::Purple);
        assert(forall|o: int| 0 <= o < after_mark.len() ==> #[trigger] self.headers@[o].phase == after_mark[o].phase);
        let white = self.collect_roots();
        let ghost after_collect = self.headers@;
        self.compensate(&white);
        proof {
            assert forall|k: int| 0 <= k < white@.len() implies {
                let h = #[trigger] self.headers@[white@[k] as int];
                h.color == Color::Black && h.in_cycle && !h.buffered
            } by {
                assert(same_flags(self.headers@[white@[k] as int], after_collect[white@[k] as int]));
            }
        }
        assert(forall|o: int| 0 <= o < after_collect.len() ==> #[trigger] self.headers@[o].phase == after_collect[o].phase);
        self.pending = white;
        self.collecting = true;
        proof {
            assert forall|o: int|
                0 <= o < old(self).len() && #[trigger] self.hdr(o).in_cycle && !old(self).hdr(o).in_cycle
                    implies self.pending_white().contains(o as usize) by {
                assert(same_flags(self.headers@[o], after_collect[o]));
                assert(after_mark[o].in_cycle == old(self).headers@[o].in_cycle);
            }
            assert forall|k: int|
                0 <= k < old(self).roots@.len() && freeable(old(self).headers@[old(self).roots@[k] as int])
                    implies #[trigger] self.headers@[old(self).roots@[k] as int].phase == Phase::Freed by {
                assert(after_mark[old(self).roots@[k] as int].phase == Phase::Freed);
                assert(old(self).roots@[k] < after_mark.len());
            }
        }
        freed
    }
}

impl Collector {
    /// Ends the open pass, after the finalizers of the garbage found have
    /// run. An object that a finalizer made reachable again (its count is
    /// positive) survives, and so does every collected object reachable from
    /// it: they get back the references they hold among themselves, leave
    /// the cycle, and return to the root buffer for a later pass; nothing
    /// else touches them. The rest are all destroyed first, and only then
    /// all freed. Returns how many were freed.
    #[verifier::rlimit(100)]
    pub fn collect_finish(&mut self) -> (freed: usize)
        requires
            old(self).wf(),
        ensures
            final(self).wf(),
            !final(self).in_pass(),
            final(self).len() == old(self).len(),
            final(self).is_enabled_spec() == old(self).is_enabled_spec(),
            !old(self).in_pass() ==> *final(self) == *old(self) && freed == 0,
            forall|o: int|
                0 <= o < old(self).len() && old(self).pending_white().contains(o as usize)
                    && reached_from_survivor(*old(self), o) ==> {
                    &&& #[trigger] final(self).hdr(o).phase == old(self).hdr(o).phase
                    &&& final(self).hdr(o).ref_cnt >= old(self).hdr(o).ref_cnt
                    &&& final(self).hdr(o).buffered
                    &&& !final(self).hdr(o).in_cycle
                    &&& final(self).root_buffer().contains(o as usize)
                },
            forall|o: int|
                0 <= o < old(self).len() && old(self).pending_white().contains(o as usize)
                    && !reached_from_survivor(*old(self), o) && old(self).hdr(o).phase != Phase::Freed
                    && !old(self).hdr(o).buffered ==> #[trigger] final(self).hdr(o).phase == Phase::Freed,
            old(self).in_pass() ==> freed == freed_garbage(*old(self), *final(self), old(self).len() as int),
            freed <= old(self).len(),
            forall|o: int|
                0 <= o < old(self).len() && old(self).hdr(o).phase == Phase::Freed
                    ==> #[trigger] final(self).hdr(o).phase == Phase::Freed,
            forall|o: int|
                0 <= o < old(self).len() && #[trigger] final(self).hdr(o).in_cycle ==> old(self).hdr(
                    o,
                ).in_cycle,
    {
        if !self.collecting {
            return 0;
        }
        let ghost c0 = *self;
        let mut white: Vec<usize> = Vec::new();
        std::mem::swap(&mut white, &mut self.pending);
        self.collecting = false;
        let ghost h0 = self.headers@;
        let n = self.headers.len();
        let mut in_w: Vec<bool> = vec![false; n];
        let mut i: usize = 0;
        while i < white.len()
            invariant
                in_w@.len() == n,
                n == self.headers@.len(),
                self.headers@ == h0,
                white@ == old(self).pending@,
                forall|k: int| 0 <= k < white@.len() ==> #[trigger] white@[k] < n,
                forall|k: int| 0 <= k < i ==> in_w@[#[trigger] white@[k] as int],
                forall|x: int| 0 <= x < n && #[trigger] in_w@[x] ==> white@.contains(x as usize),
                i <= white@.len(),
            decreases white@.len() - i,
        {
            let ghost wv = in_w@;
            in_w.set(white[i], true);
            proof {
                assert forall|x: int| 0 <= x < n && #[trigger] in_w@[x] implies white@.contains(x as usize) by {
                    if x != white@[i as int] as int {
                        assert(wv[x]);
                    } else {
                        assert(white@[i as int] == x as usize);
                    }
                }
            }
            i = i + 1;
        }
        // Survivors: objects given a reference by a finalizer.
        let mut in_x: Vec<bool> = vec![false; n];
        let mut stack: Vec<usize> = Vec::new();
        let ghost mut paths: Map<int, Seq<usize>> = Map::empty();
        let mut o: usize = 0;
        while o < n
            invariant
                in_w@.len() == n,
                in_x@.len() == n,
                n == self.headers@.len(),
                self.headers@ == h0,
                h0 == c0.headers@,
                c0 == *old(self),
                o <= n,
                forall|x: int| 0 <= x < n && #[trigger] in_w@[x] ==> c0.pending@.contains(x as usize),
                forall|x: int| 0 <= x < o && in_w@[x] && h0[x].ref_cnt > 0 ==> #[trigger] in_x@[x],
                forall|j: int| 0 <= j < stack@.len() ==> #[trigger] stack@[j] < n && in_x@[stack@[j] as int],
                forall|x: int| 0 <= x < n && #[trigger] in_x@[x] ==> in_w@[x] && stack@.contains(x as usize),
                forall|x: int|
                    0 <= x < n && #[trigger] in_x@[x] ==> paths.dom().contains(x) && survivor_path(
                        c0,
                        paths[x],
                    ) && paths[x].last() == x as usize,
            decreases n - o,
        {
            if in_w[o] && self.headers[o].ref_cnt > 0 {
                let ghost xs = in_x@;
                let ghost st = stack@;
                in_x.set(o, true);
                stack.push(o);
                proof {
                    paths = paths.insert(o as int, seq![o]);
                    assert(survivor_path(c0, seq![o]));
                    assert(stack@[stack@.len() - 1] == o);
                    assert forall|x: int| 0 <= x < n && #[trigger] in_x@[x] implies in_w@[x] && stack@.contains(
                        x as usize,
                    ) by {
                        if x != o {
                            assert(xs[x]);
                            assert(st.contains(x as usize));
                            let j = choose|j: int| 0 <= j < st.len() && st[j] == x as usize;
                            assert(stack@[j] == x as usize);
                        } else {
                            assert(stack@[stack@.len() - 1] == x as usize);
                        }
                    }
                    assert forall|x: int| 0 <= x < n && #[trigger] in_x@[x] implies paths.dom().contains(x)
                        && survivor_path(c0, paths[x]) && paths[x].last() == x as usize by {
                        if x != o {
                            assert(xs[x]);
                        }
                    }
                }
            }
            o = o + 1;
        }
        let ghost seeds = in_x@;
        // Everything collected that a survivor reaches survives too.
        proof {
            lemma_count_true_bound(in_x@);
        }
        while stack.len() > 0
            invariant
                self.wf(),
                in_w@.len() == n,
                in_x@.len() == n,
                n == self.headers@.len(),
                self.headers@ == h0,
                self.children@ == old(self).children@,
                c0 == *old(self),
                h0 == c0.headers@,
                self.enabled == old(self).enabled,
                !self.collecting,
                forall|x: int| 0 <= x < n && #[trigger] seeds[x] ==> in_x@[x],
                forall|x: int| 0 <= x < n && #[trigger] in_x@[x] ==> in_w@[x],
                forall|x: int| 0 <= x < n && #[trigger] in_w@[x] ==> c0.pending@.contains(x as usize),
                forall|j: int| 0 <= j < stack@.len() ==> #[trigger] stack@[j] < n && in_x@[stack@[j] as int],
                forall|x: int, k: int|
                    0 <= x < n && in_x@[x] && !stack@.contains(x as usize) && 0 <= k
                        < self.children@[x]@.len() && in_w@[#[trigger] self.children@[x]@[k] as int]
                        ==> in_x@[self.children@[x]@[k] as int],
                forall|x: int|
                    0 <= x < n && #[trigger] in_x@[x] ==> paths.dom().contains(x) && survivor_path(
                        c0,
                        paths[x],
                    ) && paths[x].last() == x as usize,
                count_true(in_x@) <= n,
            decreases n - count_true(in_x@), stack@.len(),
        {
            let ghost old_stack = stack@;
            let ghost x0 = in_x@;
            let x = stack.pop().unwrap();
            let ghost base = stack@;
            proof {
                assert(old_stack[old_stack.len() - 1] == x);
                assert(x0[x as int]);
            }
            let m = self.children[x].len();
            let mut k: usize = 0;
            while k < m
                invariant
                    self.wf(),
                    in_w@.len() == n,
                    in_x@.len() == n,
                    n == self.headers@.len(),
                    self.headers@ == h0,
                    self.children@ == old(self).children@,
                    c0 == *old(self),
                    h0 == c0.headers@,
                h0 == c0.headers@,
                    self.enabled == old(self).enabled,
                    !self.collecting,
                    x < n,
                    x0[x as int],
                    m == self.children@[x as int]@.len(),
                    k <= m,
                    stack@.len() >= base.len(),
                    stack@.subrange(0, base.len() as int) == base,
                    count_true(in_x@) - count_true(x0) == stack@.len() - base.len(),
                    count_true(in_x@) <= n,
                    forall|y: int| 0 <= y < n && #[trigger] x0[y] ==> in_x@[y],
                    forall|y: int| 0 <= y < n && #[trigger] in_x@[y] && !x0[y] ==> stack@.contains(y as usize),
                    forall|y: int| 0 <= y < n && #[trigger] in_x@[y] ==> in_w@[y],
                    forall|y: int| 0 <= y < n && #[trigger] in_w@[y] ==> c0.pending@.contains(y as usize),
                    forall|j: int| 0 <= j < stack@.len() ==> #[trigger] stack@[j] < n && in_x@[stack@[j] as int],
                    forall|j: int|
                        0 <= j < k && in_w@[#[trigger] self.children@[x as int]@[j] as int]
                            ==> in_x@[self.children@[x as int]@[j] as int],
                    forall|y: int|
                        0 <= y < n && #[trigger] in_x@[y] ==> paths.dom().contains(y) && survivor_path(
                            c0,
                            paths[y],
                        ) && paths[y].last() == y as usize,
                decreases m - k,
            {
                let ch = self.children[x][k];
                if in_w[ch] && !in_x[ch] {
                    proof {
                        lemma_count_true_set(in_x@, ch as int);
                        assert(in_x@[x as int]);
                        assert(c0.len() == n);
                        let px = paths[x as int];
                        assert(survivor_path(c0, px) && px.last() == x);
                        let np = px.push(ch);
                        assert(c0.refs(x as int)[k as int] == ch);
                        assert(c0.refs(x as int).contains(ch));
                        assert(survivor_path(c0, np)) by {
                            assert(in_w@[ch as int]);
                            assert(c0.pending@.contains(ch));
                            assert forall|t: int| 0 <= t < np.len() implies c0.pending_white().contains(#[trigger] np[t])
                                && np[t] < c0.len() by {
                                if t < px.len() {
                                    assert(np[t] == px[t]);
                                } else {
                                    assert(np[t] == ch);
                                }
                            }
                            assert forall|t: int| 0 <= t < np.len() - 1 implies c0.refs(np[t] as int).contains(
                                #[trigger] np[t + 1],
                            ) by {
                                if t < px.len() - 1 {
                                    assert(np[t] == px[t] && np[t + 1] == px[t + 1]);
                                } else {
                                    assert(np[t] == px.last());
                                }
                            }
                            assert(np[0] == px[0]);
                        }
                        paths = paths.insert(ch as int, np);
                    }
                    let ghost sb = stack@;
                    let ghost xb = in_x@;
                    in_x.set(ch, true);
                    stack.push(ch);
                    proof {
                        lemma_count_true_bound(in_x@);
                        assert(stack@.subrange(0, base.len() as int) =~= sb.subrange(0, base.len() as int));
                        assert(stack@[stack@.len() - 1] == ch);
                        assert forall|y: int| 0 <= y < n && #[trigger] in_x@[y] && !x0[y] implies stack@.contains(
                            y as usize,
                        ) by {
                            if y != ch {
                                assert(sb.contains(y as usize));
                                let j = choose|j: int| 0 <= j < sb.len() && sb[j] == y as usize;
                                assert(stack@[j] == y as usize);
                            }
                        }
                        assert forall|y: int| 0 <= y < n && #[trigger] in_x@[y] implies paths.dom().contains(y)
                            && survivor_path(c0, paths[y]) && paths[y].last() == y as usize by {
                            if y != ch {
                                assert(xb[y]);
                            }
                        }
                    }
                }
                k = k + 1;
            }
            proof {
                lemma_count_true_bound(in_x@);
                assert forall|y: int, j: int|
                    0 <= y < n && in_x@[y] && !stack@.contains(y as usize) && 0 <= j
                        < self.children@[y]@.len() && in_w@[#[trigger] self.children@[y]@[j] as int]
                        implies in_x@[self.children@[y]@[j] as int] by {
                    if y != x {
                        assert(x0[y]);
                        if base.contains(y as usize) {
                            let i = choose|i: int| 0 <= i < base.len() && base[i] == y as usize;
                            assert(stack@.subrange(0, base.len() as int)[i] == y as usize);
                            assert(stack@[i] == y as usize);
                        }
                        assert(!old_stack.contains(y as usize)) by {
                            if old_stack.contains(y as usize) {
                                let i = choose|i: int| 0 <= i < old_stack.len() && old_stack[i] == y as usize;
                                if i < old_stack.len() - 1 {
                                    assert(base[i] == y as usize);
                                }
                            }
                        }
                    }
                }
            }
        }
        let ghost xs = in_x@;
        proof {
            assert(stack@.len() == 0);
            assert forall|y: int, j: int|
                0 <= y < n && xs[y] && 0 <= j < old(self).children@[y]@.len() && in_w@[
                    #[trigger] old(self).children@[y]@[j] as int] implies xs[old(self).children@[y]@[j] as int] by {
                assert(!stack@.contains(y as usize));
            }
            assert forall|y: int| 0 <= y < n && c0.pending_white().contains(y as usize) implies #[trigger] in_w@[y] by {
                let kk = choose|kk: int| 0 <= kk < white@.len() && white@[kk] == y as usize;
                assert(in_w@[white@[kk] as int]);
            }
            assert forall|y: int|
                0 <= y < n && c0.pending_white().contains(y as usize) && c0.hdr(y).ref_cnt > 0
                    implies #[trigger] xs[y] by {
                assert(in_w@[y]);
                assert(h0[y].ref_cnt > 0);
                assert(seeds[y]);
            }
            assert forall|y: int, j: int|
                0 <= y < n && xs[y] && 0 <= j < c0.refs(y).len() && in_w@[#[trigger] c0.refs(y)[j] as int]
                    implies xs[c0.refs(y)[j] as int] by {
                assert(c0.refs(y)[j] == old(self).children@[y]@[j]);
            }
            assert(c0.len() == n);
        }
        // Survivors get back the references they hold among themselves.
        let ghost before_restore = *self;
        let mut o: usize = 0;
        while o < n
            invariant
                self.wf(),
                in_w@.len() == n,
                in_x@.len() == n,
                n == self.headers@.len(),
                self.enabled == old(self).enabled,
                !self.collecting,
                self.counts_only(&before_restore),
                forall|x: int|
                    0 <= x < n && !in_x@[x] ==> #[trigger] self.headers@[x] == before_restore.headers@[x],
                forall|x: int|
                    0 <= x < n ==> #[trigger] self.headers@[x].ref_cnt >= before_restore.headers@[x].ref_cnt,
            decreases n - o,
        {
            if in_x[o] {
                let m = self.children[o].len();
                let mut k: usize = 0;
                while k < m
                    invariant
                        self.wf(),
                        in_w@.len() == n,
                        in_x@.len() == n,
                        n == self.headers@.len(),
                        self.enabled == old(self).enabled,
                        !self.collecting,
                        self.counts_only(&before_restore),
                        forall|x: int|
                            0 <= x < n && !in_x@[x] ==> #[trigger] self.headers@[x] == before_restore.headers@[x],
                        forall|x: int|
                            0 <= x < n ==> #[trigger] self.headers@[x].ref_cnt
                                >= before_restore.headers@[x].ref_cnt,
                        o < n,
                        m == self.children@[o as int]@.len(),
                        k <= m,
                    decreases m - k,
                {
                    let ch = self.children[o][k];
                    let mut hc = self.headers[ch];
                    if in_x[ch] && !hc.leak && hc.ref_cnt < usize::MAX {
                        hc.ref_cnt = hc.ref_cnt + 1;
                        self.set_header(ch, hc);
                    }
                    k = k + 1;
                }
            }
            o = o + 1;
        }
        proof {
            assert forall|x: int| 0 <= x < n implies #[trigger] self.headers@[x].phase == h0[x].phase && (in_x@[x]
                || self.headers@[x] == h0[x]) && self.headers@[x].ref_cnt >= h0[x].ref_cnt by {
                assert(same_flags(self.headers@[x], before_restore.headers@[x]));
                assert(before_restore.headers@[x] == h0[x]);
                assert(self.headers@[x].ref_cnt >= before_restore.headers@[x].ref_cnt);

            }
        }
        // Survivors leave the cycle and become possible roots again.
        let ghost h1 = self.headers@;
        let mut o: usize = 0;
        while o < n
            invariant
                self.wf(),
                in_w@.len() == n,
                in_x@.len() == n,
                n == self.headers@.len(),
                self.enabled == old(self).enabled,
                !self.collecting,
                o <= n,
                forall|x: int|
                    0 <= x < n ==> #[trigger] self.headers@[x].phase == h1[x].phase
                        && self.headers@[x].ref_cnt == h1[x].ref_cnt,
                forall|x: int| 0 <= x < o && #[trigger] in_x@[x] ==> self.headers@[x].buffered,
                forall|x: int| 0 <= x < o && #[trigger] in_x@[x] ==> !self.headers@[x].in_cycle,
                forall|x: int| 0 <= x < n && !in_x@[x] ==> #[trigger] self.headers@[x] == h1[x],
            decreases n - o,
        {
            if in_x[o] {
                let mut h = self.headers[o];
                h.in_cycle = false;
                h.color = Color::Black;
                let ghost before = self.headers@;
                self.set_header(o, h);
                self.possible_root(o);
                proof {
                    assert(purple_of(h).buffered && !purple_of(h).in_cycle);
                    assert(self.headers@[o as int] == purple_of(h));
                    assert forall|x: int| 0 <= x < o + 1 && #[trigger] in_x@[x] implies self.headers@[x].buffered
                        && !self.headers@[x].in_cycle by {
                        if x != o {
                            assert(self.headers@[x] == before[x]);
                        }
                    }
                }
            }
            o = o + 1;
        }
        // Destroy every remaining member before freeing any of them; the
        // survivors are left alone throughout.
        let ghost before_drop = *self;
        proof {
            assert forall|x: int| 0 <= x < n && in_w@[x] && !in_x@[x] implies #[trigger] before_drop.headers@[x].ref_cnt
                == 0 by {
                assert(before_drop.headers@[x] == h1[x]);
                assert(h1[x] == h0[x]);
                if h0[x].ref_cnt > 0 {
                    assert(seeds[x]);
                }
            }
        }
        let mut o: usize = 0;
        while o < n
            invariant
                self.wf(),
                in_w@.len() == n,
                in_x@.len() == n,
                n == self.headers@.len(),
                self.enabled == old(self).enabled,
                !self.collecting,
                self.teardown_frame(&before_drop),
                o <= n,
                forall|x: int| 0 <= x < n && #[trigger] in_x@[x] ==> self.headers@[x] == before_drop.headers@[x],
                forall|x: int|
                    o <= x < n && in_w@[x] && !in_x@[x] && before_drop.headers@[x].phase
                        == Phase::Live && before_drop.headers@[x].ref_cnt == 0
                        ==> #[trigger] self.headers@[x].phase == Phase::Live,
                forall|x: int|
                    0 <= x < o && in_w@[x] && !in_x@[x] && before_drop.headers@[x].phase
                        == Phase::Live && before_drop.headers@[x].ref_cnt == 0
                        ==> #[trigger] self.headers@[x].phase != Phase::Live,
                forall|x: int|
                    0 <= x < n && in_w@[x] && !in_x@[x] && before_drop.headers@[x].ref_cnt == 0
                        ==> #[trigger] self.headers@[x].phase == before_drop.headers@[x].phase || (
                        before_drop.headers@[x].phase == Phase::Live && self.headers@[x].phase
                        == Phase::Finalized),
            decreases n - o,
        {
            if in_w[o] && !in_x[o] && self.headers[o].phase == Phase::Live && self.headers[o].ref_cnt
                == 0 {
                let ghost s1 = *self;
                let kids = self.finalize(o);
                let ghost s2 = *self;
                self.release_refs(kids, &in_x);
                proof {
                    lemma_keeps_idle_trans2(&s1, &s2, self, o as int);
                    lemma_teardown_frame_trans(&s1, &s2, self);
                    lemma_teardown_frame_trans(&before_drop, &s1, self);
                    assert forall|x: int| 0 <= x < n && #[trigger] in_x@[x] implies self.headers@[x]
                        == before_drop.headers@[x] by {
                        assert(x != o);
                        assert(s2.headers@[x] == s1.headers@[x]);
                        assert(self.hdr(x) == s2.hdr(x));
                    }
                    assert forall|x: int|
                        o + 1 <= x < n && in_w@[x] && !in_x@[x] && before_drop.headers@[x].phase
                            == Phase::Live && before_drop.headers@[x].ref_cnt == 0
                            implies #[trigger] self.headers@[x].phase == Phase::Live by {
                        assert(s1.headers@[x].phase == Phase::Live);
                        assert(s1.headers@[x].ref_cnt == 0);
                    }
                    assert forall|x: int|
                        0 <= x < o + 1 && in_w@[x] && !in_x@[x] && before_drop.headers@[x].phase
                            == Phase::Live && before_drop.headers@[x].ref_cnt == 0
                            implies #[trigger] self.headers@[x].phase != Phase::Live by {
                        if x != o {
                            assert(s1.headers@[x].phase != Phase::Live);
                        } else {
                            assert(s2.headers@[x].phase == Phase::Finalized);
                        }
                    }
                }
            } else {
                proof {
                    assert forall|x: int|
                        0 <= x < o + 1 && in_w@[x] && !in_x@[x] && before_drop.headers@[x].phase
                            == Phase::Live && before_drop.headers@[x].ref_cnt == 0
                            implies #[trigger] self.headers@[x].phase != Phase::Live by {
                        if x == o {
                            assert(self.headers@[x].ref_cnt == 0);
                        }
                    }
                }
            }
            o = o + 1;
        }
        let ghost after_drop = *self;
        let mut freed: usize = 0;
        let mut o: usize = 0;
        while o < n
            invariant
                self.wf(),
                in_w@.len() == n,
                in_x@.len() == n,
                n == self.headers@.len(),
                self.enabled == old(self).enabled,
                !self.collecting,
                freed <= o,
                o <= n,
                self.teardown_frame(&before_drop),
                c0 == *old(self),
                forall|x: int| 0 <= x < n && #[trigger] in_x@[x] ==> self.headers@[x] == before_drop.headers@[x],
                forall|x: int| o <= x < n ==> #[trigger] self.headers@[x] == after_drop.headers@[x],
                forall|x: int|
                    0 <= x < n && in_w@[x] && !in_x@[x] && before_drop.headers@[x].phase
                        == Phase::Live && before_drop.headers@[x].ref_cnt == 0
                        ==> #[trigger] after_drop.headers@[x].phase != Phase::Live,
                forall|x: int|
                    0 <= x < o && in_w@[x] && !in_x@[x] && before_drop.headers@[x].phase
                        != Phase::Freed && before_drop.headers@[x].ref_cnt == 0
                        && !before_drop.headers@[x].buffered ==> #[trigger] self.headers@[x].phase
                        == Phase::Freed,
                freed == count_freed_upto(in_w@, in_x@, before_drop.headers@, self.headers@, o as int),
                forall|x: int| 0 <= x < n && in_w@[x] && !in_x@[x] ==> #[trigger] before_drop.headers@[x].ref_cnt == 0,
                forall|x: int|
                    0 <= x < n && in_w@[x] && !in_x@[x] ==> #[trigger] after_drop.headers@[x].phase
                        == before_drop.headers@[x].phase || (before_drop.headers@[x].phase == Phase::Live
                        && after_drop.headers@[x].phase == Phase::Finalized),
            decreases n - o,
        {
            let ghost s1 = *self;
            if in_w[o] && !in_x[o] {
                if self.dealloc_only(o) {
                    freed = freed + 1;
                }
            }
            proof {
                lemma_teardown_frame_trans(&before_drop, &s1, self);
                assert forall|x: int| 0 <= x < o implies #[trigger] self.headers@[x].phase == s1.headers@[x].phase by {
                    assert(self.headers@[x] == s1.headers@[x]);
                }
                lemma_count_freed_frame(in_w@, in_x@, before_drop.headers@, s1.headers@, self.headers@, o as int);
                assert(s1.headers@[o as int] == after_drop.headers@[o as int]);
                if in_w@[o as int] && !in_x@[o as int] {
                    assert(before_drop.headers@[o as int].ref_cnt == 0);
                    assert(after_drop.headers@[o as int].phase == before_drop.headers@[o as int].phase || (
                    before_drop.headers@[o as int].phase == Phase::Live && after_drop.headers@[o as int].phase
                        == Phase::Finalized));
                }
                assert forall|x: int| 0 <= x < n && #[trigger] in_x@[x] implies self.headers@[x]
                    == before_drop.headers@[x] by {
                    if x != o {
                        assert(self.headers@[x] == s1.headers@[x]);
                    }
                }
                assert forall|x: int| o + 1 <= x < n implies #[trigger] self.headers@[x] == after_drop.headers@[x] by {
                    assert(self.headers@[x] == s1.headers@[x]);
                }
                assert forall|x: int|
                    0 <= x < o + 1 && in_w@[x] && !in_x@[x] && before_drop.headers@[x].phase
                        != Phase::Freed && before_drop.headers@[x].ref_cnt == 0
                        && !before_drop.headers@[x].buffered implies #[trigger] self.headers@[x].phase
                        == Phase::Freed by {
                    if x == o {
                        assert(s1.headers@[x] == after_drop.headers@[x]);
                        assert(s1.headers@[x].ref_cnt == 0);
                        assert(!s1.headers@[x].buffered);
                        if before_drop.headers@[x].phase == Phase::Live {
                            assert(s1.headers@[x].phase != Phase::Live);
                        }
                    } else {
                        assert(s1.headers@[x].phase == Phase::Freed);
                    }
                }
            }
            o = o + 1;
        }
        proof {
            // Connect the states before teardown with the start of the call.
            assert forall|x: int| 0 <= x < n implies #[trigger] before_drop.headers@[x].phase == h0[x].phase
                && (in_x@[x] || before_drop.headers@[x] == h0[x]) by {
                assert(same_flags(h1[x], before_restore.headers@[x]));
                assert(before_restore.headers@[x] == h0[x]);
                if !in_x@[x] {
                    assert(h1[x].ref_cnt == h0[x].ref_cnt);
                    assert(h1[x] == h0[x]);
                }
            }
            assert forall|x: int|
                0 <= x < n && in_x@[x] implies #[trigger] before_drop.headers@[x].ref_cnt >= h0[x].ref_cnt by {
                assert(h1[x].ref_cnt >= before_restore.headers@[x].ref_cnt);
            }
            assert forall|o: int|
                0 <= o < old(self).len() && old(self).pending_white().contains(o as usize)
                    && reached_from_survivor(*old(self), o) implies {
                    &&& #[trigger] self.hdr(o).phase == old(self).hdr(o).phase
                    &&& self.hdr(o).ref_cnt >= old(self).hdr(o).ref_cnt
                    &&& self.hdr(o).buffered
                    &&& !self.hdr(o).in_cycle
                    &&& self.root_buffer().contains(o as usize)
                } by {
                let p = choose|p: Seq<usize>| survivor_path(c0, p) && p.last() == o as usize;
                lemma_path_marked(c0, p, in_w@, xs, n as int);
                assert(in_x@[o]);
                assert(before_drop.headers@[o].buffered);
                assert(!before_drop.headers@[o].in_cycle);
            }
            assert forall|o: int|
                0 <= o < old(self).len() && old(self).pending_white().contains(o as usize)
                    && !reached_from_survivor(*old(self), o) && old(self).hdr(o).phase != Phase::Freed
                    && !old(self).hdr(o).buffered implies #[trigger] self.hdr(o).phase == Phase::Freed by {
                assert(in_w@[o]);
                if in_x@[o] {
                    assert(survivor_path(c0, paths[o]) && paths[o].last() == o as usize);
                }
                assert(before_drop.headers@[o] == h0[o]);
                assert(h0[o].ref_cnt == 0) by {
                    if h0[o].ref_cnt > 0 {
                        assert(seeds[o]);
                    }
                }
            }
            assert forall|x: int|
                0 <= x < old(self).len() && old(self).hdr(x).phase == Phase::Freed
                    implies #[trigger] self.hdr(x).phase == Phase::Freed by {
                assert(before_drop.headers@[x].phase == Phase::Freed);
            }
            assert forall|o: int|
                0 <= o < old(self).len() && #[trigger] self.hdr(o).in_cycle implies old(self).hdr(o).in_cycle by {
                if !in_x@[o] {
                    assert(before_drop.headers@[o] == h0[o]);
                } else {
                    assert(!before_drop.headers@[o].in_cycle);
                }
            }
            assert forall|x: int|
                0 <= x < n implies (old(self).pending_white().contains(x as usize) && !reached_from_survivor(
                    *old(self),
                    x,
                ) && old(self).hdr(x).phase != Phase::Freed && #[trigger] self.hdr(x).phase
                    == Phase::Freed) == (in_w@[x] && !in_x@[x] && before_drop.headers@[x].phase
                    != Phase::Freed && self.headers()[x].phase == Phase::Freed) by {
                if old(self).pending_white().contains(x as usize) {
                    assert(in_w@[x]);
                    if reached_from_survivor(*old(self), x) {
                        let p = choose|p: Seq<usize>| survivor_path(c0, p) && p.last() == x as usize;
                        lemma_path_marked(c0, p, in_w@, xs, n as int);
                    }
                    if in_x@[x] {
                        assert(survivor_path(c0, paths[x]) && paths[x].last() == x as usize);
                    }
                }
                if in_w@[x] {
                    assert(c0.pending@.contains(x as usize));
                }
            }
            lemma_count_freed_same(c0, *self, in_w@, in_x@, before_drop.headers@, n as int);
            lemma_freed_garbage_bound(c0, *self, n as int);
        }
        freed
    }

    /// A whole pass with no finalizer to run between its two halves.
    /// Nothing happens while collection is disabled or a pass is open.
    pub fn collect(&mut self) -> (r: GcResult)
        requires
            old(self).wf(),
        ensures
            final(self).wf(),
            final(self).len() == old(self).len(),
            final(self).is_enabled_spec() == old(self).is_enabled_spec(),
            !old(self).is_enabled_spec() || old(self).in_pass() || old(self).root_buffer().len() == 0
                ==> *final(self) == *old(self) && r == GcResult::empty_spec(),
            !final(self).in_pass() || old(self).in_pass(),
            old(self).is_enabled_spec() && !old(self).in_pass() ==> {
                &&& r.acyclic_cnt == freeable_count(old(self).headers(), old(self).root_buffer())
                &&& forall|k: int|
                    0 <= k < old(self).root_buffer().len() && freeable(
                        old(self).hdr(old(self).root_buffer()[k] as int),
                    ) ==> #[trigger] final(self).hdr(old(self).root_buffer()[k] as int).phase
                        == Phase::Freed
            },
            r.cyclic_cnt <= old(self).len(),
            old(self).is_enabled_spec() && !old(self).in_pass() ==> forall|o: int|
                0 <= o < old(self).len() && #[trigger] final(self).hdr(o).in_cycle && !old(self).hdr(
                    o,
                ).in_cycle && old(self).hdr(o).phase == Phase::Live ==> final(self).hdr(o).phase
                    == Phase::Freed,
    {
        if !self.enabled || self.collecting {
            return GcResult::empty();
        }
        let acyclic = self.collect_begin();
        let ghost mid = *self;
        let cyclic = self.collect_finish();
        let hl = self.headers.len();
        proof {
            assert forall|k: int|
                0 <= k < old(self).root_buffer().len() && freeable(old(self).hdr(old(self).root_buffer()[k] as int))
                    implies #[trigger] self.hdr(old(self).root_buffer()[k] as int).phase == Phase::Freed by {
                assert(mid.hdr(old(self).root_buffer()[k] as int).phase == Phase::Freed);
            }
            assert forall|o: int|
                0 <= o < old(self).len() && #[trigger] self.hdr(o).in_cycle && !old(self).hdr(o).in_cycle
                    && old(self).hdr(o).phase == Phase::Live implies self.hdr(o).phase == Phase::Freed by {
                assert(mid.hdr(o).in_cycle);
                assert(mid.pending_white().contains(o as usize));
                let k = choose|k: int| 0 <= k < mid.pending_white().len() && mid.pending_white()[k] == o as usize;
                assert(o < hl);
                assert(mid.pending_white()[k] as int == o);
                assert(!mid.hdr(o).buffered);
                assert(mid.hdr(o).phase == Phase::Live);
                if mid.hdr(o).ref_cnt > 0 {
                    assert(survivor_path(mid, seq![o as usize]));
                }
                if reached_from_survivor(mid, o) {
                    assert(!self.hdr(o).in_cycle);
                }
            }
        }
        GcResult::new(acyclic, cyclic)
    }
}
} // verus!
