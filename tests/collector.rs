use pygc::collector::Collector;
use pygc::gc::{collect, disable, enable, isenabled, setenabled, try_collect, try_gc};
use pygc::header::{Color, GcHeader, Phase};
use pygc::pause::{need_gc, pausing, resuming, GCReadLock, GcCond, GcTimer, ResumeAction};
use pygc::status::{GcResult, GcStatus};

fn phase(gc: &Collector, o: usize) -> Phase {
    gc.header(o).phase
}

#[test]
fn two_object_cycle_is_collected() {
    let mut gc = Collector::new();
    let a = gc.allocate(true);
    let b = gc.allocate(true);
    gc.add_ref(a, b);
    gc.add_ref(b, a);
    assert_eq!(gc.dec_ref(b), GcStatus::ShouldKeep);
    assert_eq!(gc.dec_ref(a), GcStatus::ShouldKeep);
    assert_eq!(gc.rc(a), 1);
    assert_eq!(gc.rc(b), 1);
    assert_eq!(phase(&gc, a), Phase::Live);
    assert_eq!(phase(&gc, b), Phase::Live);
    let r = collect(&mut gc);
    assert_eq!(r.cyclic_cnt, 2);
    assert_eq!(r.acyclic_cnt, 0);
    assert_eq!(phase(&gc, a), Phase::Freed);
    assert_eq!(phase(&gc, b), Phase::Freed);
    assert_eq!(gc.roots_len(), 0);
}

#[test]
fn sole_reference_frees_at_once() {
    let mut gc = Collector::new();
    let x = gc.allocate(false);
    assert_eq!(gc.rc(x), 1);
    assert_eq!(gc.dec_ref(x), GcStatus::ShouldDrop);
    assert_eq!(phase(&gc, x), Phase::Freed);
    let r = gc.collect();
    assert_eq!(r, GcResult::new(0, 0));
}

#[test]
fn traceable_sole_reference_frees_at_once() {
    let mut gc = Collector::new();
    let x = gc.allocate(true);
    assert_eq!(gc.dec_ref(x), GcStatus::ShouldDrop);
    assert_eq!(phase(&gc, x), Phase::Freed);
    assert_eq!(gc.roots_len(), 0);
}

#[test]
fn externally_reachable_cycle_survives() {
    let mut gc = Collector::new();
    let a = gc.allocate(true);
    let b = gc.allocate(true);
    let c = gc.allocate(true);
    gc.add_ref(a, b);
    gc.add_ref(b, c);
    gc.add_ref(c, a);
    assert_eq!(gc.dec_ref(c), GcStatus::ShouldKeep);
    assert_eq!(gc.dec_ref(a), GcStatus::ShouldKeep);
    let r = collect(&mut gc);
    assert_eq!(r, GcResult::new(0, 0));
    for o in [a, b, c] {
        assert_eq!(phase(&gc, o), Phase::Live);
        assert_eq!(gc.header(o).color, Color::Black);
    }
    assert_eq!(gc.rc(a), 1);
    assert_eq!(gc.rc(b), 2);
    assert_eq!(gc.rc(c), 1);
    // once the outside reference goes, the whole cycle is garbage
    assert_eq!(gc.dec_ref(b), GcStatus::ShouldKeep);
    let r = collect(&mut gc);
    assert_eq!(r.cyclic_cnt, 3);
    for o in [a, b, c] {
        assert_eq!(phase(&gc, o), Phase::Freed);
    }
}

#[test]
fn leaked_object_is_never_freed() {
    let mut gc = Collector::new();
    let x = gc.allocate(true);
    gc.leak(x);
    let before = gc.header(x);
    for _ in 0..10 {
        assert_eq!(gc.dec_ref(x), GcStatus::DoNothing);
        assert!(gc.is_leaked(x));
        assert_eq!(gc.header(x), before);
    }
    assert_eq!(gc.decrement(x), GcStatus::DoNothing);
    collect(&mut gc);
    assert_eq!(phase(&gc, x), Phase::Live);
    assert_eq!(gc.header(x).color, Color::Black);
    assert!(gc.is_leaked(x));
}

#[test]
fn resurrected_object_survives_the_pass() {
    let mut gc = Collector::new();
    let a = gc.allocate(true);
    let b = gc.allocate(true);
    let y = gc.allocate(true);
    gc.add_ref(a, b);
    gc.add_ref(b, a);
    gc.add_ref(a, y);
    gc.dec_ref(y);
    gc.dec_ref(b);
    gc.dec_ref(a);
    assert_eq!(gc.collect_begin(), 0);
    assert!(gc.is_pass_open());
    // y's finalizer stores a new global reference to y
    gc.increment(y);
    assert_eq!(gc.collect_finish(), 2);
    assert!(!gc.is_pass_open());
    assert_eq!(phase(&gc, a), Phase::Freed);
    assert_eq!(phase(&gc, b), Phase::Freed);
    assert_eq!(phase(&gc, y), Phase::Live);
    assert_eq!(gc.rc(y), 1);
    assert!(!gc.header(y).in_cycle);
    // later, dropping the global reference frees it
    assert_eq!(gc.dec_ref(y), GcStatus::BufferedDrop);
    assert_eq!(phase(&gc, y), Phase::Finalized);
    let r = collect(&mut gc);
    assert_eq!(r, GcResult::new(1, 0));
    assert_eq!(phase(&gc, y), Phase::Freed);
}

#[test]
fn resurrection_keeps_what_the_survivor_reaches() {
    let mut gc = Collector::new();
    let y = gc.allocate(true);
    let z = gc.allocate(true);
    gc.add_ref(y, z);
    gc.add_ref(z, y);
    gc.dec_ref(z);
    gc.dec_ref(y);
    gc.collect_begin();
    gc.increment(y);
    assert_eq!(gc.collect_finish(), 0);
    assert_eq!(phase(&gc, y), Phase::Live);
    assert_eq!(phase(&gc, z), Phase::Live);
    assert_eq!(gc.rc(y), 2);
    assert_eq!(gc.rc(z), 1);
    assert_eq!(gc.dec_ref(y), GcStatus::ShouldKeep);
    let r = collect(&mut gc);
    assert_eq!(r.cyclic_cnt, 2);
    assert_eq!(phase(&gc, y), Phase::Freed);
    assert_eq!(phase(&gc, z), Phase::Freed);
}

#[test]
fn drop_only_runs_once() {
    let mut gc = Collector::new();
    let p = gc.allocate(true);
    let c = gc.allocate(false);
    gc.add_ref(p, c);
    gc.dec_ref(c);
    assert_eq!(gc.rc(c), 1);
    assert_eq!(gc.decrement(p), GcStatus::ShouldDrop);
    assert!(gc.drop_only(p));
    assert_eq!(phase(&gc, p), Phase::Finalized);
    assert_eq!(phase(&gc, c), Phase::Freed);
    assert!(gc.children_of(p).is_empty());
    assert!(!gc.drop_only(p));
    assert_eq!(phase(&gc, p), Phase::Finalized);
}

#[test]
fn dealloc_only_needs_drop_first() {
    let mut gc = Collector::new();
    let p = gc.allocate(false);
    assert!(!gc.dealloc_only(p));
    assert_eq!(gc.decrement(p), GcStatus::ShouldDrop);
    assert!(gc.drop_only(p));
    assert!(gc.dealloc_only(p));
    assert_eq!(phase(&gc, p), Phase::Freed);
    assert!(!gc.dealloc_only(p));
}

#[test]
fn buffer_holds_each_object_once() {
    let mut gc = Collector::new();
    let x = gc.allocate(true);
    for _ in 0..4 {
        gc.increment(x);
    }
    gc.decrement(x);
    assert_eq!(gc.roots_len(), 1);
    assert!(gc.header(x).buffered);
    gc.increment(x);
    gc.decrement(x);
    gc.decrement(x);
    assert_eq!(gc.roots_len(), 1);
    assert_eq!(gc.header(x).color, Color::Purple);
    collect(&mut gc);
    assert_eq!(gc.roots_len(), 0);
    assert!(!gc.header(x).buffered);
    assert_eq!(gc.rc(x), 3);
    assert_eq!(phase(&gc, x), Phase::Live);
}

#[test]
fn long_ring_is_collected() {
    let mut gc = Collector::new();
    let n = 10;
    let objs: Vec<usize> = (0..n).map(|_| gc.allocate(true)).collect();
    for i in 0..n {
        gc.add_ref(objs[i], objs[(i + 1) % n]);
    }
    for i in 0..n {
        gc.dec_ref(objs[i]);
    }
    let r = collect(&mut gc);
    assert!(r.cyclic_cnt >= n);
    for o in objs {
        assert_eq!(phase(&gc, o), Phase::Freed);
    }
}

#[test]
fn garbage_cycle_releases_live_child() {
    let mut gc = Collector::new();
    let a = gc.allocate(true);
    let b = gc.allocate(true);
    let live = gc.allocate(true);
    gc.add_ref(a, b);
    gc.add_ref(b, a);
    gc.add_ref(a, live);
    gc.dec_ref(b);
    gc.dec_ref(a);
    assert_eq!(gc.rc(live), 2);
    let r = collect(&mut gc);
    assert_eq!(r.cyclic_cnt, 2);
    assert_eq!(phase(&gc, live), Phase::Live);
    assert_eq!(gc.rc(live), 1);
}

#[test]
fn disabled_collector_buffers_nothing() {
    let mut gc = Collector::new();
    disable(&mut gc);
    assert!(!isenabled(&gc));
    let a = gc.allocate(true);
    let b = gc.allocate(true);
    gc.add_ref(a, b);
    gc.add_ref(b, a);
    gc.dec_ref(a);
    gc.dec_ref(b);
    assert_eq!(gc.roots_len(), 0);
    assert_eq!(collect(&mut gc), GcResult::new(0, 0));
    let x = gc.allocate(false);
    assert_eq!(gc.dec_ref(x), GcStatus::ShouldDrop);
    assert_eq!(phase(&gc, x), Phase::Freed);
    enable(&mut gc);
    assert!(isenabled(&gc));
    setenabled(&mut gc, false);
    assert!(!isenabled(&gc));
}

#[test]
fn decrement_at_zero_does_nothing() {
    let mut gc = Collector::new();
    let x = gc.allocate(false);
    assert_eq!(gc.decrement(x), GcStatus::ShouldDrop);
    assert_eq!(gc.decrement(x), GcStatus::DoNothing);
    assert_eq!(gc.rc(x), 0);
}

#[test]
fn release_reports_buffered_drop() {
    let mut gc = Collector::new();
    let x = gc.allocate(true);
    gc.increment(x);
    assert_eq!(gc.decrement(x), GcStatus::ShouldKeep);
    assert!(gc.header(x).buffered);
    assert_eq!(gc.decrement(x), GcStatus::BufferedDrop);
    assert_eq!(gc.header(x).color, Color::Black);
    assert!(GcStatus::BufferedDrop.can_drop());
    assert!(GcStatus::GarbageCycle.can_drop());
    assert!(GcStatus::ShouldDrop.can_drop());
    assert!(!GcStatus::ShouldKeep.can_drop());
    assert!(!GcStatus::DoNothing.can_drop());
}

#[test]
fn remove_ref_drops_the_child() {
    let mut gc = Collector::new();
    let p = gc.allocate(true);
    let c = gc.allocate(false);
    gc.add_ref(p, c);
    gc.dec_ref(c);
    assert_eq!(gc.children_of(p), vec![c]);
    assert_eq!(gc.remove_ref(p, 0), GcStatus::ShouldDrop);
    assert_eq!(phase(&gc, c), Phase::Freed);
    assert!(gc.children_of(p).is_empty());
}

#[test]
fn try_collect_counts_everything() {
    let mut gc = Collector::new();
    let a = gc.allocate(true);
    let b = gc.allocate(true);
    gc.add_ref(a, b);
    gc.add_ref(b, a);
    gc.dec_ref(a);
    gc.dec_ref(b);
    assert_eq!(try_collect(&mut gc), 2);
    assert_eq!(GcResult::new(3, 4).total(), Some(7));
    assert_eq!(GcResult::new(usize::MAX, 1).total(), None);
}

#[test]
fn opportunistic_pass_is_rate_limited() {
    let mut gc = Collector::new();
    let mut timer = GcTimer::new(0);
    let mut objs = Vec::new();
    for _ in 0..701 {
        let x = gc.allocate(true);
        gc.increment(x);
        gc.decrement(x);
        objs.push(x);
    }
    assert_eq!(gc.roots_len(), 701);
    assert_eq!(try_gc(&mut gc, &mut timer, 50), GcResult::new(0, 0));
    assert_eq!(gc.roots_len(), 701);
    try_gc(&mut gc, &mut timer, 150);
    assert_eq!(gc.roots_len(), 0);
    assert_eq!(timer.last_gc_ms, 150);
    assert!(!timer.should_gc(701, false, 200));
    assert!(!timer.should_gc(700, false, 1000));
    assert!(!timer.should_gc(701, true, 1000));
    assert!(timer.should_gc(701, false, 1000));
}

#[test]
fn header_operations() {
    let mut h = GcHeader::new();
    assert_eq!(h.rc(), 1);
    assert_eq!(h.get(), 1);
    h.inc();
    assert_eq!(h.rc(), 2);
    assert_eq!(h.dec(), 1);
    h.set_color(Color::Gray);
    h.increment();
    assert_eq!(h.color(), Color::Black);
    assert_eq!(h.rc(), 2);
    assert!(h.safe_inc());
    assert_eq!(h.rc(), 3);
    let mut z = GcHeader::new();
    z.dec();
    assert!(!z.safe_inc());
    assert_eq!(z.rc(), 0);
    h.leak();
    assert!(h.is_leaked());
    h.inc_black();
    assert_eq!(h.rc(), 3);
    h.set_buffered(true);
    assert!(h.buffered());
    h.set_in_cycle(true);
    assert!(h.in_cycle());
    h.set_leaked(false);
    assert!(!h.is_leaked());
}

#[test]
fn pause_nesting() {
    let mut st = GCReadLock::new();
    assert!(pausing(&mut st));
    assert!(!pausing(&mut st));
    assert_eq!(st.recursive, 1);
    assert_eq!(resuming(&mut st), ResumeAction::Keep);
    assert_eq!(resuming(&mut st), ResumeAction::Release);
    assert!(!st.held);
    assert_eq!(resuming(&mut st), ResumeAction::NotPaused);
    pausing(&mut st);
    let taken = st.take();
    assert!(taken.held);
    assert!(!st.held);
}

#[test]
fn need_gc_thresholds() {
    let mut c = GcCond::new();
    for _ in 0..701 {
        c.inc_alloc_cnt();
    }
    assert!(!need_gc(&mut c, 0, false));
    assert_eq!(c.alloc_cnt, 701);
    c.inc_dealloc_cnt();
    assert!(!need_gc(&mut c, 0, true));
    c.inc_alloc_cnt();
    assert!(need_gc(&mut c, 0, true));
    assert_eq!(c.alloc_cnt, 0);
    assert_eq!(c.dealloc_cnt, 0);
    assert!(need_gc(&mut c, 10001, true));
    assert!(!need_gc(&mut c, 10000, true));
}

#[test]
fn finalizer_resurrection_aborts_drop() {
    let mut gc = Collector::new();
    let x = gc.allocate(true);
    assert_eq!(gc.decrement(x), GcStatus::ShouldDrop);
    // the finalizer stores a reference to x somewhere
    gc.increment(x);
    assert!(!gc.drop_only(x));
    assert_eq!(phase(&gc, x), Phase::Live);
    assert_eq!(gc.rc(x), 1);
    assert!(gc.header(x).buffered);
    assert_eq!(gc.dec_ref(x), GcStatus::BufferedDrop);
    assert_eq!(collect(&mut gc), GcResult::new(1, 0));
    assert_eq!(phase(&gc, x), Phase::Freed);
}
