use pygc::buffer::{BufferDescriptor, PositionError, VecBuffer};
use pygc::mem_balance::MemBalancer;
use pygc::trace::{PayloadKind, Trace, TraceHelper};

fn two_dim(rows: usize, cols: usize, itemsize: usize) -> BufferDescriptor {
    BufferDescriptor {
        len: rows * cols * itemsize,
        readonly: false,
        itemsize,
        format: "i".to_string(),
        dim_desc: vec![(rows, (cols * itemsize) as isize, 0), (cols, itemsize as isize, 0)],
    }
}

#[test]
fn simple_descriptor() {
    let d = BufferDescriptor::simple(12, true);
    assert_eq!(d.len, 12);
    assert!(d.readonly);
    assert_eq!(d.itemsize, 1);
    assert_eq!(d.format, "B");
    assert_eq!(d.dim_desc, vec![(12, 1, 0)]);
    assert_eq!(d.ndim(), 1);
    assert!(d.is_contiguous());
    assert!(!d.is_zero_in_shape());
}

#[test]
fn format_descriptor() {
    let d = BufferDescriptor::format(16, false, 4, "i".to_string());
    assert_eq!(d.dim_desc, vec![(4, 4, 0)]);
    assert!(d.is_contiguous());
}

#[test]
fn contiguity() {
    let d = two_dim(3, 4, 2);
    assert!(d.is_contiguous());
    let mut t = two_dim(3, 4, 2);
    t.dim_desc = vec![(3, 2, 0), (4, 6, 0)];
    assert!(!t.is_contiguous());
    let mut single = two_dim(3, 1, 2);
    single.dim_desc = vec![(3, 2, 0), (1, 99, 0)];
    assert!(single.is_contiguous());
    let mut empty = two_dim(0, 4, 2);
    empty.dim_desc = vec![(0, 5, 0), (4, 7, 0)];
    assert!(empty.is_contiguous());
    assert!(empty.is_zero_in_shape());
}

#[test]
fn positions() {
    let d = two_dim(3, 4, 2);
    assert_eq!(d.fast_position(&[2, 3]), Some(22));
    assert_eq!(d.position(&[2, 3]), Ok(22));
    assert_eq!(d.position(&[-1, -1]), Ok(22));
    assert_eq!(d.position(&[0, 4]), Err(PositionError::OutOfBounds(4)));
    assert_eq!(d.position(&[-4, 0]), Err(PositionError::OutOfBounds(-4)));
    let mut big = two_dim(3, 4, 2);
    big.dim_desc = vec![(3, isize::MAX, 0), (4, 2, 0)];
    assert_eq!(big.position(&[2, 0]), Err(PositionError::Overflow));
    assert_eq!(big.fast_position(&[2, 0]), None);
    let mut off = two_dim(3, 4, 2);
    off.dim_desc = vec![(3, 8, 5), (4, 2, 1)];
    assert_eq!(off.fast_position(&[1, 1]), Some(16));
}

#[test]
fn balancer_smooths_measurements() {
    let mut m = MemBalancer::new(0);
    assert!(!m.excess_heap_limit(None));
    assert!(m.excess_heap_limit(Some(1)));
    m.mark_start_gc(Some(5000), 100);
    assert_eq!(m.mem_before_gc, 5000);
    m.mark_end_gc(10, Some(4000), 300);
    assert_eq!(m.gced_bytes, 512);
    assert_eq!(m.gc_time_ns, 100);
    assert_eq!(m.live, 4000);
    m.update_mem_delta(Some(2000), 1000);
    assert_eq!(m.last_mem, 2000);
    assert_eq!(m.mem_delta, 100);
    assert_eq!(m.beat_period_ns, 50);
    m.update_mem_delta(Some(1000), 2000);
    assert_eq!(m.mem_delta, 95);
    let before = m;
    m.update_mem_delta(None, 5000);
    assert_eq!(m, before);
}

#[test]
fn trace_reports_each_handle() {
    let v: Vec<Option<usize>> = vec![Some(3), None, Some(5)];
    let mut out = Vec::new();
    v.trace(&mut out);
    assert_eq!(out, vec![3, 5]);
    7usize.trace(&mut out);
    assert_eq!(out, vec![3, 5, 7]);
}

#[test]
fn traceable_kinds() {
    assert!(TraceHelper::is_traceable(PayloadKind::Dict));
    assert!(TraceHelper::is_traceable(PayloadKind::List));
    assert!(!TraceHelper::is_traceable(PayloadKind::Str));
    assert!(!TraceHelper::is_traceable(PayloadKind::Int));
}

#[test]
fn validation() {
    assert!(BufferDescriptor::simple(12, false).is_valid());
    let d = BufferDescriptor::simple(12, false).validate();
    assert_eq!(d.len, 12);
    assert!(two_dim(3, 4, 2).is_valid());
    let mut wrong_len = two_dim(3, 4, 2);
    wrong_len.len = 25;
    assert!(!wrong_len.is_valid());
    let mut zero_stride = two_dim(3, 4, 2);
    zero_stride.dim_desc[1].1 = 0;
    assert!(zero_stride.is_valid() == false);
    let mut neg_sub = two_dim(3, 4, 2);
    neg_sub.dim_desc[0].2 = -1;
    assert!(neg_sub.is_valid() == false);
    let mut empty = two_dim(0, 4, 2);
    empty.len = 0;
    assert!(empty.is_valid());
    let mut zero_item = two_dim(3, 4, 2);
    zero_item.itemsize = 0;
    assert!(zero_item.is_valid() == false);
    let mut huge = two_dim(3, 4, 2);
    huge.dim_desc = vec![(usize::MAX, 1, 0), (3, 1, 0)];
    assert!(huge.is_valid() == false);
    let mut no_dims = two_dim(3, 4, 2);
    no_dims.dim_desc = vec![];
    assert!(no_dims.is_valid() == false);
}

#[test]
fn vec_buffer_take_empties_it() {
    let mut b = VecBuffer::new(vec![1u8, 2, 3]);
    assert_eq!(b.take(), vec![1u8, 2, 3]);
    assert!(b.take().is_empty());
}
