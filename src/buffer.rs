//! Layout of a buffer exported to other objects: item size, and for each
//! dimension its shape, stride and sub-offset, with the index arithmetic
//! on top of them.
use vstd::prelude::*;

verus! {

/// One dimension: (shape, stride, suboffset).
pub type DimDesc = (usize, isize, isize);

#[derive(Debug)]
pub struct BufferDescriptor {
    /// product(shape) * itemsize, in bytes.
    pub len: usize,
    pub readonly: bool,
    pub itemsize: usize,
    pub format: String,
    pub dim_desc: Vec<DimDesc>,
}

/// Why an index could not be turned into a byte position.
#[derive(Debug, Clone, Copy, PartialEq, Eq, Structural)]
pub enum PositionError {
    /// The index given for some dimension is outside it.
    OutOfBounds(isize),
    /// The position does not fit in an `isize`.
    Overflow,
}

/// Product of the shapes of dimensions `i..`.
pub open spec fn suffix_prod(d: Seq<DimDesc>, i: int) -> nat
    decreases d.len() - i,
{
    if i >= d.len() || i < 0 {
        1
    } else {
        (d[i].0 as nat) * suffix_prod(d, i + 1)
    }
}

/// Items are laid out back to back: each dimension with more than one
/// element strides by the size of everything below it.
pub open spec fn contiguous(len: usize, itemsize: usize, d: Seq<DimDesc>) -> bool {
    len == 0 || forall|i: int|
        0 <= i < d.len() && (#[trigger] d[i]).0 > 1 ==> d[i].1 as int == itemsize * suffix_prod(
            d,
            i + 1,
        )
}

/// A well-formed layout: items of positive size, at least one dimension,
/// no zero stride or negative sub-offset, and a length that matches the
/// shapes.
pub open spec fn valid(len: usize, itemsize: usize, d: Seq<DimDesc>) -> bool {
    &&& itemsize != 0
    &&& d.len() != 0
    &&& forall|i: int| 0 <= i < d.len() ==> (#[trigger] d[i]).2 >= 0 && d[i].1 != 0
    &&& suffix_prod(d, 0) * itemsize == len
}

/// With every shape positive, a longer suffix has at least the product of
/// a shorter one.
pub proof fn lemma_suffix_prod_mono(d: Seq<DimDesc>, i: int, j: int)
    requires
        0 <= i <= j <= d.len(),
        forall|k: int| 0 <= k < d.len() ==> (#[trigger] d[k]).0 >= 1,
    ensures
        suffix_prod(d, i) >= suffix_prod(d, j),
    decreases j - i,
{
    if i < j {
        lemma_suffix_prod_mono(d, i + 1, j);
        assert(suffix_prod(d, i) == d[i].0 * suffix_prod(d, i + 1));
        assert(d[i].0 * suffix_prod(d, i + 1) >= suffix_prod(d, i + 1)) by (nonlinear_arith)
            requires
                d[i].0 >= 1,
        ;
    }
}

/// A zero shape makes every product that includes it zero.
pub proof fn lemma_suffix_prod_zero(d: Seq<DimDesc>, i: int, z: int)
    requires
        0 <= i <= z < d.len(),
        d[z].0 == 0,
    ensures
        suffix_prod(d, i) == 0,
    decreases z - i,
{
    assert(suffix_prod(d, i) == d[i].0 * suffix_prod(d, i + 1));
    if i < z {
        lemma_suffix_prod_zero(d, i + 1, z);
        assert(d[i].0 * suffix_prod(d, i + 1) == 0) by (nonlinear_arith)
            requires
                suffix_prod(d, i + 1) == 0,
        ;
    }
}

/// A Python-style index into a dimension of `shape` elements: negative
/// counts from the end.
pub open spec fn wrap_index(i: isize, shape: usize) -> Option<int> {
    let j = if i < 0 {
        i + shape
    } else {
        i as int
    };
    if 0 <= j < shape {
        Some(j)
    } else {
        None
    }
}

pub open spec fn in_isize(x: int) -> bool {
    isize::MIN <= x <= isize::MAX
}

/// Byte position of the first `n` indices (plain, non-negative ones), or
/// `None` when a term or a partial sum leaves `isize`.
pub open spec fn fast_pos(d: Seq<DimDesc>, idx: Seq<usize>, n: int) -> Option<int>
    decreases n,
{
    if n <= 0 {
        Some(0)
    } else {
        match fast_pos(d, idx, n - 1) {
            None => None,
            Some(p) => {
                let t = idx[n - 1] * d[n - 1].1;
                if idx[n - 1] <= isize::MAX && in_isize(t) && in_isize(p + t) && in_isize(
                    p + t + d[n - 1].2,
                ) {
                    Some(p + t + d[n - 1].2)
                } else {
                    None
                }
            },
        }
    }
}

/// Byte position of the first `n` indices (Python-style ones).
pub open spec fn checked_pos(d: Seq<DimDesc>, idx: Seq<isize>, n: int) -> Result<int, PositionError>
    decreases n,
{
    if n <= 0 {
        Ok(0)
    } else {
        match checked_pos(d, idx, n - 1) {
            Err(e) => Err(e),
            Ok(p) => match wrap_index(idx[n - 1], d[n - 1].0) {
                None => Err(PositionError::OutOfBounds(idx[n - 1])),
                Some(j) => {
                    let t = j * d[n - 1].1;
                    if in_isize(t) && in_isize(p + t) && in_isize(p + t + d[n - 1].2) {
                        Ok(p + t + d[n - 1].2)
                    } else {
                        Err(PositionError::Overflow)
                    }
                },
            },
        }
    }
}

impl BufferDescriptor {
    /// A one-dimensional byte buffer.
    pub fn simple(bytes_len: usize, readonly: bool) -> (r: BufferDescriptor)
        ensures
            r.len == bytes_len,
            r.readonly == readonly,
            r.itemsize == 1,
            r.format@ == seq!['B'],
            r.dim_desc@ == seq![(bytes_len, 1isize, 0isize)],
    {
        let mut dim_desc: Vec<DimDesc> = Vec::new();
        dim_desc.push((bytes_len, 1, 0));
        proof {
            reveal_strlit("B");
        }
        BufferDescriptor { len: bytes_len, readonly, itemsize: 1, format: "B".to_owned(), dim_desc }
    }

    /// A one-dimensional buffer of items of `itemsize` bytes.
    pub fn format(bytes_len: usize, readonly: bool, itemsize: usize, format: String) -> (r:
        BufferDescriptor)
        requires
            0 < itemsize <= isize::MAX,
        ensures
            r.len == bytes_len,
            r.readonly == readonly,
            r.itemsize == itemsize,
            r.format == format,
            r.dim_desc@ == seq![((bytes_len / itemsize) as usize, itemsize as isize, 0isize)],
    {
        let mut dim_desc: Vec<DimDesc> = Vec::new();
        dim_desc.push((bytes_len / itemsize, itemsize as isize, 0));
        BufferDescriptor { len: bytes_len, readonly, itemsize, format, dim_desc }
    }

    /// Whether the layout is well formed.
    pub fn is_valid(&self) -> (r: bool)
        ensures
            r == valid(self.len, self.itemsize, self.dim_desc@),
    {
        if self.itemsize == 0 || self.dim_desc.len() == 0 {
            return false;
        }
        let mut i: usize = 0;
        while i < self.dim_desc.len()
            invariant
                i <= self.dim_desc@.len(),
                forall|j: int| 0 <= j < i ==> (#[trigger] self.dim_desc@[j]).2 >= 0 && self.dim_desc@[j].1 != 0,
            decreases self.dim_desc@.len() - i,
        {
            let (_, stride, suboffset) = self.dim_desc[i];
            if suboffset < 0 || stride == 0 {
                proof {
                    assert(!((self.dim_desc@[i as int]).2 >= 0 && self.dim_desc@[i as int].1 != 0));
                }
                return false;
            }
            i = i + 1;
        }
        if self.is_zero_in_shape() {
            proof {
                let z = choose|z: int| 0 <= z < self.dim_desc@.len() && (#[trigger] self.dim_desc@[z]).0 == 0;
                lemma_suffix_prod_zero(self.dim_desc@, 0, z);
                assert(suffix_prod(self.dim_desc@, 0) * self.itemsize == 0) by (nonlinear_arith)
                    requires
                        suffix_prod(self.dim_desc@, 0) == 0,
                ;
            }
            if self.len == 0 {
                return true;
            } else {
                return false;
            }
        }
        let mut p: usize = 1;
        let mut k: usize = self.dim_desc.len();
        while k > 0
            invariant
                k <= self.dim_desc@.len(),
                p == suffix_prod(self.dim_desc@, k as int),
                self.itemsize != 0,
                forall|j: int| 0 <= j < self.dim_desc@.len() ==> (#[trigger] self.dim_desc@[j]).0 >= 1,
            decreases k,
        {
            k = k - 1;
            let shape = self.dim_desc[k].0;
            match p.checked_mul(shape) {
                Some(q) => {
                    proof {
                        assert(suffix_prod(self.dim_desc@, k as int) == shape * suffix_prod(self.dim_desc@, k + 1));
                        assert(q == suffix_prod(self.dim_desc@, k as int)) by (nonlinear_arith)
                            requires
                                q == p * shape,
                                p == suffix_prod(self.dim_desc@, k + 1),
                                suffix_prod(self.dim_desc@, k as int) == shape * suffix_prod(self.dim_desc@, k + 1),
                        ;
                    }
                    p = q;
                },
                None => {
                    proof {
                        assert(suffix_prod(self.dim_desc@, k as int) == shape * suffix_prod(self.dim_desc@, k + 1));
                        assert(suffix_prod(self.dim_desc@, k as int) > usize::MAX) by (nonlinear_arith)
                            requires
                                p * shape > usize::MAX,
                                p == suffix_prod(self.dim_desc@, k + 1),
                                suffix_prod(self.dim_desc@, k as int) == shape * suffix_prod(self.dim_desc@, k + 1),
                        ;
                        lemma_suffix_prod_mono(self.dim_desc@, 0, k as int);
                        assert(suffix_prod(self.dim_desc@, 0) * self.itemsize >= suffix_prod(self.dim_desc@, 0))
                            by (nonlinear_arith)
                            requires
                                self.itemsize >= 1,
                        ;
                        assert(suffix_prod(self.dim_desc@, 0) > usize::MAX);
                        assert(suffix_prod(self.dim_desc@, 0) * self.itemsize != self.len);
                    }
                    return false;
                },
            }
        }
        proof {
            assert(forall|j: int| 0 <= j < self.dim_desc@.len() ==> (#[trigger] self.dim_desc@[j]).0 != 0);
        }
        match p.checked_mul(self.itemsize) {
            Some(total) => {
                total == self.len
            },
            None => false,
        }
    }

    /// Hands back a descriptor whose layout is well formed; a malformed one
    /// is a programming error and is excluded by the precondition.
    pub fn validate(self) -> (r: BufferDescriptor)
        requires
            valid(self.len, self.itemsize, self.dim_desc@),
        ensures
            r == self,
    {
        self
    }

    /// Number of dimensions.
    pub fn ndim(&self) -> (r: usize)
        ensures
            r == self.dim_desc@.len(),
    {
        self.dim_desc.len()
    }

    /// Whether some dimension is empty.
    pub fn is_zero_in_shape(&self) -> (r: bool)
        ensures
            r == exists|i: int| 0 <= i < self.dim_desc@.len() && (#[trigger] self.dim_desc@[i]).0 == 0,
    {
        let mut i: usize = 0;
        while i < self.dim_desc.len()
            invariant
                i <= self.dim_desc@.len(),
                forall|j: int| 0 <= j < i ==> (#[trigger] self.dim_desc@[j]).0 != 0,
            decreases self.dim_desc@.len() - i,
        {
            if self.dim_desc[i].0 == 0 {
                return true;
            }
            i = i + 1;
        }
        false
    }

    /// Whether the items are laid out back to back in row-major order.
    pub fn is_contiguous(&self) -> (r: bool)
        requires
            forall|i: int|
                0 <= i <= self.dim_desc@.len() ==> self.itemsize * #[trigger] suffix_prod(
                    self.dim_desc@,
                    i,
                ) <= isize::MAX,
        ensures
            r == contiguous(self.len, self.itemsize, self.dim_desc@),
    {
        if self.len == 0 {
            return true;
        }
        let mut sd: usize = self.itemsize;
        let mut k: usize = self.dim_desc.len();
        proof {
            assert(suffix_prod(self.dim_desc@, k as int) == 1);
            assert(sd == self.itemsize * suffix_prod(self.dim_desc@, k as int)) by (nonlinear_arith)
                requires
                    sd == self.itemsize,
                    suffix_prod(self.dim_desc@, k as int) == 1,
            ;
        }
        while k > 0
            invariant
                k <= self.dim_desc@.len(),
                self.len != 0,
                sd == self.itemsize * suffix_prod(self.dim_desc@, k as int),
                forall|i: int|
                    0 <= i <= self.dim_desc@.len() ==> self.itemsize * #[trigger] suffix_prod(
                        self.dim_desc@,
                        i,
                    ) <= isize::MAX,
                forall|i: int|
                    k <= i < self.dim_desc@.len() && (#[trigger] self.dim_desc@[i]).0 > 1
                        ==> self.dim_desc@[i].1 as int == self.itemsize * suffix_prod(
                        self.dim_desc@,
                        i + 1,
                    ),
            decreases k,
        {
            k = k - 1;
            let (shape, stride, _) = self.dim_desc[k];
            proof {
                assert(self.itemsize * suffix_prod(self.dim_desc@, k + 1) <= isize::MAX);
            }
            if shape > 1 && stride != sd as isize {
                proof {
                    assert(self.dim_desc@[k as int].0 > 1);
                }
                return false;
            }
            proof {
                assert(self.itemsize * suffix_prod(self.dim_desc@, k as int) <= isize::MAX);
                assert(suffix_prod(self.dim_desc@, k as int) == shape * suffix_prod(self.dim_desc@, k + 1));
                assert(self.itemsize * suffix_prod(self.dim_desc@, k as int) == sd * shape) by (nonlinear_arith)
                    requires
                        sd == self.itemsize * suffix_prod(self.dim_desc@, k + 1),
                        suffix_prod(self.dim_desc@, k as int) == shape * suffix_prod(self.dim_desc@, k + 1),
                ;
            }
            sd = sd * shape;
        }
        true
    }

    /// Byte position of an item given one non-negative index per
    /// dimension, bounds not checked; `None` when the arithmetic leaves
    /// `isize`.
    pub fn fast_position(&self, indices: &[usize]) -> (r: Option<isize>)
        requires
            indices@.len() == self.dim_desc@.len(),
        ensures
            r == (match fast_pos(self.dim_desc@, indices@, indices@.len() as int) {
                Some(p) => Some(p as isize),
                None => None::<isize>,
            }),
    {
        let mut pos: isize = 0;
        let mut n: usize = 0;
        while n < indices.len()
            invariant
                n <= indices@.len(),
                indices@.len() == self.dim_desc@.len(),
                fast_pos(self.dim_desc@, indices@, n as int) == Some(pos as int),
            decreases indices@.len() - n,
        {
            let i = indices[n];
            let (_, stride, suboffset) = self.dim_desc[n];
            if i > isize::MAX as usize {
                proof {
                    lemma_fast_pos_none_stays(self.dim_desc@, indices@, n as int + 1, indices@.len() as int);
                }
                return None;
            }
            let t = match (i as isize).checked_mul(stride) {
                Some(t) => t,
                None => {
                    proof {
                        lemma_fast_pos_none_stays(self.dim_desc@, indices@, n as int + 1, indices@.len() as int);
                    }
                    return None;
                },
            };
            let s = match pos.checked_add(t) {
                Some(s) => s,
                None => {
                    proof {
                        lemma_fast_pos_none_stays(self.dim_desc@, indices@, n as int + 1, indices@.len() as int);
                    }
                    return None;
                },
            };
            pos = match s.checked_add(suboffset) {
                Some(p) => p,
                None => {
                    proof {
                        lemma_fast_pos_none_stays(self.dim_desc@, indices@, n as int + 1, indices@.len() as int);
                    }
                    return None;
                },
            };
            n = n + 1;
        }
        Some(pos)
    }

    /// Byte position of an item given one Python-style index per
    /// dimension; an index outside its dimension is an error.
    pub fn position(&self, indices: &[isize]) -> (r: Result<isize, PositionError>)
        requires
            indices@.len() == self.dim_desc@.len(),
        ensures
            r == (match checked_pos(self.dim_desc@, indices@, indices@.len() as int) {
                Ok(p) => Ok(p as isize),
                Err(e) => Err::<isize, PositionError>(e),
            }),
    {
        let mut pos: isize = 0;
        let mut n: usize = 0;
        while n < indices.len()
            invariant
                n <= indices@.len(),
                indices@.len() == self.dim_desc@.len(),
                checked_pos(self.dim_desc@, indices@, n as int) == Ok::<int, PositionError>(pos as int),
            decreases indices@.len() - n,
        {
            let i = indices[n];
            let (shape, stride, suboffset) = self.dim_desc[n];
            let j: usize = if i < 0 {
                let neg: usize = (-(i + 1)) as usize + 1;
                if neg > shape {
                    proof {
                        lemma_checked_pos_err_stays(self.dim_desc@, indices@, n as int + 1, indices@.len() as int);
                    }
                    return Err(PositionError::OutOfBounds(i));
                }
                shape - neg
            } else {
                if (i as usize) >= shape {
                    proof {
                        lemma_checked_pos_err_stays(self.dim_desc@, indices@, n as int + 1, indices@.len() as int);
                    }
                    return Err(PositionError::OutOfBounds(i));
                }
                i as usize
            };
            proof {
                assert(wrap_index(i, shape) == Some(j as int));
            }
            let t: isize = if stride == 0 {
                0
            } else if j > isize::MAX as usize && stride == -1 && j == isize::MAX as usize + 1 {
                isize::MIN
            } else if j > isize::MAX as usize {
                proof {
                    if stride > 0 {
                        assert(j * stride >= j) by (nonlinear_arith)
                            requires
                                stride > 0,
                                j >= 0,
                        ;
                    } else if stride == -1 {
                        assert(j * stride == -j);
                    } else {
                        assert(j * stride <= -2 * j) by (nonlinear_arith)
                            requires
                                stride <= -2,
                                j >= 0,
                        ;
                    }
                    assert(j * stride > isize::MAX || j * stride < isize::MIN);
                    lemma_checked_pos_err_stays(self.dim_desc@, indices@, n as int + 1, indices@.len() as int);
                }
                return Err(PositionError::Overflow);
            } else {
                match (j as isize).checked_mul(stride) {
                    Some(t) => t,
                    None => {
                        proof {
                            lemma_checked_pos_err_stays(self.dim_desc@, indices@, n as int + 1, indices@.len() as int);
                        }
                        return Err(PositionError::Overflow);
                    },
                }
            };
            proof {
                if stride == 0 {
                    assert(j * stride == 0) by (nonlinear_arith)
                        requires
                            stride == 0,
                    ;
                }
                assert(t == j * stride);
                assert(wrap_index(indices@[n as int], self.dim_desc@[n as int].0) == Some(j as int));
            }
            let s = match pos.checked_add(t) {
                Some(s) => s,
                None => {
                    proof {
                        lemma_checked_pos_err_stays(self.dim_desc@, indices@, n as int + 1, indices@.len() as int);
                    }
                    return Err(PositionError::Overflow);
                },
            };
            pos = match s.checked_add(suboffset) {
                Some(p) => p,
                None => {
                    proof {
                        lemma_checked_pos_err_stays(self.dim_desc@, indices@, n as int + 1, indices@.len() as int);
                    }
                    return Err(PositionError::Overflow);
                },
            };
            n = n + 1;
        }
        Ok(pos)
    }
}

/// Once the position of a prefix overflows, every longer prefix does too.
proof fn lemma_fast_pos_none_stays(d: Seq<DimDesc>, idx: Seq<usize>, n: int, m: int)
    requires
        1 <= n <= m,
        fast_pos(d, idx, n) is None,
    ensures
        fast_pos(d, idx, m) is None,
    decreases m - n,
{
    if n < m {
        lemma_fast_pos_none_stays(d, idx, n, m - 1);
    }
}

/// Once a prefix fails, every longer prefix fails the same way.
proof fn lemma_checked_pos_err_stays(d: Seq<DimDesc>, idx: Seq<isize>, n: int, m: int)
    requires
        1 <= n <= m,
        checked_pos(d, idx, n) is Err,
    ensures
        checked_pos(d, idx, m) == checked_pos(d, idx, n),
    decreases m - n,
{
    if n < m {
        lemma_checked_pos_err_stays(d, idx, n, m - 1);
    }
}

/// Bytes owned by a buffer export, handed out whole.
pub struct VecBuffer {
    data: Vec<u8>,
}

impl VecBuffer {
    /// The bytes held.
    pub closed spec fn bytes(&self) -> Seq<u8> {
        self.data@
    }

    pub fn new(data: Vec<u8>) -> (r: VecBuffer)
        ensures
            r.bytes() == data@,
    {
        VecBuffer { data }
    }

    /// Hands out the bytes, leaving the buffer empty.
    pub fn take(&mut self) -> (r: Vec<u8>)
        ensures
            r@ == old(self).bytes(),
            final(self).bytes() == Seq::<u8>::empty(),
    {
        let mut out: Vec<u8> = Vec::new();
        std::mem::swap(&mut out, &mut self.data);
        out
    }
}

} // verus!
