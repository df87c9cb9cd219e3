//! The traversal capability: a value reports the handles of the objects it
//! holds strong references to, each once, without taking new references.
use vstd::prelude::*;

verus! {

pub trait Trace {
    /// The handles this value holds, in order.
    spec fn held(&self) -> Seq<usize>;

    /// Appends the handles this value holds to `out`.
    fn trace(&self, out: &mut Vec<usize>)
        ensures
            final(out)@ == old(out)@ + self.held(),
    ;
}

/// A handle holds itself.
impl Trace for usize {
    open spec fn held(&self) -> Seq<usize> {
        seq![*self]
    }

    fn trace(&self, out: &mut Vec<usize>) {
        out.push(*self);
    }
}

impl<T: Trace> Trace for Option<T> {
    open spec fn held(&self) -> Seq<usize> {
        match self {
            Some(v) => v.held(),
            None => Seq::empty(),
        }
    }

    fn trace(&self, out: &mut Vec<usize>) {
        match self {
            Some(v) => v.trace(out),
            None => {
                proof {
                    assert(old(out)@ + Seq::<usize>::empty() =~= old(out)@);
                }
            },
        }
    }
}

/// The handles held by a sequence of values, in order.
pub open spec fn held_all<T: Trace>(s: Seq<T>) -> Seq<usize>
    decreases s.len(),
{
    if s.len() == 0 {
        Seq::empty()
    } else {
        held_all(s.drop_last()) + s.last().held()
    }
}

impl<T: Trace> Trace for Vec<T> {
    open spec fn held(&self) -> Seq<usize> {
        held_all(self@)
    }

    fn trace(&self, out: &mut Vec<usize>) {
        let ghost start = out@;
        let mut i: usize = 0;
        while i < self.len()
            invariant
                i <= self@.len(),
                out@ == start + held_all(self@.subrange(0, i as int)),
            decreases self@.len() - i,
        {
            self[i].trace(out);
            proof {
                assert(self@.subrange(0, i + 1).drop_last() =~= self@.subrange(0, i as int));
                assert(start + held_all(self@.subrange(0, i as int)) + self@[i as int].held() =~= start
                    + (held_all(self@.subrange(0, i as int)) + self@[i as int].held()));
            }
            i = i + 1;
        }
        proof {
            assert(self@.subrange(0, self@.len() as int) =~= self@);
        }
    }
}

/// Kinds of runtime payloads, as far as collection cares.
#[derive(Debug, Clone, Copy, PartialEq, Eq, Structural)]
pub enum PayloadKind {
    Int,
    Float,
    Complex,
    Str,
    Bytes,
    Range,
    NoneType,
    Dict,
    List,
    Tuple,
    SetObject,
    Function,
    BoundMethod,
    Cell,
    Type,
    Property,
    Slice,
    StaticMethod,
    Super,
    Traceback,
    Union,
    WeakProxy,
    Zip,
    MapIterator,
    Filter,
    Enumerate,
    Iterator,
    BaseException,
    MappingProxy,
    MemoryView,
}

/// Payloads that never hold references to other objects.
pub open spec fn acyclic_kind(k: PayloadKind) -> bool {
    k == PayloadKind::Int || k == PayloadKind::Float || k == PayloadKind::Complex || k
        == PayloadKind::Str || k == PayloadKind::Bytes || k == PayloadKind::Range || k
        == PayloadKind::NoneType
}

pub struct TraceHelper {}

impl TraceHelper {
    /// Whether objects of this kind can hold references, and so take part
    /// in cycles.
    pub fn is_traceable(kind: PayloadKind) -> (r: bool)
        ensures
            r == !acyclic_kind(kind),
    {
        match kind {
            PayloadKind::Int | PayloadKind::Float | PayloadKind::Complex | PayloadKind::Str
            | PayloadKind::Bytes | PayloadKind::Range | PayloadKind::NoneType => false,
            _ => true,
        }
    }
}

} // verus!
