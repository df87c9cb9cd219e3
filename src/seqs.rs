//! Facts about sequences of handles without repeats.
use vstd::prelude::*;

verus! {

/// No handle occurs twice.
pub open spec fn no_dup(s: Seq<usize>) -> bool {
    forall|i: int, j: int| 0 <= i < j < s.len() ==> #[trigger] s[i] != #[trigger] s[j]
}

/// Dropping the last entry of `a` from `a + b` leaves every other entry,
/// and, without repeats, removes that handle altogether.
pub proof fn lemma_drop_last(a: Seq<usize>, b: Seq<usize>)
    requires
        a.len() > 0,
        no_dup(a + b),
    ensures
        ({
            let u = a + b;
            let v = a.drop_last() + b;
            &&& forall|x: usize| #[trigger] v.contains(x) == (u.contains(x) && x != a.last())
            &&& no_dup(v)
            &&& forall|k: int| 0 <= k < v.len() ==> u.contains(#[trigger] v[k])
        }),
{
    let u = a + b;
    let v = a.drop_last() + b;
    let n = a.len() - 1;
    assert forall|k: int| 0 <= k < v.len() implies #[trigger] v[k] == (if k < n {
        u[k]
    } else {
        u[k + 1]
    }) by {}
    assert forall|x: usize| #[trigger] v.contains(x) == (u.contains(x) && x != a.last()) by {
        if v.contains(x) {
            let k = choose|k: int| 0 <= k < v.len() && v[k] == x;
            if k < n {
                assert(u[k] == x);
                assert(u[k] != u[n]);
            } else {
                assert(u[k + 1] == x);
                assert(u[n] != u[k + 1]);
            }
        }
        if u.contains(x) && x != a.last() {
            let k = choose|k: int| 0 <= k < u.len() && u[k] == x;
            if k < n {
                assert(v[k] == x);
            } else {
                assert(k != n);
                assert(v[k - 1] == x);
            }
        }
    }
    assert forall|k: int| 0 <= k < v.len() implies u.contains(#[trigger] v[k]) by {
        if k < n {
            assert(u[k] == v[k]);
        } else {
            assert(u[k + 1] == v[k]);
        }
    }
    assert forall|i: int, j: int| 0 <= i < j < v.len() implies #[trigger] v[i] != #[trigger] v[j] by {
        let ii = if i < n {
            i
        } else {
            i + 1
        };
        let jj = if j < n {
            j
        } else {
            j + 1
        };
        assert(u[ii] != u[jj]);
    }
}

/// Dropping the first entry of `b` from `a + b` leaves every other entry,
/// and, without repeats, removes that handle altogether.
pub proof fn lemma_drop_first(a: Seq<usize>, b: Seq<usize>)
    requires
        b.len() > 0,
        no_dup(a + b),
    ensures
        ({
            let u = a + b;
            let v = a + b.drop_first();
            &&& forall|x: usize| #[trigger] v.contains(x) == (u.contains(x) && x != b[0])
            &&& no_dup(v)
            &&& forall|k: int| 0 <= k < v.len() ==> u.contains(#[trigger] v[k])
        }),
{
    let u = a + b;
    let v = a + b.drop_first();
    let n = a.len() as int;
    assert forall|k: int| 0 <= k < v.len() implies #[trigger] v[k] == (if k < n {
        u[k]
    } else {
        u[k + 1]
    }) by {}
    assert(u[n] == b[0]);
    assert forall|x: usize| #[trigger] v.contains(x) == (u.contains(x) && x != b[0]) by {
        if v.contains(x) {
            let k = choose|k: int| 0 <= k < v.len() && v[k] == x;
            if k < n {
                assert(u[k] == x);
                assert(u[k] != u[n]);
            } else {
                assert(u[k + 1] == x);
                assert(u[n] != u[k + 1]);
            }
        }
        if u.contains(x) && x != b[0] {
            let k = choose|k: int| 0 <= k < u.len() && u[k] == x;
            if k < n {
                assert(v[k] == x);
            } else {
                assert(k != n);
                assert(v[k - 1] == x);
            }
        }
    }
    assert forall|k: int| 0 <= k < v.len() implies u.contains(#[trigger] v[k]) by {
        if k < n {
            assert(u[k] == v[k]);
        } else {
            assert(u[k + 1] == v[k]);
        }
    }
    assert forall|i: int, j: int| 0 <= i < j < v.len() implies #[trigger] v[i] != #[trigger] v[j] by {
        let ii = if i < n {
            i
        } else {
            i + 1
        };
        let jj = if j < n {
            j
        } else {
            j + 1
        };
        assert(u[ii] != u[jj]);
    }
}

} // verus!
