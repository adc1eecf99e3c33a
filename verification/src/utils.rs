//! Small helpers shared by the tables and the engine.

use vstd::prelude::*;
use crate::fx::Fx;

verus! {

/// Whether two scalar slices hold the same elements in the same order.
pub fn all_eq(u: &[Fx], v: &[Fx]) -> (r: bool)
    ensures
        r <==> u@ == v@,
{
    if u.len() != v.len() {
        proof {
            assert(u@.len() != v@.len());
        }
        return false;
    }
    let mut i: usize = 0;
    while i < u.len()
        invariant
            i <= u@.len(),
            u@.len() == v@.len(),
            forall|j: int| 0 <= j < i ==> u@[j] == v@[j],
        decreases u@.len() - i,
    {
        if u[i] != v[i] {
            return false;
        }
        i += 1;
    }
    proof {
        assert(u@ =~= v@);
    }
    true
}

/// Whether two codewords hold the same elements in the same order.
pub fn codes_eq(u: &[i64], v: &[i64]) -> (r: bool)
    ensures
        r <==> u@ == v@,
{
    if u.len() != v.len() {
        proof {
            assert(u@.len() != v@.len());
        }
        return false;
    }
    let mut i: usize = 0;
    while i < u.len()
        invariant
            i <= u@.len(),
            u@.len() == v@.len(),
            forall|j: int| 0 <= j < i ==> u@[j] == v@[j],
        decreases u@.len() - i,
    {
        if u[i] != v[i] {
            return false;
        }
        i += 1;
    }
    proof {
        assert(u@ =~= v@);
    }
    true
}

/// Reserve room for `size` further entries; the contents are unchanged.
pub fn increase_capacity<T>(size: usize, container: &mut Vec<T>)
    ensures
        final(container)@ == old(container)@,
{
    container.reserve(size);
}

/// Exact dot product of two integer slices of equal length.
pub fn dot_prod(u: &[i64], v: &[i64]) -> (r: i64)
    requires
        u@.len() == v@.len(),
        forall|j: int| 0 <= j < u@.len() ==> -32768 <= #[trigger] u@[j] <= 32768,
        forall|j: int| 0 <= j < v@.len() ==> -32768 <= #[trigger] v@[j] <= 32768,
        u@.len() <= 0x10000_0000,
    ensures
        r == int_dot(u@, v@),
{
    let mut sum: i64 = 0;
    let mut i: usize = 0;
    while i < u.len()
        invariant
            i <= u@.len(),
            u@.len() == v@.len(),
            u@.len() <= 0x10000_0000,
            forall|j: int| 0 <= j < u@.len() ==> -32768 <= #[trigger] u@[j] <= 32768,
            forall|j: int| 0 <= j < v@.len() ==> -32768 <= #[trigger] v@[j] <= 32768,
            sum == int_dot(u@.take(i as int), v@.take(i as int)),
            -0x40000000 * (i as int) <= sum <= 0x40000000 * (i as int),
        decreases u@.len() - i,
    {
        proof {
            assert(u@.take(i + 1).drop_last() =~= u@.take(i as int));
            assert(v@.take(i + 1).drop_last() =~= v@.take(i as int));
            assert(-0x40000000 <= u@[i as int] * v@[i as int] <= 0x40000000) by (nonlinear_arith)
                requires
                    -32768 <= u@[i as int] <= 32768,
                    -32768 <= v@[i as int] <= 32768,
            ;
        }
        sum = sum + u[i] * v[i];
        i += 1;
    }
    proof {
        assert(u@.take(u@.len() as int) =~= u@);
        assert(v@.take(v@.len() as int) =~= v@);
    }
    sum
}

/// Dot product of two integer sequences of equal length.
pub open spec fn int_dot(u: Seq<i64>, v: Seq<i64>) -> int
    decreases u.len(),
{
    if u.len() == 0 || v.len() == 0 {
        0
    } else {
        int_dot(u.drop_last(), v.drop_last()) + u.last() * v.last()
    }
}

} // verus!
