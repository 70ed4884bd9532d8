//! Small vectors of interned handles used as finite sets.
//!
//! A handle set is a `Vec<usize>` without duplicates; membership, insertion
//! and removal keep that shape.  Specifications speak about the sequence view
//! through `contains`.

use vstd::prelude::*;

verus! {

/// Two handle sequences hold the same handles, ignoring order.
pub open spec fn seq_set_eq(a: Seq<usize>, b: Seq<usize>) -> bool {
    forall|x: usize| a.contains(x) <==> b.contains(x)
}

/// No handle stands in both sequences.
pub open spec fn seq_disjoint(a: Seq<usize>, b: Seq<usize>) -> bool {
    forall|x: usize| !(a.contains(x) && b.contains(x))
}

/// Linear membership test.
pub fn handles_contain(v: &Vec<usize>, x: usize) -> (r: bool)
    ensures
        r == v@.contains(x),
{
    let mut i: usize = 0;
    while i < v.len()
        invariant
            i <= v@.len(),
            forall|j: int| 0 <= j < i ==> v@[j] != x,
        decreases v@.len() - i,
    {
        if v[i] == x {
            return true;
        }
        i += 1;
    }
    false
}

/// Add a handle unless it is already present.
pub fn handles_insert(v: &mut Vec<usize>, x: usize)
    requires
        old(v)@.no_duplicates(),
    ensures
        final(v)@.no_duplicates(),
        forall|y: usize| final(v)@.contains(y) <==> (old(v)@.contains(y) || y == x),
        old(v)@.contains(x) ==> final(v)@ == old(v)@,
        !old(v)@.contains(x) ==> final(v)@ == old(v)@.push(x),
{
    if !handles_contain(v, x) {
        v.push(x);
        proof {
            assert forall|y: usize| final(v)@.contains(y) <==> (old(v)@.contains(y) || y == x) by {
                if old(v)@.contains(y) {
                    let j = choose|j: int| 0 <= j < old(v)@.len() && old(v)@[j] == y;
                    assert(final(v)@[j] == y);
                }
                if y == x {
                    assert(final(v)@[old(v)@.len() as int] == x);
                }
                if final(v)@.contains(y) {
                    let j = choose|j: int| 0 <= j < final(v)@.len() && final(v)@[j] == y;
                    if j < old(v)@.len() {
                        assert(old(v)@[j] == y);
                    }
                }
            }
        }
    }
}

/// Drop a handle if it is present.
pub fn handles_remove(v: &mut Vec<usize>, x: usize)
    requires
        old(v)@.no_duplicates(),
    ensures
        final(v)@.no_duplicates(),
        forall|y: usize| final(v)@.contains(y) <==> (old(v)@.contains(y) && y != x),
{
    let mut i: usize = 0;
    while i < v.len()
        invariant
            i <= v@.len(),
            v@ == old(v)@,
            old(v)@.no_duplicates(),
            forall|j: int| 0 <= j < i ==> v@[j] != x,
        decreases v@.len() - i,
    {
        if v[i] == x {
            v.remove(i);
            proof {
                let pre = old(v)@;
                assert(final(v)@ == pre.remove(i as int));
                assert(final(v)@.no_duplicates()) by {
                    assert forall|p: int, q: int|
                        0 <= p < q < final(v)@.len() implies final(v)@[p] != final(v)@[q] by {
                        let p0: int = if p < i { p } else { p + 1 };
                        let q0: int = if q < i { q } else { q + 1 };
                        assert(final(v)@[p] == pre[p0]);
                        assert(final(v)@[q] == pre[q0]);
                    }
                }
                assert forall|y: usize| final(v)@.contains(y) <==> (pre.contains(y) && y != x) by {
                    if final(v)@.contains(y) {
                        let j = choose|j: int| 0 <= j < final(v)@.len() && final(v)@[j] == y;
                        if j < i {
                            assert(pre[j] == y);
                        } else {
                            assert(pre[j + 1] == y);
                        }
                        assert(pre.contains(y));
                        assert(y != x) by {
                            if j < i {
                                assert(pre[j] != x);
                            } else {
                                assert(pre[j + 1] != x) by {
                                    assert(pre.no_duplicates());
                                    assert(pre[i as int] == x);
                                }
                            }
                        }
                    }
                    if pre.contains(y) && y != x {
                        let j = choose|j: int| 0 <= j < pre.len() && pre[j] == y;
                        if j < i {
                            assert(final(v)@[j] == y);
                        } else {
                            assert(j != i);
                            assert(final(v)@[j - 1] == y);
                        }
                    }
                }
            }
            return;
        }
        i += 1;
    }
}

/// Copy a handle vector.
pub fn handles_clone(v: &Vec<usize>) -> (r: Vec<usize>)
    ensures
        r@ == v@,
{
    let mut r: Vec<usize> = Vec::new();
    let mut i: usize = 0;
    while i < v.len()
        invariant
            i <= v@.len(),
            r@ == v@.take(i as int),
        decreases v@.len() - i,
    {
        r.push(v[i]);
        proof {
            assert(r@ =~= v@.take(i + 1));
        }
        i += 1;
    }
    proof {
        assert(r@ =~= v@);
    }
    r
}

/// Duplicate-freedom test.
pub fn handles_distinct(v: &Vec<usize>) -> (r: bool)
    ensures
        r == v@.no_duplicates(),
{
    let mut i: usize = 0;
    while i < v.len()
        invariant
            i <= v@.len(),
            forall|p: int, q: int| 0 <= p < q < i ==> v@[p] != v@[q],
        decreases v@.len() - i,
    {
        let mut j: usize = 0;
        while j < i
            invariant
                j <= i,
                i < v@.len(),
                forall|q: int| 0 <= q < j ==> v@[q] != v@[i as int],
            decreases i - j,
        {
            if v[j] == v[i] {
                return false;
            }
            j += 1;
        }
        i += 1;
    }
    true
}

} // verus!
