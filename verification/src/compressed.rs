//! Shared core of the two compressed formats.
//!
//! CSR and CSC differ only in which axis is compressed: both turn a
//! strictly ascending sequence of flat indices into a boundary-pointer
//! array (one bucket per row, or per column) and a sequence of
//! within-bucket offsets. `flat / width` is the bucket and `flat % width`
//! the offset, so for CSR the flats are row-major with `width == ncols`,
//! and for CSC column-major with `width == nrows`.

use vstd::prelude::*;

use crate::sorting::sorted_strict;

verus! {

/// A flat index decomposes into its bucket and offset.
pub proof fn lemma_flat_split(f: int, w: int)
    requires
        0 <= f,
        0 < w,
    ensures
        f == w * (f / w) + f % w,
        0 <= f % w < w,
        w * (f / w) <= f,
        f < w * (f / w) + w,
        0 <= f / w,
{
    vstd::arithmetic::div_mod::lemma_fundamental_div_mod(f, w);
    vstd::arithmetic::div_mod::lemma_mod_bound(f, w);
    assert(0 <= f / w) by (nonlinear_arith)
        requires
            0 <= f,
            0 < w,
    ;
}

/// Build the boundary pointers and offsets of a compressed layout from a
/// strictly ascending sequence of flat indices below `nbuckets * width`.
///
/// The result `(ptr, ind)` satisfies, writing `n` for the number of
/// flats: `ptr` has length `nbuckets + 1`, runs from 0 to `n`
/// monotonically, and `ptr[b]` counts the flats below `b * width`; `ind`
/// records each flat's offset within its bucket, in order; bucket `b`
/// owns exactly the positions `ptr[b] .. ptr[b+1]`, whose offsets are
/// strictly ascending, and the offsets found there are exactly the `x`
/// with `b * width + x` among the flats.
pub fn compress_sorted_flats(nbuckets: usize, width: usize, flats: &Vec<usize>) -> (r: (
    Vec<usize>,
    Vec<usize>,
))
    requires
        sorted_strict(flats@),
        nbuckets + 1 <= usize::MAX,
        nbuckets * width <= usize::MAX,
        forall|k: int|
            0 <= k < flats@.len() ==> (#[trigger] flats@[k] as int) < (nbuckets as int) * (
            width as int),
    ensures
        r.0@.len() == nbuckets + 1,
        r.0@[0] == 0,
        r.0@[nbuckets as int] == flats@.len(),
        forall|b: int| 0 <= b <= nbuckets ==> #[trigger] r.0@[b] <= flats@.len(),
        forall|b1: int, b2: int|
            #![trigger r.0@[b1], r.0@[b2]]
            0 <= b1 <= b2 <= nbuckets ==> r.0@[b1] <= r.0@[b2],
        forall|b: int, t: int|
            #![trigger r.0@[b], flats@[t]]
            0 <= b <= nbuckets && 0 <= t < flats@.len() ==> ((t < r.0@[b]) <==> ((
            flats@[t] as int) < b * (width as int))),
        r.1@.len() == flats@.len(),
        forall|t: int|
            0 <= t < flats@.len() ==> (#[trigger] r.1@[t] as int) == (flats@[t] as int) % (
            width as int),
        forall|b: int, t: int|
            #![trigger r.0@[b], r.1@[t]]
            0 <= b < nbuckets && r.0@[b] <= t < r.0@[b + 1] ==> (flats@[t] as int) == b * (
            width as int) + r.1@[t] && r.1@[t] < width,
        forall|t: int|
            0 <= t < flats@.len() ==> r.0@[(#[trigger] flats@[t] as int) / (width as int)] <= t
                < r.0@[(flats@[t] as int) / (width as int) + 1],
{
    let n = flats.len();
    let mut ptr: Vec<usize> = Vec::new();
    let mut ind: Vec<usize> = Vec::new();
    ptr.push(0);
    let mut cur: usize = 0;
    let mut k: usize = 0;
    while k < n
        invariant
            sorted_strict(flats@),
            nbuckets + 1 <= usize::MAX,
            nbuckets * width <= usize::MAX,
            forall|t: int|
                0 <= t < flats@.len() ==> (#[trigger] flats@[t] as int) < (nbuckets as int) * (
                width as int),
            n == flats@.len(),
            k <= n,
            cur <= nbuckets,
            ptr@.len() == cur + 1,
            ptr@[0] == 0,
            ind@.len() == k,
            forall|t: int|
                0 <= t < k ==> (#[trigger] ind@[t] as int) == (flats@[t] as int) % (width as int),
            forall|t: int|
                0 <= t < k ==> (flats@[t] as int) / (width as int) <= cur,
            k == 0 ==> cur == 0,
            k > 0 ==> cur == (flats@[k - 1] as int) / (width as int),
            forall|b: int| 0 <= b <= cur ==> #[trigger] ptr@[b] <= k,
            forall|b: int, t: int|
                #![trigger ptr@[b], flats@[t]]
                0 <= b <= cur && 0 <= t < n ==> ((t < ptr@[b]) <==> ((flats@[t] as int) < b * (
                width as int))),
        decreases n - k,
    {
        let f = flats[k];
        proof {
            assert(width > 0) by {
                if width == 0 {
                    assert((nbuckets as int) * (width as int) == 0) by (nonlinear_arith)
                        requires
                            width == 0,
                    ;
                    assert((flats@[k as int] as int) < 0);
                }
            }
            lemma_flat_split(f as int, width as int);
            assert((f as int) / (width as int) < nbuckets) by (nonlinear_arith)
                requires
                    0 < width,
                    0 <= f as int,
                    (f as int) < (nbuckets as int) * (width as int),
                    (width as int) * ((f as int) / (width as int)) <= f as int,
            ;
        }
        let b = f / width;
        proof {
            if k > 0 {
                assert(flats@[k - 1] < flats@[k as int]);
                vstd::arithmetic::div_mod::lemma_div_is_ordered(
                    flats@[k - 1] as int,
                    f as int,
                    width as int,
                );
            }
        }
        while b > cur
            invariant
                sorted_strict(flats@),
                nbuckets + 1 <= usize::MAX,
                nbuckets * width <= usize::MAX,
                forall|t: int|
                    0 <= t < flats@.len() ==> (#[trigger] flats@[t] as int) < (nbuckets as int) * (
                    width as int),
                n == flats@.len(),
                k < n,
                0 < width,
                f == flats@[k as int],
                b == (f as int) / (width as int),
                b < nbuckets,
                cur <= b,
                ptr@.len() == cur + 1,
                ptr@[0] == 0,
                ind@.len() == k,
                forall|t: int|
                    0 <= t < k ==> (#[trigger] ind@[t] as int) == (flats@[t] as int) % (
                    width as int),
                forall|t: int|
                    0 <= t < k ==> (flats@[t] as int) / (width as int) <= cur,
                forall|b2: int| 0 <= b2 <= cur ==> #[trigger] ptr@[b2] <= k,
                forall|b2: int, t: int|
                    #![trigger ptr@[b2], flats@[t]]
                    0 <= b2 <= cur && 0 <= t < n ==> ((t < ptr@[b2]) <==> ((flats@[t] as int) < b2
                        * (width as int))),
            decreases b - cur,
        {
            ptr.push(ind.len());
            proof {
                assert forall|t: int| 0 <= t < n implies ((t < k) <==> ((flats@[t] as int) < (cur
                    + 1) * (width as int))) by {
                    lemma_flat_split(flats@[t] as int, width as int);
                    if t < k {
                        assert((flats@[t] as int) / (width as int) <= cur);
                        assert((width as int) * ((flats@[t] as int) / (width as int)) <= (
                        width as int) * cur) by (nonlinear_arith)
                            requires
                                (flats@[t] as int) / (width as int) <= cur,
                                0 < width,
                        ;
                        assert((flats@[t] as int) < (cur + 1) * (width as int))
                            by (nonlinear_arith)
                            requires
                                (flats@[t] as int) < (width as int) * ((flats@[t] as int) / (
                                width as int)) + (width as int),
                                (width as int) * ((flats@[t] as int) / (width as int)) <= (
                                width as int) * cur,
                        ;
                    } else {
                        lemma_flat_split(f as int, width as int);
                        assert(flats@[k as int] <= flats@[t]);
                        assert((width as int) * (cur + 1) <= (width as int) * b)
                            by (nonlinear_arith)
                            requires
                                cur + 1 <= b,
                                0 < width,
                        ;
                        assert((cur + 1) * (width as int) <= (f as int)) by (nonlinear_arith)
                            requires
                                (width as int) * (cur + 1) <= (width as int) * b,
                                (width as int) * b <= f as int,
                        ;
                    }
                }
            }
            cur = cur + 1;
        }
        ind.push(f % width);
        k = k + 1;
        proof {
            assert(b == cur);
            assert((ind@[k - 1] as int) == (flats@[k - 1] as int) % (width as int));
        }
    }
    proof {
        if n > 0 && width == 0 {
            assert((nbuckets as int) * (width as int) == 0) by (nonlinear_arith)
                requires
                    width == 0,
            ;
            assert((flats@[0] as int) < 0);
        }
    }
    while cur < nbuckets
        invariant
            sorted_strict(flats@),
            nbuckets + 1 <= usize::MAX,
            n == flats@.len(),
            0 <= cur <= nbuckets,
            ptr@.len() == cur + 1,
            ptr@[0] == 0,
            ind@.len() == n,
            forall|t: int|
                0 <= t < n ==> (#[trigger] ind@[t] as int) == (flats@[t] as int) % (width as int),
            forall|t: int|
                0 <= t < n ==> (flats@[t] as int) / (width as int) <= cur,
            n > 0 ==> 0 < width,
            forall|b: int| 0 <= b <= cur ==> #[trigger] ptr@[b] <= n,
            forall|b: int, t: int|
                #![trigger ptr@[b], flats@[t]]
                0 <= b <= cur && 0 <= t < n ==> ((t < ptr@[b]) <==> ((flats@[t] as int) < b * (
                width as int))),
        decreases nbuckets - cur,
    {
        ptr.push(ind.len());
        proof {
            assert forall|t: int| 0 <= t < n implies ((t < n) <==> ((flats@[t] as int) < (cur + 1)
                * (width as int))) by {
                lemma_flat_split(flats@[t] as int, width as int);
                assert((flats@[t] as int) / (width as int) <= cur);
                assert((width as int) * ((flats@[t] as int) / (width as int)) <= (width as int)
                    * cur) by (nonlinear_arith)
                    requires
                        (flats@[t] as int) / (width as int) <= cur,
                        0 < width,
                ;
                assert((flats@[t] as int) < (cur + 1) * (width as int)) by (nonlinear_arith)
                    requires
                        (flats@[t] as int) < (width as int) * ((flats@[t] as int) / (
                        width as int)) + (width as int),
                        (width as int) * ((flats@[t] as int) / (width as int)) <= (width as int)
                            * cur,
                ;
            }
        }
        cur = cur + 1;
    }
    let r = (ptr, ind);
    proof {
        assert forall|b1: int, b2: int|
            #![trigger r.0@[b1], r.0@[b2]]
            0 <= b1 <= b2 <= nbuckets implies r.0@[b1] <= r.0@[b2] by {
            if r.0@[b2] < r.0@[b1] {
                let t = r.0@[b2] as int;
                assert(t < r.0@[b1] <= n);
                assert((flats@[t] as int) < b1 * (width as int));
                assert(b1 * (width as int) <= b2 * (width as int)) by (nonlinear_arith)
                    requires
                        b1 <= b2,
                        width >= 0,
                ;
                assert(t < r.0@[b2]);
                assert(false);
            }
        }
        assert(r.0@[nbuckets as int] == n) by {
            if r.0@[nbuckets as int] < n {
                let t = r.0@[nbuckets as int] as int;
                assert(0 <= t < n);
                assert((flats@[t] as int) < (nbuckets as int) * (width as int));
                assert(t < r.0@[nbuckets as int]);
                assert(false);
            }
        }
        assert forall|t: int| #![trigger flats@[t]]
            0 <= t < flats@.len() implies r.0@[(flats@[t] as int) / (width as int)] <= t < r.0@[(
        flats@[t] as int) / (width as int) + 1] by {
            lemma_flat_split(flats@[t] as int, width as int);
            let b = (flats@[t] as int) / (width as int);
            assert(b < nbuckets) by (nonlinear_arith)
                requires
                    0 < width,
                    0 <= flats@[t] as int,
                    (flats@[t] as int) < (nbuckets as int) * (width as int),
                    (width as int) * b <= flats@[t] as int,
                    b == (flats@[t] as int) / (width as int),
            ;
            assert(!((flats@[t] as int) < b * (width as int))) by (nonlinear_arith)
                requires
                    (width as int) * b <= flats@[t] as int,
            ;
            assert((flats@[t] as int) < (b + 1) * (width as int)) by (nonlinear_arith)
                requires
                    (flats@[t] as int) < (width as int) * b + (width as int),
            ;
            assert(!(t < r.0@[b]));
            assert(t < r.0@[b + 1]);
        }
        assert forall|b: int, t: int|
            #![trigger r.0@[b], r.1@[t]]
            0 <= b < nbuckets && r.0@[b] <= t < r.0@[b + 1] implies (flats@[t] as int) == b * (
        width as int) + r.1@[t] && r.1@[t] < width by {
            assert(t < r.0@[b + 1] <= n);
            assert((flats@[t] as int) < (b + 1) * (width as int));
            assert(!((flats@[t] as int) < b * (width as int)));
            lemma_flat_split(flats@[t] as int, width as int);
            assert((flats@[t] as int) / (width as int) == b) by (nonlinear_arith)
                requires
                    0 < width,
                    0 <= flats@[t] as int,
                    b * (width as int) <= (flats@[t] as int) < (b + 1) * (width as int),
                    flats@[t] as int == (width as int) * ((flats@[t] as int) / (width as int)) + (
                    flats@[t] as int) % (width as int),
                    0 <= (flats@[t] as int) % (width as int) < width,
            ;
            assert((flats@[t] as int) == b * (width as int) + (flats@[t] as int) % (width as int))
                by (nonlinear_arith)
                requires
                    flats@[t] as int == (width as int) * ((flats@[t] as int) / (width as int)) + (
                    flats@[t] as int) % (width as int),
                    (flats@[t] as int) / (width as int) == b,
            ;
        }
    }
    r
}

} // verus!
