//! Sorting of (flat index, value) pairs.
//!
//! Cross-format conversion orders coordinate/value pairs by their flat
//! index before deriving a compressed layout. Keys are distinct (one entry
//! per position), so the sort's contract is stated by pair containment:
//! the sorted vectors hold exactly the pairs of the input, with the keys
//! strictly ascending.

use vstd::prelude::*;

verus! {

/// Strictly ascending sequence of flat indices.
pub open spec fn sorted_strict(s: Seq<usize>) -> bool {
    forall|k1: int, k2: int| 0 <= k1 < k2 < s.len() ==> s[k1] < s[k2]
}

/// Pairwise distinct sequence of flat indices.
pub open spec fn distinct_seq(s: Seq<usize>) -> bool {
    forall|k1: int, k2: int| 0 <= k1 < k2 < s.len() ==> s[k1] != s[k2]
}

/// Position `t` of the parallel sequences holds the pair `(f, v)`.
pub open spec fn pair_at(keys: Seq<usize>, vals: Seq<u32>, t: int, f: usize, v: u32) -> bool {
    &&& keys[t] == f
    &&& vals[t] == v
}

/// The parallel sequences hold the pair `(f, v)` somewhere.
pub open spec fn has_pair(keys: Seq<usize>, vals: Seq<u32>, f: usize, v: u32) -> bool {
    exists|t: int| 0 <= t < keys.len() && #[trigger] pair_at(keys, vals, t, f, v)
}

/// Sort the pairs `(keys[t], vals[t])` by key, ascending. Keys must be
/// distinct; the result holds exactly the pairs of the input.
pub fn sort_pairs(keys: &mut Vec<usize>, vals: &mut Vec<u32>)
    requires
        old(keys)@.len() == old(vals)@.len(),
        distinct_seq(old(keys)@),
    ensures
        final(keys)@.len() == old(keys)@.len(),
        final(vals)@.len() == old(vals)@.len(),
        sorted_strict(final(keys)@),
        forall|f: usize, v: u32|
            has_pair(final(keys)@, final(vals)@, f, v) <==> has_pair(
                old(keys)@,
                old(vals)@,
                f,
                v,
            ),
{
    let ghost in_keys = keys@;
    let ghost in_vals = vals@;
    let n = keys.len();
    let mut out_keys: Vec<usize> = Vec::new();
    let mut out_vals: Vec<u32> = Vec::new();
    // `src[w]` is the input position whose pair sits at output position
    // `w`; `dst[u]` is the output position holding input pair `u`.
    let ghost mut src: Seq<int> = Seq::empty();
    let ghost mut dst: Seq<int> = Seq::empty();
    let mut t: usize = 0;
    while t < n
        invariant
            in_keys == keys@,
            in_vals == vals@,
            n == in_keys.len(),
            in_vals.len() == n,
            distinct_seq(in_keys),
            t <= n,
            out_keys@.len() == t,
            out_vals@.len() == t,
            src.len() == t,
            dst.len() == t,
            sorted_strict(out_keys@),
            forall|w: int|
                0 <= w < t ==> 0 <= #[trigger] src[w] < t && out_keys@[w] == in_keys[src[w]]
                    && out_vals@[w] == in_vals[src[w]],
            forall|u: int|
                0 <= u < t ==> 0 <= #[trigger] dst[u] < t && out_keys@[dst[u]] == in_keys[u]
                    && out_vals@[dst[u]] == in_vals[u],
        decreases n - t,
    {
        let key = keys[t];
        let val = vals[t];
        let mut p: usize = 0;
        while p < out_keys.len() && out_keys[p] < key
            invariant
                p <= out_keys@.len(),
                forall|q: int| 0 <= q < p ==> #[trigger] out_keys@[q] < key,
            decreases out_keys@.len() - p,
        {
            p = p + 1;
        }
        proof {
            if p < out_keys@.len() && out_keys@[p as int] == key {
                let u = src[p as int];
                assert(in_keys[u] == key && in_keys[t as int] == key);
                assert(false);
            }
        }
        let ghost old_out_keys = out_keys@;
        let ghost old_out_vals = out_vals@;
        let ghost old_src = src;
        let ghost old_dst = dst;
        out_keys.insert(p, key);
        out_vals.insert(p, val);
        proof {
            old_out_keys.insert_ensures(p as int, key);
            old_out_vals.insert_ensures(p as int, val);
            src = old_src.insert(p as int, t as int);
            old_src.insert_ensures(p as int, t as int);
            dst = Seq::new(
                (t + 1) as nat,
                |u: int|
                    if u == t {
                        p as int
                    } else if old_dst[u] >= p {
                        old_dst[u] + 1
                    } else {
                        old_dst[u]
                    },
            );
            assert forall|k1: int, k2: int|
                0 <= k1 < k2 < out_keys@.len() implies out_keys@[k1] < out_keys@[k2] by {
                if p < old_out_keys.len() {
                    assert(out_keys@[p + 1] == old_out_keys[p as int]);
                    assert(old_out_keys[p as int] > key);
                }
                if k1 < p {
                    assert(out_keys@[k1] == old_out_keys[k1]);
                } else if k1 > p {
                    assert(out_keys@[k1] == old_out_keys[k1 - 1]);
                }
                if k2 < p {
                    assert(out_keys@[k2] == old_out_keys[k2]);
                } else if k2 > p {
                    assert(out_keys@[k2] == old_out_keys[k2 - 1]);
                }
            }
            assert forall|w: int|
                0 <= w < t + 1 implies 0 <= #[trigger] src[w] < t + 1 && out_keys@[w]
                == in_keys[src[w]] && out_vals@[w] == in_vals[src[w]] by {
                if w < p {
                    assert(src[w] == old_src[w]);
                    assert(out_keys@[w] == old_out_keys[w] && out_vals@[w] == old_out_vals[w]);
                } else if w == p {
                    assert(src[w] == t as int);
                    assert(out_keys@[w] == key && out_vals@[w] == val);
                } else {
                    assert(src[w] == old_src[w - 1]);
                    assert(out_keys@[w] == old_out_keys[w - 1] && out_vals@[w] == old_out_vals[w
                        - 1]);
                }
            }
            assert forall|u: int|
                0 <= u < t + 1 implies 0 <= #[trigger] dst[u] < t + 1 && out_keys@[dst[u]]
                == in_keys[u] && out_vals@[dst[u]] == in_vals[u] by {
                if u == t {
                    assert(dst[u] == p as int);
                    assert(out_keys@[p as int] == key && out_vals@[p as int] == val);
                } else if old_dst[u] >= p {
                    assert(dst[u] == old_dst[u] + 1);
                    assert(out_keys@[old_dst[u] + 1] == old_out_keys[old_dst[u]]);
                    assert(out_vals@[old_dst[u] + 1] == old_out_vals[old_dst[u]]);
                } else {
                    assert(dst[u] == old_dst[u]);
                    assert(out_keys@[old_dst[u]] == old_out_keys[old_dst[u]]);
                    assert(out_vals@[old_dst[u]] == old_out_vals[old_dst[u]]);
                }
            }
        }
        t = t + 1;
    }
    proof {
        assert forall|f: usize, v: u32|
            has_pair(out_keys@, out_vals@, f, v) == has_pair(in_keys, in_vals, f, v) by {
            if has_pair(out_keys@, out_vals@, f, v) {
                let w = choose|w: int|
                    0 <= w < out_keys@.len() && #[trigger] pair_at(out_keys@, out_vals@, w, f, v);
                assert(pair_at(in_keys, in_vals, src[w], f, v));
                assert(has_pair(in_keys, in_vals, f, v));
            }
            if has_pair(in_keys, in_vals, f, v) {
                let u = choose|u: int|
                    0 <= u < in_keys.len() && #[trigger] pair_at(in_keys, in_vals, u, f, v);
                assert(pair_at(out_keys@, out_vals@, dst[u], f, v));
                assert(has_pair(out_keys@, out_vals@, f, v));
            }
        }
    }
    *keys = out_keys;
    *vals = out_vals;
}

} // verus!
