//! Selection of the `k` largest entries of each row of a matrix of
//! half-precision numbers, as used to route tokens to experts.
//!
//! Numbers are handled as their 16-bit patterns and compared in the IEEE
//! total order, which ranks every pattern, the not-a-number ones included.

use vstd::prelude::*;
use vstd::slice::slice_subrange;

verus! {

/// The rank of a half-precision bit pattern in the total order: patterns
/// with the sign bit clear rank by their value, those with it set rank
/// below them, in reverse.
pub open spec fn total_order_key(bits: u16) -> int {
    if bits < 0x8000 {
        bits as int
    } else {
        0x7fff - bits as int
    }
}

/// The rank of `bits` in the total order.
pub fn order_key(bits: u16) -> (r: i32)
    ensures
        r == total_order_key(bits),
{
    if bits < 0x8000 {
        bits as i32
    } else {
        0x7fff - bits as i32
    }
}

/// `weights` and `indices` name `k` entries of `line` that are at least as
/// large as every other entry, largest first: entry `j` is the value at
/// column `indices[j]`, no column occurs twice, and no column left out
/// holds more than a chosen one.
pub open spec fn is_topk(line: Seq<u16>, k: nat, weights: Seq<u16>, indices: Seq<u32>) -> bool {
    &&& weights.len() == k
    &&& indices.len() == k
    &&& forall|j: int|
        0 <= j < k ==> (#[trigger] indices[j]) < line.len() && weights[j] == line[indices[j] as int]
    &&& forall|a: int, b: int| 0 <= a < b < k ==> #[trigger] indices[a] != #[trigger] indices[b]
    &&& forall|a: int, b: int|
        0 <= a < b < k ==> total_order_key(#[trigger] weights[a]) >= total_order_key(
            #[trigger] weights[b],
        )
    &&& forall|c: int, j: int|
        0 <= c < line.len() && 0 <= j < k && (forall|i: int| 0 <= i < k ==> indices[i] != c)
            ==> total_order_key(#[trigger] line[c]) <= total_order_key(#[trigger] weights[j])
}

/// The `k` largest entries of `line` and their columns, largest first.
pub fn topk_row(line: &[u16], k: usize) -> (r: (Vec<u16>, Vec<u32>))
    requires
        k <= line@.len() <= u32::MAX,
    ensures
        is_topk(line@, k as nat, r.0@, r.1@),
{
    let dim = line.len();
    // `order` is a rearrangement of the columns; `place` says where each
    // column currently stands in it.
    let mut order: Vec<u32> = Vec::new();
    let ghost mut place: Seq<int> = Seq::empty();
    let mut c: usize = 0;
    while c < dim
        invariant
            0 <= c <= dim,
            dim == line@.len(),
            dim <= u32::MAX,
            order@.len() == c,
            place.len() == c,
            forall|p: int| 0 <= p < c ==> #[trigger] order@[p] == p,
            forall|x: int| 0 <= x < c ==> #[trigger] place[x] == x,
        decreases dim - c,
    {
        order.push(c as u32);
        proof {
            place = place.push(c as int);
        }
        c += 1;
    }
    let mut weights: Vec<u16> = Vec::new();
    let mut indices: Vec<u32> = Vec::new();
    let mut j: usize = 0;
    while j < k
        invariant
            0 <= j <= k <= dim,
            dim == line@.len(),
            order@.len() == dim,
            place.len() == dim,
            forall|p: int| 0 <= p < dim ==> (#[trigger] order@[p]) < dim,
            forall|p: int| 0 <= p < dim ==> place[(#[trigger] order@[p]) as int] == p,
            forall|x: int| 0 <= x < dim ==> 0 <= #[trigger] place[x] < dim && order@[place[x]] == x,
            forall|a: int, b: int|
                0 <= a < j && a <= b < dim ==> total_order_key(line@[(#[trigger] order@[a]) as int])
                    >= total_order_key(line@[(#[trigger] order@[b]) as int]),
            weights@.len() == j,
            indices@.len() == j,
            forall|a: int| 0 <= a < j ==> #[trigger] indices@[a] == order@[a],
            forall|a: int| 0 <= a < j ==> #[trigger] weights@[a] == line@[order@[a] as int],
        decreases k - j,
    {
        let mut best: usize = j;
        let mut p: usize = j + 1;
        while p < dim
            invariant
                j <= best < p <= dim,
                dim == line@.len(),
                order@.len() == dim,
                forall|q: int| 0 <= q < dim ==> (#[trigger] order@[q]) < dim,
                forall|q: int|
                    j <= q < p ==> total_order_key(line@[order@[best as int] as int])
                        >= total_order_key(line@[(#[trigger] order@[q]) as int]),
            decreases dim - p,
        {
            if order_key(line[order[p] as usize]) > order_key(line[order[best] as usize]) {
                best = p;
            }
            p += 1;
        }
        let first = order[j];
        let chosen = order[best];
        let ghost before = order@;
        order.set(j, chosen);
        order.set(best, first);
        proof {
            place = place.update(chosen as int, j as int).update(first as int, best as int);
            assert forall|q: int| 0 <= q < dim implies place[(#[trigger] order@[q]) as int] == q by {
                if q != j && q != best {
                    assert(order@[q] == before[q]);
                    assert(before[q] != chosen);
                    assert(before[q] != first);
                }
            }
            assert forall|a: int, b: int| 0 <= a < j + 1 && a <= b < dim implies total_order_key(
                line@[(#[trigger] order@[a]) as int],
            ) >= total_order_key(line@[(#[trigger] order@[b]) as int]) by {
                if a < j {
                    assert(order@[a] == before[a]);
                    if b == j {
                        assert(order@[b] == before[best as int]);
                    } else if b == best {
                        assert(order@[b] == before[j as int]);
                    } else {
                        assert(order@[b] == before[b]);
                    }
                } else {
                    if b == j {
                    } else if b == best {
                        assert(order@[b] == before[j as int]);
                    } else {
                        assert(order@[b] == before[b]);
                    }
                }
            }
        }
        weights.push(line[chosen as usize]);
        indices.push(chosen);
        j += 1;
    }
    proof {
        assert forall|a: int, b: int| 0 <= a < b < k implies #[trigger] indices@[a]
            != #[trigger] indices@[b] by {
            assert(place[order@[a] as int] == a);
            assert(place[order@[b] as int] == b);
        }
        assert forall|c: int, j: int|
            0 <= c < line@.len() && 0 <= j < k && (forall|i: int|
                0 <= i < k ==> indices@[i] != c) implies total_order_key(#[trigger] line@[c])
            <= total_order_key(#[trigger] weights@[j]) by {
            let p = place[c];
            assert(order@[p] == c);
            if p < k {
                assert(indices@[p] == c);
            }
        }
    }
    (weights, indices)
}

/// Row `t` of a row-major matrix with rows of `width` entries.
pub open spec fn row<T>(m: Seq<T>, width: nat, t: int) -> Seq<T> {
    m.subrange(t * width, t * width + width)
}

/// For each of the `n` rows of `dim` entries of `logits`, the `k` largest
/// entries and their columns, largest first, as two row-major matrices
/// with rows of `k` entries.
pub fn topk(logits: &[u16], n: usize, dim: usize, k: usize) -> (r: (Vec<u16>, Vec<u32>))
    requires
        logits@.len() == n * dim,
        k <= dim <= u32::MAX,
    ensures
        r.0@.len() == n * k,
        r.1@.len() == n * k,
        forall|t: int|
            0 <= t < n ==> is_topk(
                #[trigger] row(logits@, dim as nat, t),
                k as nat,
                row(r.0@, k as nat, t),
                row(r.1@, k as nat, t),
            ),
{
    let mut weights: Vec<u16> = Vec::new();
    let mut indices: Vec<u32> = Vec::new();
    let mut t: usize = 0;
    assert(logits@.len() == logits.len());
    while t < n
        invariant
            0 <= t <= n,
            logits@.len() == n * dim,
            n * dim <= usize::MAX,
            k <= dim <= u32::MAX,
            weights@.len() == t * k,
            indices@.len() == t * k,
            forall|s: int|
                0 <= s < t ==> is_topk(
                    #[trigger] row(logits@, dim as nat, s),
                    k as nat,
                    row(weights@, k as nat, s),
                    row(indices@, k as nat, s),
                ),
        decreases n - t,
    {
        proof {
            assert(t * dim + dim <= n * dim) by (nonlinear_arith)
                requires
                    0 <= t < n,
            ;
            assert(t * dim >= 0) by (nonlinear_arith)
                requires
                    0 <= t,
                    0 <= dim,
            ;
        }
        let line = slice_subrange(logits, t * dim, t * dim + dim);
        let (mut w, mut i) = topk_row(line, k);
        let ghost w0 = weights@;
        let ghost i0 = indices@;
        let ghost wr = w@;
        let ghost ir = i@;
        weights.append(&mut w);
        indices.append(&mut i);
        proof {
            assert((t + 1) * k == t * k + k) by (nonlinear_arith);
            assert(row(logits@, dim as nat, t as int) =~= line@);
            assert(row(weights@, k as nat, t as int) =~= wr);
            assert(row(indices@, k as nat, t as int) =~= ir);
            assert forall|s: int| 0 <= s < t implies is_topk(
                #[trigger] row(logits@, dim as nat, s),
                k as nat,
                row(weights@, k as nat, s),
                row(indices@, k as nat, s),
            ) by {
                assert(s * k + k <= t * k) by (nonlinear_arith)
                    requires
                        0 <= s < t,
                        0 <= k,
                ;
                assert(s * k >= 0) by (nonlinear_arith)
                    requires
                        0 <= s,
                        0 <= k,
                ;
                assert(row(weights@, k as nat, s) =~= row(w0, k as nat, s));
                assert(row(indices@, k as nat, s) =~= row(i0, k as nat, s));
            }
        }
        t += 1;
    }
    (weights, indices)
}

} // verus!
