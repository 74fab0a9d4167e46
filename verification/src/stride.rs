//! Strides: a haystack is also searched as every `stride`-th byte, from
//! every offset below the stride.

use vstd::prelude::*;

verus! {

/// Every `stride`-th byte of `haystack`, starting at `pos`.
pub open spec fn substride_from(haystack: Seq<u8>, pos: int, stride: int) -> Seq<u8>
    decreases (if pos < haystack.len() { haystack.len() - pos } else { 0 }),
    when stride > 0
{
    if pos < 0 || pos >= haystack.len() {
        seq![]
    } else {
        seq![haystack[pos]] + substride_from(haystack, pos + stride, stride)
    }
}

/// The pile of every `stride`-th byte of the haystack from `offset` on.
pub fn substride(haystack: &[u8], offset: usize, stride: usize) -> (res: Vec<u8>)
    requires
        stride > 0,
    ensures
        res@ == substride_from(haystack@, offset as int, stride as int),
{
    let mut out: Vec<u8> = Vec::new();
    let mut pos: usize = offset;
    let ghost whole = substride_from(haystack@, offset as int, stride as int);
    while pos < haystack.len()
        invariant
            stride > 0,
            out@ + substride_from(haystack@, pos as int, stride as int) == whole,
        decreases haystack@.len() - pos,
    {
        let ghost before = out@;
        out.push(haystack[pos]);
        proof {
            assert(out@ + substride_from(haystack@, pos + stride, stride as int) =~= before
                + substride_from(haystack@, pos as int, stride as int));
        }
        if haystack.len() - pos <= stride {
            proof {
                assert(substride_from(haystack@, pos + stride, stride as int) == Seq::<u8>::empty());
                assert(substride_from(haystack@, haystack@.len() as int, stride as int) == Seq::<u8>::empty());
            }
            pos = haystack.len();
        } else {
            pos = pos + stride;
        }
    }
    proof {
        assert(out@ =~= whole);
    }
    out
}

/// Element `k` of a pile is byte `offset + k * stride` of the haystack.
pub proof fn lemma_substride_index(haystack: Seq<u8>, offset: int, stride: int, k: int)
    requires
        stride > 0,
        0 <= offset,
        0 <= k < substride_from(haystack, offset, stride).len(),
    ensures
        offset + k * stride < haystack.len(),
        substride_from(haystack, offset, stride)[k] == haystack[offset + k * stride],
    decreases k,
{
    let s = substride_from(haystack, offset, stride);
    assert(offset < haystack.len());
    assert(s == seq![haystack[offset]] + substride_from(haystack, offset + stride, stride));
    if k > 0 {
        lemma_substride_index(haystack, offset + stride, stride, k - 1);
        assert(offset + stride + (k - 1) * stride == offset + k * stride) by (nonlinear_arith);
        assert(s[k] == substride_from(haystack, offset + stride, stride)[k - 1]);
    } else {
        assert(k * stride == 0) by (nonlinear_arith)
            requires
                k == 0,
        ;
    }
}

/// A pile holds one byte for every position `offset + k * stride` below the
/// haystack's length, however long the haystack is: with
/// `lemma_substride_index`, the pile is exactly those bytes, in order.
pub proof fn lemma_substride_len(haystack: Seq<u8>, offset: int, stride: int)
    requires
        stride > 0,
        0 <= offset,
    ensures
        substride_from(haystack, offset, stride).len() == (if offset < haystack.len() {
            (haystack.len() - offset + stride - 1) / stride
        } else {
            0
        }),
    decreases (if offset < haystack.len() { haystack.len() - offset } else { 0 }),
{
    if offset < haystack.len() {
        let l = haystack.len() - offset;
        lemma_substride_len(haystack, offset + stride, stride);
        if offset + stride < haystack.len() {
            vstd::arithmetic::div_mod::lemma_div_plus_one(l - 1, stride);
            assert(stride + (l - 1) == l + stride - 1);
            assert(haystack.len() - (offset + stride) + stride - 1 == l - 1);
        } else {
            assert((l + stride - 1) / stride == 1) by (nonlinear_arith)
                requires
                    stride > 0,
                    1 <= l <= stride,
            ;
        }
    }
}

/// The `n`-th triangular number.
pub open spec fn spec_triangle(n: nat) -> nat
    decreases n,
{
    if n == 0 {
        0
    } else {
        n + spec_triangle((n - 1) as nat)
    }
}

/// The `n`-th triangular number, `n * (n + 1) / 2`.
pub fn triangle(n: usize) -> (res: usize)
    requires
        n * (n + 1) <= usize::MAX,
    ensures
        res == spec_triangle(n as nat),
{
    proof {
        lemma_triangle(n as nat);
    }
    assert(n * (n + 1) / 2 <= usize::MAX) by (nonlinear_arith)
        requires
            n * (n + 1) <= usize::MAX,
    ;
    (n * (n + 1)) / 2
}

proof fn lemma_triangle(n: nat)
    ensures
        spec_triangle(n) == n * (n + 1) / 2,
    decreases n,
{
    if n > 0 {
        lemma_triangle((n - 1) as nat);
        let m = (n - 1) as nat;
        assert(spec_triangle(m) == m * (m + 1) / 2);
        assert(n * (n + 1) == m * (m + 1) + 2 * n) by (nonlinear_arith)
            requires
                m + 1 == n,
        ;
        let a = m * (m + 1);
        assert((a + 2 * n) / 2 == a / 2 + n);
        assert(spec_triangle(n) == n + spec_triangle(m));
        assert(spec_triangle(n) == (a + 2 * n) / 2);
        assert(n * (n + 1) / 2 == (a + 2 * n) / 2) by (nonlinear_arith)
            requires
                n * (n + 1) == a + 2 * n,
        ;
    } else {
        assert(n * (n + 1) == 0) by (nonlinear_arith)
            requires
                n == 0,
        ;
    }
}

/// The (offset, stride) of every pile for strides from 1 to `max_stride`:
/// stride by stride, offset by offset.
pub open spec fn spec_pile_plan(max_stride: nat) -> Seq<(usize, usize)>
    decreases max_stride,
{
    if max_stride == 0 {
        seq![]
    } else {
        spec_pile_plan((max_stride - 1) as nat) + Seq::new(
            max_stride,
            |o: int| (o as usize, max_stride as usize),
        )
    }
}

/// Every pile has a stride from 1 to the largest, and an offset below it;
/// there are as many piles as the triangular number of the largest stride.
pub proof fn lemma_pile_plan(max_stride: nat)
    requires
        max_stride <= usize::MAX,
    ensures
        spec_pile_plan(max_stride).len() == spec_triangle(max_stride),
        forall|i: int|
            0 <= i < spec_pile_plan(max_stride).len() ==> {
                let (offset, stride) = #[trigger] spec_pile_plan(max_stride)[i];
                1 <= stride <= max_stride && offset < stride
            },
    decreases max_stride,
{
    if max_stride > 0 {
        lemma_pile_plan((max_stride - 1) as nat);
        let prev = spec_pile_plan((max_stride - 1) as nat);
        let all = spec_pile_plan(max_stride);
        assert forall|i: int| 0 <= i < all.len() implies {
            let (offset, stride) = #[trigger] all[i];
            1 <= stride <= max_stride && offset < stride
        } by {
            if i < prev.len() {
                assert(all[i] == prev[i]);
            } else {
                assert(all[i] == ((i - prev.len()) as usize, max_stride as usize));
            }
        }
    }
}

/// Every offset below every stride from 1 to the largest has its pile in the
/// plan: the pile of `offset` and `stride` comes after those of all smaller
/// strides, at `offset` among those of its own stride.
pub proof fn lemma_pile_plan_complete(max_stride: nat, offset: nat, stride: nat)
    requires
        1 <= stride <= max_stride <= usize::MAX,
        offset < stride,
    ensures
        spec_triangle((stride - 1) as nat) + offset < spec_pile_plan(max_stride).len(),
        spec_pile_plan(max_stride)[(spec_triangle((stride - 1) as nat) + offset) as int] == (
            offset as usize,
            stride as usize,
        ),
    decreases max_stride,
{
    lemma_pile_plan(max_stride);
    lemma_pile_plan((max_stride - 1) as nat);
    let prev = spec_pile_plan((max_stride - 1) as nat);
    if stride < max_stride {
        lemma_pile_plan_complete((max_stride - 1) as nat, offset, stride);
        let idx = (spec_triangle((stride - 1) as nat) + offset) as int;
        assert(spec_pile_plan(max_stride)[idx] == prev[idx]);
    } else {
        assert(prev.len() == spec_triangle((stride - 1) as nat));
    }
}

/// The piles to search: for each stride from 1 to `max_stride`, every offset below it.
pub fn pile_plan(max_stride: usize) -> (res: Vec<(usize, usize)>)
    ensures
        res@ == spec_pile_plan(max_stride as nat),
{
    let mut piles: Vec<(usize, usize)> = Vec::new();
    let mut stride: usize = 1;
    while stride <= max_stride
        invariant
            1 <= stride,
            stride <= max_stride + 1,
            piles@ == spec_pile_plan((stride - 1) as nat),
        decreases max_stride + 1 - stride,
    {
        let ghost before = piles@;
        let mut offset: usize = 0;
        while offset < stride
            invariant
                offset <= stride,
                piles@ == before + Seq::new(offset as nat, |o: int| (o as usize, stride)),
            decreases stride - offset,
        {
            piles.push((offset, stride));
            proof {
                assert(piles@ =~= before + Seq::new((offset + 1) as nat, |o: int| (o as usize, stride)));
            }
            offset = offset + 1;
        }
        proof {
            assert(piles@ =~= spec_pile_plan(stride as nat));
        }
        if stride == max_stride {
            return piles;
        }
        stride = stride + 1;
    }
    piles
}

} // verus!
