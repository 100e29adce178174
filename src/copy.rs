use vstd::arithmetic::div_mod::{lemma_fundamental_div_mod, lemma_fundamental_div_mod_converse};
use vstd::prelude::*;

verus! {

/// The indices that a copy with `stride` reaches in a buffer of `len` bytes.
pub open spec fn touched(stride: nat, len: nat) -> Set<int> {
    Set::new(|i: int| 0 <= i < len && i % (stride as int) == 0)
}

/// Between one multiple of `s` and the next there is none, and the next is one.
proof fn lemma_next_multiple(i: int, s: int)
    requires
        s >= 1,
        i >= 0,
        i % s == 0,
    ensures
        (i + s) % s == 0,
        forall|j: int| i < j < i + s ==> #[trigger] (j % s) != 0,
{
    let q = i / s;
    assert(i == q * s) by {
        lemma_fundamental_div_mod(i, s);
    }
    assert(i + s == (q + 1) * s) by (nonlinear_arith)
        requires
            i == q * s,
    ;
    lemma_fundamental_div_mod_converse(i + s, s, q + 1, 0);
    assert forall|j: int| i < j < i + s implies #[trigger] (j % s) != 0 by {
        lemma_fundamental_div_mod_converse(j, s, q, j - i);
    }
}

/// Copies `src[i]` into `dst[i]` for every index `i` below `src.len()` that is
/// a multiple of `stride`, in ascending order, and hands back the destination.
pub fn strided_copy(stride: usize, src: Vec<u8>, dst: Vec<u8>) -> (r: Vec<u8>)
    requires
        stride >= 1,
        dst.len() >= src.len(),
    ensures
        r@.len() == dst@.len(),
        forall|j: int| #[trigger]
            touched(stride as nat, src@.len()).contains(j) ==> r@[j] == src@[j],
        forall|j: int|
            0 <= j < dst@.len() && !touched(stride as nat, src@.len()).contains(j) ==> r@[j]
                == dst@[j],
{
    let ghost start = dst@;
    let mut dst = dst;
    let n = src.len();
    let mut i: usize = 0;
    while i < n
        invariant
            n == src@.len(),
            n <= dst@.len(),
            stride >= 1,
            i <= n,
            i < n ==> i % stride == 0,
            dst@.len() == start.len(),
            forall|j: int|
                0 <= j < dst@.len() ==> dst@[j] == if j < i && j % (stride as int) == 0 {
                    src@[j]
                } else {
                    start[j]
                },
        decreases n - i,
    {
        proof {
            lemma_next_multiple(i as int, stride as int);
        }
        dst.set(i, src[i]);
        if n - i > stride {
            i = i + stride;
        } else {
            i = n;
        }
    }
    dst
}

/// Going from `len` to `len + 1` adds index `len` when it is a multiple of `s`,
/// and the rounded-up quotient grows by one exactly then.
proof fn lemma_ceil_step(len: int, s: int)
    requires
        s >= 1,
        len >= 0,
    ensures
        (len + s) / s == (len + s - 1) / s + if len % s == 0 { 1int } else { 0int },
{
    let q = len / s;
    let r = len % s;
    lemma_fundamental_div_mod(len, s);
    assert(len + s == (q + 1) * s + r) by (nonlinear_arith)
        requires
            len == s * q + r,
    ;
    lemma_fundamental_div_mod_converse(len + s, s, q + 1, r);
    if r == 0 {
        assert(len + s - 1 == q * s + (s - 1)) by (nonlinear_arith)
            requires
                len == s * q,
        ;
        lemma_fundamental_div_mod_converse(len + s - 1, s, q, s - 1);
    } else {
        lemma_fundamental_div_mod_converse(len + s - 1, s, q + 1, r - 1);
    }
}

/// A copy with stride `s` over `len` bytes reaches exactly `ceil(len / s)`
/// indices.
pub proof fn lemma_touched_count(stride: nat, len: nat)
    requires
        stride >= 1,
    ensures
        touched(stride, len).finite(),
        touched(stride, len).len() == (len + stride - 1) / (stride as int),
    decreases len,
{
    if len == 0 {
        assert(touched(stride, 0) =~= Set::empty());
        lemma_fundamental_div_mod_converse(stride - 1, stride as int, 0, stride - 1);
    } else {
        let prev = (len - 1) as nat;
        lemma_touched_count(stride, prev);
        lemma_ceil_step(prev as int, stride as int);
        if prev % stride == 0 {
            assert(touched(stride, len) =~= touched(stride, prev).insert(prev as int));
        } else {
            assert(touched(stride, len) =~= touched(stride, prev));
        }
    }
}

/// A copy with stride one reaches every index of the buffer.
pub proof fn lemma_stride_one_touches_all(len: nat)
    ensures
        touched(1, len) == Set::new(|i: int| 0 <= i < len),
{
    assert(touched(1, len) =~= Set::new(|i: int| 0 <= i < len));
}

/// A copy whose stride is at least the length of a non-empty buffer reaches
/// exactly one index, the first.
pub proof fn lemma_long_stride_touches_one(stride: nat, len: nat)
    requires
        stride >= len,
        len >= 1,
    ensures
        touched(stride, len) == set![0int],
        touched(stride, len).len() == 1,
{
    assert forall|i: int| 0 < i < len implies #[trigger] (i % (stride as int)) != 0 by {
        lemma_fundamental_div_mod_converse(i, stride as int, 0, i);
    }
    assert(touched(stride, len) =~= set![0int]);
}

} // verus!
