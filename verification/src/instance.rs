//! WGSL structure-member layout: where each field of a GPU struct starts,
//! following the structure-member layout rules of the WGSL specification
//! (each member starts at the first multiple of its alignment at or after
//! the end of the previous member).

use vstd::prelude::*;

verus! {

/// `x` rounded up to a multiple of `a`.
pub open spec fn align_up(x: int, a: int) -> int {
    if x % a == 0 {
        x
    } else {
        x - x % a + a
    }
}

/// The end of the first `k` members: where member `k` would start before
/// alignment.
pub open spec fn members_end(sizes: Seq<usize>, aligns: Seq<usize>, k: int) -> int
    decreases k,
{
    if k <= 0 {
        0
    } else {
        align_up(members_end(sizes, aligns, k - 1), aligns[k - 1] as int) + sizes[k - 1]
    }
}

/// The offset of member `i`.
pub open spec fn member_offset(sizes: Seq<usize>, aligns: Seq<usize>, i: int) -> int {
    align_up(members_end(sizes, aligns, i), aligns[i] as int)
}

proof fn lemma_align_up(x: int, a: int)
    requires
        0 <= x,
        0 < a,
    ensures
        x <= align_up(x, a) < x + a,
        align_up(x, a) % a == 0,
{
    if x % a != 0 {
        assert((x - x % a + a) % a == 0) by (nonlinear_arith)
            requires
                0 < a,
                0 <= x,
        {
            assert(x == a * (x / a) + x % a);
            assert(x - x % a + a == a * (x / a + 1));
        }
    }
}

proof fn lemma_members_end_nonneg(sizes: Seq<usize>, aligns: Seq<usize>, k: int)
    requires
        k <= aligns.len(),
        forall|i: int| 0 <= i < aligns.len() ==> #[trigger] aligns[i] > 0,
    ensures
        0 <= members_end(sizes, aligns, k),
    decreases k,
{
    if k > 0 {
        lemma_members_end_nonneg(sizes, aligns, k - 1);
        lemma_align_up(members_end(sizes, aligns, k - 1), aligns[k - 1] as int);
    }
}

/// Member ends never decrease.
proof fn lemma_members_end_mono(sizes: Seq<usize>, aligns: Seq<usize>, j: int, k: int)
    requires
        0 <= j <= k <= aligns.len(),
        forall|i: int| 0 <= i < aligns.len() ==> #[trigger] aligns[i] > 0,
    ensures
        0 <= members_end(sizes, aligns, j) <= members_end(sizes, aligns, k),
    decreases k - j,
{
    lemma_members_end_nonneg(sizes, aligns, j);
    if j < k {
        lemma_members_end_mono(sizes, aligns, j, k - 1);
        lemma_align_up(members_end(sizes, aligns, k - 1), aligns[k - 1] as int);
    }
}

/// Every member starts at a multiple of its alignment, at or after the end
/// of the member before it, so no two members overlap.
pub proof fn lemma_member_offsets_aligned(sizes: Seq<usize>, aligns: Seq<usize>, i: int)
    requires
        0 <= i < aligns.len(),
        forall|k: int| 0 <= k < aligns.len() ==> #[trigger] aligns[k] > 0,
    ensures
        member_offset(sizes, aligns, i) % (aligns[i] as int) == 0,
        i > 0 ==> member_offset(sizes, aligns, i - 1) + sizes[i - 1] <= member_offset(sizes, aligns, i),
        0 <= member_offset(sizes, aligns, i),
{
    lemma_members_end_nonneg(sizes, aligns, i);
    lemma_align_up(members_end(sizes, aligns, i), aligns[i] as int);
}

/// WGSL struct-member offsets for per-field (size, align) pairs.
pub fn field_offsets<const N: usize>(sizes: [usize; N], aligns: [usize; N]) -> (r: [usize; N])
    requires
        forall|i: int| 0 <= i < N ==> #[trigger] aligns@[i] > 0,
        members_end(sizes@, aligns@, N as int) <= usize::MAX,
    ensures
        forall|i: int| 0 <= i < N ==> #[trigger] r@[i] == member_offset(sizes@, aligns@, i),
{
    let mut offsets = sizes;
    let mut end: usize = 0;
    let mut i: usize = 0;
    while i < N
        invariant
            0 <= i <= N,
            sizes@.len() == N,
            aligns@.len() == N,
            offsets@.len() == N,
            forall|k: int| 0 <= k < N ==> #[trigger] aligns@[k] > 0,
            members_end(sizes@, aligns@, N as int) <= usize::MAX,
            end == members_end(sizes@, aligns@, i as int),
            forall|k: int| 0 <= k < i ==> #[trigger] offsets@[k] == member_offset(sizes@, aligns@, k),
        decreases N - i,
    {
        let a = aligns[i];
        proof {
            lemma_members_end_mono(sizes@, aligns@, i + 1, N as int);
            lemma_align_up(end as int, a as int);
            assert(members_end(sizes@, aligns@, i + 1) == align_up(end as int, a as int) + sizes@[i as int]);
        }
        let rem = end % a;
        let offset = if rem == 0 {
            end
        } else {
            proof {
                assert(rem == end % a);
                assert(end + (a - rem) == align_up(end as int, a as int));
                assert(align_up(end as int, a as int) <= members_end(sizes@, aligns@, N as int));
            }
            end + (a - rem)
        };
        offsets[i] = offset;
        end = offset + sizes[i];
        i = i + 1;
    }
    offsets
}

} // verus!
