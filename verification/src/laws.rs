//! The allocator's guarantees, stated and proved over the model in
//! [`crate::vlsm`]: disjointness and containment of the returned
//! sub-networks, descending placement, capacity monotonicity, the effect of
//! the reservation flag, and determinism.

use vstd::prelude::*;
use crate::net::{
    Ipv4Net, min_prefix, block_size, lemma_min_prefix_bounds, lemma_min_prefix_antitone,
    lemma_block_size_pos, lemma_block_size_le, lemma_block_size_monotone, lemma_wf_end_bound,
    lemma_aligned_to_smaller,
};
use crate::sort::{sorted_desc, sort_desc, lemma_sort_desc_props};
use crate::vlsm::{AllocationError, effective_hosts, place, allocate_spec};
use vstd::arithmetic::power2::{pow2, lemma_pow2_pos, lemma_pow2_strictly_increases};
use vstd::multiset::Multiset;

verus! {

/// The address ranges of the two networks do not intersect.
pub open spec fn ranges_disjoint(a: Ipv4Net, b: Ipv4Net) -> bool {
    a.end_spec() <= b.start_spec() || b.end_spec() <= a.start_spec()
}

/// The child network's address range is a subset of the parent's.
pub open spec fn contained_in(child: Ipv4Net, parent: Ipv4Net) -> bool {
    parent.start_spec() <= child.start_spec() && child.end_spec() <= parent.end_spec()
}

/// The sum of the block sizes that the requirements in `s` ask for.
pub open spec fn total_blocks(s: Seq<u32>, reserve: bool) -> int
    decreases s.len(),
{
    if s.len() == 0 {
        0
    } else {
        block_size(effective_hosts(s[0], reserve)) + total_blocks(s.drop_first(), reserve)
    }
}

/// The sum of positive block sizes is non-negative.
proof fn lemma_total_blocks_nonneg(s: Seq<u32>, reserve: bool)
    ensures
        total_blocks(s, reserve) >= 0,
    decreases s.len(),
{
    if s.len() > 0 {
        lemma_block_size_pos(effective_hosts(s[0], reserve));
        lemma_total_blocks_nonneg(s.drop_first(), reserve);
    }
}

/// Adding two multiples of `m` gives a multiple of `m`.
proof fn lemma_mod_sum_zero(a: int, b: int, m: int)
    requires
        m > 0,
        a % m == 0,
        b % m == 0,
    ensures
        (a + b) % m == 0,
{
    let qa = a / m;
    let qb = b / m;
    vstd::arithmetic::div_mod::lemma_fundamental_div_mod(a, m);
    vstd::arithmetic::div_mod::lemma_fundamental_div_mod(b, m);
    assert(a + b == (qa + qb) * m) by (nonlinear_arith)
        requires
            a == qa * m,
            b == qb * m,
    ;
    vstd::arithmetic::div_mod::lemma_mod_multiples_basic(qa + qb, m);
}

/// A smaller block's size divides a larger block's size, so alignment to the
/// larger block carries over.
proof fn lemma_block_alignment_carries(x: int, small: int, large: int)
    requires
        0 <= x,
        1 <= small,
        x % large == 0,
        (exists|e: nat| e <= 32 && small == pow2(e) as int),
        (exists|e: nat| e <= 32 && large == pow2(e) as int),
        small <= large,
    ensures
        x % small == 0,
        large % small == 0,
{
    let es = choose|e: nat| e <= 32 && small == pow2(e) as int;
    let el = choose|e: nat| e <= 32 && large == pow2(e) as int;
    if el < es {
        lemma_pow2_strictly_increases(el, es);
        assert(false);
    }
    lemma_aligned_to_smaller(x, es, el);
    vstd::arithmetic::div_mod::lemma_mod_self_0(large);
    lemma_aligned_to_smaller(large, es, el);
}

/// The shape of every successful placement: one well-formed sub-network per
/// requirement, each of exactly the block size its requirement asks for,
/// laid out in order after `cursor` and ending within the parent.
proof fn lemma_place_props(
    parent: Ipv4Net,
    sorted: Seq<u32>,
    reserve: bool,
    cursor: int,
    total: int,
    res: Seq<Ipv4Net>,
)
    requires
        parent.wf(),
        sorted_desc(sorted),
        0 <= total <= parent.size_spec(),
        cursor == parent.base + total,
        sorted.len() > 0 ==> cursor % block_size(effective_hosts(sorted[0], reserve)) == 0,
        place(parent, sorted, reserve, cursor, total) == Ok::<Seq<Ipv4Net>, AllocationError>(res),
    ensures
        res.len() == sorted.len(),
        forall|k: int| 0 <= k < res.len() ==> (#[trigger] res[k]).wf(),
        forall|k: int|
            0 <= k < res.len() ==> (#[trigger] res[k]).prefix as int == min_prefix(
                effective_hosts(sorted[k], reserve),
            ),
        forall|k: int|
            0 <= k < res.len() ==> (#[trigger] res[k]).size_spec() == block_size(
                effective_hosts(sorted[k], reserve),
            ),
        forall|k: int| 0 <= k < res.len() ==> cursor <= (#[trigger] res[k]).start_spec(),
        forall|k: int|
            0 <= k < res.len() ==> (#[trigger] res[k]).end_spec() <= parent.base
                + parent.size_spec(),
        forall|k: int, l: int|
            0 <= k < l < res.len() ==> (#[trigger] res[k]).end_spec() <= (
            #[trigger] res[l]).start_spec(),
    decreases sorted.len(),
{
    lemma_pow2_pos((32 - parent.prefix) as nat);
    if sorted.len() == 0 {
        assert(res =~= Seq::<Ipv4Net>::empty());
    } else {
        let h0 = effective_hosts(sorted[0], reserve);
        assert(0 <= h0);
        assert(h0 <= 0x1_0000_0000);
        let b0 = block_size(h0);
        lemma_block_size_pos(h0);
        lemma_block_size_le(h0);
        lemma_min_prefix_bounds(h0);
        assert(total + b0 <= parent.size_spec());
        lemma_wf_end_bound(parent);
        let first = Ipv4Net { base: cursor as u32, prefix: min_prefix(h0) as u8 };
        assert(first.base as int == cursor);
        assert(first.size_spec() == b0);
        assert(first.wf());
        let rest_sorted = sorted.drop_first();
        let inner = place(parent, rest_sorted, reserve, cursor + b0, total + b0);
        match inner {
            Ok(rest) => {
                assert(res == seq![first] + rest);
                // The remaining requirements are still sorted, and the new
                // cursor is aligned to the next (no larger) block.
                assert(sorted_desc(rest_sorted)) by {
                    assert forall|i: int, j: int|
                        0 <= i < j < rest_sorted.len() implies rest_sorted[i]
                        >= rest_sorted[j] by {
                        assert(sorted[i + 1] >= sorted[j + 1]);
                    }
                }
                if rest_sorted.len() > 0 {
                    let h1 = effective_hosts(rest_sorted[0], reserve);
                    let b1 = block_size(h1);
                    assert(sorted[0] >= sorted[1]);
                    assert(0 <= h1 <= h0);
                    lemma_block_size_monotone(h1, h0);
                    lemma_min_prefix_bounds(h1);
                    lemma_block_size_pos(h1);
                    assert(b1 == pow2((32 - min_prefix(h1)) as nat) as int);
                    assert((32 - min_prefix(h1)) as nat <= 32);
                    lemma_block_alignment_carries(cursor, b1, b0);
                    lemma_mod_sum_zero(cursor, b0, b1);
                }
                lemma_place_props(parent, rest_sorted, reserve, cursor + b0, total + b0, rest);
                assert forall|k: int| 0 <= k < res.len() implies (#[trigger] res[k]).wf()
                    && res[k].prefix as int == min_prefix(effective_hosts(sorted[k], reserve))
                    && res[k].size_spec() == block_size(effective_hosts(sorted[k], reserve))
                    && cursor <= res[k].start_spec()
                    && res[k].end_spec() <= parent.base + parent.size_spec() by {
                    if k == 0 {
                        assert(res[0] == first);
                    } else {
                        assert(res[k] == rest[k - 1]);
                        assert(rest_sorted[k - 1] == sorted[k]);
                    }
                }
                assert forall|k: int, l: int| 0 <= k < l < res.len() implies (
                #[trigger] res[k]).end_spec() <= (#[trigger] res[l]).start_spec() by {
                    if k == 0 {
                        assert(res[0] == first);
                        assert(res[l] == rest[l - 1]);
                        assert(first.end_spec() == cursor + b0);
                        assert(cursor + b0 <= rest[l - 1].start_spec());
                    } else {
                        assert(res[k] == rest[k - 1] && res[l] == rest[l - 1]);
                    }
                }
            },
            Err(_) => {
                assert(false);
            },
        }
    }
}

/// Carries `lemma_place_props` to the top-level allocation: the alignment of
/// the parent's base to the first (largest) block follows from the parent's
/// own well-formedness.
proof fn lemma_alloc_props(parent: Ipv4Net, sizes: Seq<u32>, reserve: bool, res: Seq<Ipv4Net>)
    requires
        parent.wf(),
        allocate_spec(parent, sizes, reserve) == Ok::<Seq<Ipv4Net>, AllocationError>(res),
    ensures
        res.len() == sizes.len(),
        forall|k: int| 0 <= k < res.len() ==> (#[trigger] res[k]).wf(),
        forall|k: int|
            0 <= k < res.len() ==> (#[trigger] res[k]).prefix as int == min_prefix(
                effective_hosts(sort_desc(sizes)[k], reserve),
            ),
        forall|k: int|
            0 <= k < res.len() ==> (#[trigger] res[k]).size_spec() == block_size(
                effective_hosts(sort_desc(sizes)[k], reserve),
            ),
        forall|k: int| 0 <= k < res.len() ==> contained_in(#[trigger] res[k], parent),
        forall|k: int, l: int|
            0 <= k < l < res.len() ==> (#[trigger] res[k]).end_spec() <= (
            #[trigger] res[l]).start_spec(),
{
    let sorted = sort_desc(sizes);
    lemma_sort_desc_props(sizes);
    lemma_pow2_pos((32 - parent.prefix) as nat);
    if sorted.len() > 0 {
        let h0 = effective_hosts(sorted[0], reserve);
        // A successful placement got past both failure checks for the first
        // requirement, so its block exists and fits the parent.
        assert(h0 <= 0x1_0000_0000);
        let b0 = block_size(h0);
        assert(b0 <= parent.size_spec());
        lemma_block_size_pos(h0);
        lemma_min_prefix_bounds(h0);
        lemma_block_alignment_carries(parent.base as int, b0, parent.size_spec());
    }
    lemma_place_props(parent, sorted, reserve, parent.base as int, 0, res);
}

/// Disjointness: no two sub-networks of a successful allocation have
/// intersecting address ranges.
pub proof fn lemma_allocation_disjoint(
    parent: Ipv4Net,
    sizes: Seq<u32>,
    reserve: bool,
    res: Seq<Ipv4Net>,
)
    requires
        parent.wf(),
        allocate_spec(parent, sizes, reserve) == Ok::<Seq<Ipv4Net>, AllocationError>(res),
    ensures
        forall|k: int, l: int|
            0 <= k < res.len() && 0 <= l < res.len() && k != l ==> ranges_disjoint(
                #[trigger] res[k],
                #[trigger] res[l],
            ),
{
    lemma_alloc_props(parent, sizes, reserve, res);
}

/// Containment: every sub-network of a successful allocation lies within
/// the parent's address range, and is itself well-formed.
pub proof fn lemma_allocation_contained(
    parent: Ipv4Net,
    sizes: Seq<u32>,
    reserve: bool,
    res: Seq<Ipv4Net>,
)
    requires
        parent.wf(),
        allocate_spec(parent, sizes, reserve) == Ok::<Seq<Ipv4Net>, AllocationError>(res),
    ensures
        res.len() == sizes.len(),
        forall|k: int| 0 <= k < res.len() ==> contained_in(#[trigger] res[k], parent),
        forall|k: int| 0 <= k < res.len() ==> (#[trigger] res[k]).wf(),
{
    lemma_alloc_props(parent, sizes, reserve, res);
}

/// Descending-order placement: the sub-networks come out largest first,
/// their sizes non-increasing.
pub proof fn lemma_allocation_descending(
    parent: Ipv4Net,
    sizes: Seq<u32>,
    reserve: bool,
    res: Seq<Ipv4Net>,
)
    requires
        parent.wf(),
        allocate_spec(parent, sizes, reserve) == Ok::<Seq<Ipv4Net>, AllocationError>(res),
    ensures
        forall|k: int, l: int|
            0 <= k < l < res.len() ==> (#[trigger] res[k]).size_spec() >= (
            #[trigger] res[l]).size_spec(),
{
    lemma_alloc_props(parent, sizes, reserve, res);
    let sorted = sort_desc(sizes);
    lemma_sort_desc_props(sizes);
    assert forall|k: int, l: int| 0 <= k < l < res.len() implies (#[trigger] res[k]).size_spec()
        >= (#[trigger] res[l]).size_spec() by {
        assert(sorted[k] >= sorted[l]);
        let hk = effective_hosts(sorted[k], reserve);
        let hl = effective_hosts(sorted[l], reserve);
        assert(place(parent, sorted, reserve, parent.base as int, 0) is Ok);
        lemma_place_eff_bounded(parent, sorted, reserve, parent.base as int, 0);
        lemma_block_size_monotone(hl, hk);
    }
}

/// In a successful placement every effective host count fits the 32-bit
/// address space.
proof fn lemma_place_eff_bounded(
    parent: Ipv4Net,
    sorted: Seq<u32>,
    reserve: bool,
    cursor: int,
    total: int,
)
    requires
        place(parent, sorted, reserve, cursor, total) is Ok,
    ensures
        forall|k: int|
            0 <= k < sorted.len() ==> effective_hosts(sorted[k], reserve) <= 0x1_0000_0000,
    decreases sorted.len(),
{
    if sorted.len() > 0 {
        let h0 = effective_hosts(sorted[0], reserve);
        let b0 = block_size(h0);
        lemma_place_eff_bounded(
            parent,
            sorted.drop_first(),
            reserve,
            cursor + b0,
            total + b0,
        );
        assert forall|k: int| 0 <= k < sorted.len() implies effective_hosts(sorted[k], reserve)
            <= 0x1_0000_0000 by {
            if k > 0 {
                assert(sorted.drop_first()[k - 1] == sorted[k]);
            }
        }
    }
}

/// A placement succeeds exactly when every requirement is representable and
/// the blocks' total size fits the parent's remaining budget.
proof fn lemma_place_ok_iff(
    parent: Ipv4Net,
    sorted: Seq<u32>,
    reserve: bool,
    cursor: int,
    total: int,
)
    requires
        0 <= total <= parent.size_spec(),
    ensures
        place(parent, sorted, reserve, cursor, total) is Ok <==> ((forall|k: int|
            0 <= k < sorted.len() ==> effective_hosts(sorted[k], reserve) <= 0x1_0000_0000)
            && total + total_blocks(sorted, reserve) <= parent.size_spec()),
    decreases sorted.len(),
{
    if sorted.len() == 0 {
    } else {
        let h0 = effective_hosts(sorted[0], reserve);
        if h0 > 0x1_0000_0000 {
        } else {
            let b0 = block_size(h0);
            lemma_block_size_pos(h0);
            lemma_total_blocks_nonneg(sorted.drop_first(), reserve);
            if total + b0 > parent.size_spec() {
            } else {
                lemma_place_ok_iff(
                    parent,
                    sorted.drop_first(),
                    reserve,
                    cursor + b0,
                    total + b0,
                );
                assert forall|k: int|
                    0 <= k < sorted.drop_first().len() implies #[trigger] sorted.drop_first()[k]
                    == sorted[k + 1] by {}
                if place(parent, sorted, reserve, cursor, total) is Ok {
                    assert forall|k: int| 0 <= k < sorted.len() implies effective_hosts(
                        sorted[k],
                        reserve,
                    ) <= 0x1_0000_0000 by {
                        if k > 0 {
                            assert(sorted.drop_first()[k - 1] == sorted[k]);
                        }
                    }
                } else {
                    if (forall|k: int|
                        0 <= k < sorted.len() ==> effective_hosts(sorted[k], reserve)
                            <= 0x1_0000_0000) && total + total_blocks(sorted, reserve)
                        <= parent.size_spec() {
                        assert forall|k: int|
                            0 <= k < sorted.drop_first().len() implies effective_hosts(
                            sorted.drop_first()[k],
                            reserve,
                        ) <= 0x1_0000_0000 by {
                            assert(sorted.drop_first()[k] == sorted[k + 1]);
                        }
                        assert(false);
                    }
                }
            }
        }
    }
}

/// Removing the element at `j` removes exactly its block from the total.
proof fn lemma_total_blocks_remove(s: Seq<u32>, reserve: bool, j: int)
    requires
        0 <= j < s.len(),
    ensures
        total_blocks(s, reserve) == block_size(effective_hosts(s[j], reserve)) + total_blocks(
            s.remove(j),
            reserve,
        ),
    decreases j,
{
    if j == 0 {
        assert(s.remove(0) =~= s.drop_first());
    } else {
        lemma_total_blocks_remove(s.drop_first(), reserve, j - 1);
        assert(s.drop_first()[j - 1] == s[j]);
        assert(s.remove(j).drop_first() =~= s.drop_first().remove(j - 1));
        assert(s.remove(j)[0] == s[0]);
        assert(s.remove(j).len() > 0);
    }
}

/// A sub-multiset of requirements asks for at most the same total block
/// size.
proof fn lemma_total_blocks_subset(s1: Seq<u32>, s2: Seq<u32>, reserve: bool)
    requires
        s1.to_multiset().subset_of(s2.to_multiset()),
    ensures
        total_blocks(s1, reserve) <= total_blocks(s2, reserve),
    decreases s1.len(),
{
    broadcast use vstd::multiset::group_multiset_axioms;

    s1.to_multiset_ensures();
    s2.to_multiset_ensures();
    if s1.len() == 0 {
        lemma_total_blocks_nonneg(s2, reserve);
    } else {
        let x = s1[0];
        assert(s1.contains(x));
        assert(s1.to_multiset().count(x) > 0);
        assert(s2.to_multiset().count(x) > 0);
        assert(s2.contains(x));
        let j = choose|j: int| 0 <= j < s2.len() && s2[j] == x;
        lemma_total_blocks_remove(s2, reserve, j);
        vstd::seq_lib::to_multiset_remove(s1, 0);
        vstd::seq_lib::to_multiset_remove(s2, j);
        assert(s1.remove(0) =~= s1.drop_first());
        assert(s1.drop_first().to_multiset().subset_of(s2.remove(j).to_multiset())) by {
            assert forall|v: u32|
                s1.drop_first().to_multiset().count(v) <= s2.remove(j).to_multiset().count(
                    v,
                ) by {
                assert(s1.drop_first().to_multiset().count(v) == s1.to_multiset().remove(x).count(
                    v,
                ));
            }
        }
        lemma_total_blocks_subset(s1.drop_first(), s2.remove(j), reserve);
    }
}

/// Every element of a sub-multiset keeps the bound that holds of the larger
/// list's elements.
proof fn lemma_eff_bound_subset(s1: Seq<u32>, s2: Seq<u32>, reserve: bool)
    requires
        s1.to_multiset().subset_of(s2.to_multiset()),
        forall|k: int| 0 <= k < s2.len() ==> effective_hosts(s2[k], reserve) <= 0x1_0000_0000,
    ensures
        forall|k: int| 0 <= k < s1.len() ==> effective_hosts(s1[k], reserve) <= 0x1_0000_0000,
{
    s1.to_multiset_ensures();
    s2.to_multiset_ensures();
    assert forall|k: int| 0 <= k < s1.len() implies effective_hosts(s1[k], reserve)
        <= 0x1_0000_0000 by {
        let x = s1[k];
        assert(s1.contains(x));
        assert(s1.to_multiset().count(x) > 0);
        assert(s2.to_multiset().count(x) > 0);
        assert(s2.contains(x));
        let j = choose|j: int| 0 <= j < s2.len() && s2[j] == x;
        assert(effective_hosts(s2[j], reserve) <= 0x1_0000_0000);
    }
}

/// Capacity monotonicity: a requirement list that is, as a multiset, part
/// of a list the parent can hold, can itself be held by the parent.
pub proof fn lemma_capacity_monotone(parent: Ipv4Net, r1: Seq<u32>, r2: Seq<u32>, reserve: bool)
    requires
        parent.wf(),
        r1.to_multiset().subset_of(r2.to_multiset()),
        allocate_spec(parent, r2, reserve) is Ok,
    ensures
        allocate_spec(parent, r1, reserve) is Ok,
{
    broadcast use vstd::multiset::group_multiset_axioms;

    let s1 = sort_desc(r1);
    let s2 = sort_desc(r2);
    lemma_sort_desc_props(r1);
    lemma_sort_desc_props(r2);
    lemma_pow2_pos((32 - parent.prefix) as nat);
    lemma_place_ok_iff(parent, s2, reserve, parent.base as int, 0);
    assert(s1.to_multiset().subset_of(s2.to_multiset()));
    lemma_eff_bound_subset(s1, s2, reserve);
    lemma_total_blocks_subset(s1, s2, reserve);
    lemma_place_ok_iff(parent, s1, reserve, parent.base as int, 0);
}

/// Success characterization: the allocation succeeds exactly when every
/// requirement's effective host count fits the 32-bit address space and
/// the blocks they ask for sum to no more than the parent's size. The
/// order of the requirement list plays no part.
pub proof fn lemma_allocation_success_iff(parent: Ipv4Net, sizes: Seq<u32>, reserve: bool)
    requires
        parent.wf(),
    ensures
        allocate_spec(parent, sizes, reserve) is Ok <==> ((forall|k: int|
            0 <= k < sizes.len() ==> effective_hosts(sizes[k], reserve) <= 0x1_0000_0000)
            && total_blocks(sizes, reserve) <= parent.size_spec()),
{
    broadcast use vstd::multiset::group_multiset_axioms;

    let sorted = sort_desc(sizes);
    lemma_sort_desc_props(sizes);
    lemma_pow2_pos((32 - parent.prefix) as nat);
    lemma_place_ok_iff(parent, sorted, reserve, parent.base as int, 0);
    lemma_total_blocks_subset(sorted, sizes, reserve);
    lemma_total_blocks_subset(sizes, sorted, reserve);
    if allocate_spec(parent, sizes, reserve) is Ok {
        lemma_eff_bound_subset(sizes, sorted, reserve);
    }
    if forall|k: int| 0 <= k < sizes.len() ==> effective_hosts(sizes[k], reserve)
        <= 0x1_0000_0000 {
        lemma_eff_bound_subset(sorted, sizes, reserve);
    }
}

/// With the same requirements, the per-requirement blocks without the
/// reservation flag are no larger than with it.
proof fn lemma_total_blocks_flag(s: Seq<u32>)
    requires
        forall|k: int| 0 <= k < s.len() ==> effective_hosts(s[k], true) <= 0x1_0000_0000,
    ensures
        total_blocks(s, false) <= total_blocks(s, true),
    decreases s.len(),
{
    if s.len() > 0 {
        lemma_block_size_monotone(effective_hosts(s[0], false), effective_hosts(s[0], true));
        assert forall|k: int| 0 <= k < s.drop_first().len() implies effective_hosts(
            s.drop_first()[k],
            true,
        ) <= 0x1_0000_0000 by {
            assert(s.drop_first()[k] == s[k + 1]);
        }
        lemma_total_blocks_flag(s.drop_first());
    }
}

/// Reserve-flag effect, success direction: an allocation that succeeds with
/// the network and broadcast addresses reserved also succeeds without the
/// reservation.
pub proof fn lemma_reserve_flag_success(parent: Ipv4Net, sizes: Seq<u32>)
    requires
        parent.wf(),
        allocate_spec(parent, sizes, true) is Ok,
    ensures
        allocate_spec(parent, sizes, false) is Ok,
{
    let sorted = sort_desc(sizes);
    lemma_sort_desc_props(sizes);
    lemma_pow2_pos((32 - parent.prefix) as nat);
    lemma_place_ok_iff(parent, sorted, true, parent.base as int, 0);
    lemma_total_blocks_flag(sorted);
    lemma_place_ok_iff(parent, sorted, false, parent.base as int, 0);
}

/// Reserve-flag effect, per-entry direction: when both allocations succeed,
/// reserving the network and broadcast addresses never shrinks any entry's
/// block, i.e. never lengthens its prefix.
pub proof fn lemma_reserve_flag_effect(
    parent: Ipv4Net,
    sizes: Seq<u32>,
    res_on: Seq<Ipv4Net>,
    res_off: Seq<Ipv4Net>,
)
    requires
        parent.wf(),
        allocate_spec(parent, sizes, true) == Ok::<Seq<Ipv4Net>, AllocationError>(res_on),
        allocate_spec(parent, sizes, false) == Ok::<Seq<Ipv4Net>, AllocationError>(res_off),
    ensures
        res_on.len() == res_off.len(),
        forall|k: int|
            0 <= k < res_on.len() ==> (#[trigger] res_on[k]).prefix <= (
            #[trigger] res_off[k]).prefix,
        forall|k: int|
            0 <= k < res_on.len() ==> (#[trigger] res_on[k]).size_spec() >= (
            #[trigger] res_off[k]).size_spec(),
{
    lemma_alloc_props(parent, sizes, true, res_on);
    lemma_alloc_props(parent, sizes, false, res_off);
    let sorted = sort_desc(sizes);
    lemma_sort_desc_props(sizes);
    assert forall|k: int| 0 <= k < res_on.len() implies (#[trigger] res_on[k]).prefix <= (
    #[trigger] res_off[k]).prefix && res_on[k].size_spec() >= res_off[k].size_spec() by {
        let h_on = effective_hosts(sorted[k], true);
        let h_off = effective_hosts(sorted[k], false);
        lemma_place_eff_bounded(parent, sorted, true, parent.base as int, 0);
        lemma_min_prefix_antitone(h_off, h_on);
        lemma_block_size_monotone(h_off, h_on);
    }
}

/// Idempotence: the allocator's result is a function of the parent, the
/// requirement list and the flag alone, so two results of identical calls
/// are identical.
pub proof fn lemma_allocate_idempotent(
    parent: Ipv4Net,
    sizes: Seq<u32>,
    reserve: bool,
    r1: Result<Seq<Ipv4Net>, AllocationError>,
    r2: Result<Seq<Ipv4Net>, AllocationError>,
)
    requires
        r1 == allocate_spec(parent, sizes, reserve),
        r2 == allocate_spec(parent, sizes, reserve),
    ensures
        r1 == r2,
{
}

} // verus!
