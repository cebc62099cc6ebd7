//! The VLSM allocator: carves a parent IPv4 network into sub-networks, one
//! per required host count, largest request first.
//!
//! `allocate_spec` is the mathematical model: it sorts the requirements in
//! descending order, gives each its minimal power-of-two block, and places
//! the blocks one after another from the parent's base address, failing when
//! a requirement cannot be represented at all or the parent runs out of
//! room. `Ipv4Net::allocate` computes exactly that model.

use vstd::prelude::*;
use crate::net::{
    Ipv4Net, min_prefix, block_size, pow2_u64, lemma_min_prefix_bounds, lemma_min_prefix_unique,
    lemma_block_size_pos, lemma_wf_end_bound,
};
use crate::sort::{sort_desc, sort_desc_vec};
use vstd::arithmetic::power2::{pow2, lemma_pow2_strictly_increases, lemma2_to64};

verus! {

/// Why an allocation failed. Both conditions reflect a mismatch between the
/// request and the parent's capacity; neither is transient.
#[derive(Clone, Copy, PartialEq, Eq, Structural, Debug)]
pub enum AllocationError {
    /// The cumulative size of the blocks requested so far exceeds the
    /// parent network's address space.
    InsufficientSpace { parent: Ipv4Net, requested_total: u64 },
    /// A single requirement's effective host count exceeds the whole 32-bit
    /// address space, so no prefix length can satisfy it.
    RequirementTooLarge { requirement: u32 },
}

/// The effective host count of a requirement: the requested count, plus two
/// reserved addresses (network and broadcast) when the flag is set.
pub open spec fn effective_hosts(h: u32, reserve: bool) -> int {
    h + if reserve {
        2int
    } else {
        0int
    }
}

/// Places the blocks for the sorted requirement list `sorted`, one after
/// another starting at address `cursor`, with `total` addresses already
/// spent out of the parent's budget.
pub open spec fn place(
    parent: Ipv4Net,
    sorted: Seq<u32>,
    reserve: bool,
    cursor: int,
    total: int,
) -> Result<Seq<Ipv4Net>, AllocationError>
    decreases sorted.len(),
{
    if sorted.len() == 0 {
        Ok(Seq::empty())
    } else {
        let h = effective_hosts(sorted[0], reserve);
        if h > 0x1_0000_0000 {
            Err(AllocationError::RequirementTooLarge { requirement: sorted[0] })
        } else {
            let b = block_size(h);
            if total + b > parent.size_spec() {
                Err(
                    AllocationError::InsufficientSpace {
                        parent,
                        requested_total: (total + b) as u64,
                    },
                )
            } else {
                match place(parent, sorted.drop_first(), reserve, cursor + b, total + b) {
                    Ok(rest) => Ok(
                        seq![Ipv4Net { base: cursor as u32, prefix: min_prefix(h) as u8 }] + rest,
                    ),
                    Err(e) => Err(e),
                }
            }
        }
    }
}

/// The allocator's result as a mathematical function of its inputs: sort
/// the requirements in descending order and place their blocks from the
/// parent's base address.
pub open spec fn allocate_spec(parent: Ipv4Net, sizes: Seq<u32>, reserve: bool) -> Result<
    Seq<Ipv4Net>,
    AllocationError,
> {
    place(parent, sort_desc(sizes), reserve, parent.base as int, 0)
}

impl Ipv4Net {
    /// Allocates one sub-network per required host count inside `self`,
    /// largest request first. With `reserve` set, two
    /// extra addresses per requirement pay for the network and broadcast
    /// addresses. Returns the sub-networks in the order they were placed,
    /// or the first error the placement runs into.
    pub fn allocate(self, sizes: &Vec<u32>, reserve: bool) -> (r: Result<
        Vec<Ipv4Net>,
        AllocationError,
    >)
        requires
            self.wf(),
        ensures
            (match r {
                Ok(subnets) => allocate_spec(self, sizes@, reserve) == Ok::<
                    Seq<Ipv4Net>,
                    AllocationError,
                >(subnets@),
                Err(e) => allocate_spec(self, sizes@, reserve) == Err::<
                    Seq<Ipv4Net>,
                    AllocationError,
                >(e),
            }),
    {
        let sorted: Vec<u32> = sort_desc_vec(sizes);
        let psize: u64 = pow2_u64(32 - self.prefix);
        let mut subnets: Vec<Ipv4Net> = Vec::new();
        let mut cursor: u64 = self.base as u64;
        let mut total: u64 = 0;
        let mut i: usize = 0;
        proof {
            lemma_wf_end_bound(self);
            assert(sorted@.skip(0) =~= sorted@);
            assert(subnets@ + place_ok_seq(self, sorted@, reserve, cursor as int, 0) =~= place_ok_seq(
                self,
                sorted@,
                reserve,
                cursor as int,
                0,
            ));
        }
        while i < sorted.len()
            invariant
                self.wf(),
                psize as int == self.size_spec(),
                sorted@ == sort_desc(sizes@),
                i <= sorted@.len(),
                total <= psize,
                psize <= 0x1_0000_0000u64,
                self.base + psize <= 0x1_0000_0000,
                cursor as int == self.base + total,
                (match place(self, sorted@.skip(i as int), reserve, cursor as int, total as int) {
                    Ok(rest) => allocate_spec(self, sizes@, reserve) == Ok::<
                        Seq<Ipv4Net>,
                        AllocationError,
                    >(subnets@ + rest),
                    Err(e) => allocate_spec(self, sizes@, reserve) == Err::<
                        Seq<Ipv4Net>,
                        AllocationError,
                    >(e),
                }),
            decreases sorted@.len() - i,
        {
            let ghost remaining = sorted@.skip(i as int);
            proof {
                assert(remaining[0] == sorted@[i as int]);
                assert(remaining.drop_first() =~= sorted@.skip(i as int + 1));
            }
            let h: u64 = sorted[i] as u64 + if reserve {
                2
            } else {
                0
            };
            proof {
                assert(h as int == effective_hosts(remaining[0], reserve));
            }
            if h > 0x1_0000_0000u64 {
                proof {
                    assert(place(self, remaining, reserve, cursor as int, total as int) == Err::<
                        Seq<Ipv4Net>,
                        AllocationError,
                    >(AllocationError::RequirementTooLarge { requirement: remaining[0] }));
                }
                return Err(AllocationError::RequirementTooLarge { requirement: sorted[i] });
            }
            let (bsize, prefix) = block_of(h);
            proof {
                crate::net::lemma_block_size_le(h as int);
            }
            if total + bsize > psize {
                proof {
                    assert(place(self, remaining, reserve, cursor as int, total as int) == Err::<
                        Seq<Ipv4Net>,
                        AllocationError,
                    >(
                        AllocationError::InsufficientSpace {
                            parent: self,
                            requested_total: (total + bsize) as u64,
                        },
                    ));
                }
                return Err(
                    AllocationError::InsufficientSpace {
                        parent: self,
                        requested_total: total + bsize,
                    },
                );
            }
            proof {
                lemma_block_size_pos(h as int);
                lemma_min_prefix_bounds(h as int);
                lemma_wf_end_bound(self);
            }
            let net = Ipv4Net { base: cursor as u32, prefix };
            proof {
                let rest = place_ok_seq(
                    self,
                    remaining.drop_first(),
                    reserve,
                    cursor as int + bsize,
                    total as int + bsize,
                );
                assert((subnets@ + (seq![net] + rest)) =~= (subnets@.push(net) + rest));
            }
            subnets.push(net);
            total = total + bsize;
            cursor = cursor + bsize;
            i = i + 1;
        }
        proof {
            assert(sorted@.skip(i as int) =~= Seq::<u32>::empty());
            assert(subnets@ + Seq::<Ipv4Net>::empty() =~= subnets@);
        }
        Ok(subnets)
    }
}

/// Types that can be carved into sub-networks by host-count requirements.
pub trait Vlsm: Sized {
    /// The condition under which the type may be subdivided.
    spec fn vlsm_wf(self) -> bool;

    /// Allocates one sub-network per required host count, largest first;
    /// `include_net_brd_addr` reserves two extra addresses per requirement
    /// for the network and broadcast addresses.
    fn vlsm(self, sizes: &Vec<u32>, include_net_brd_addr: bool) -> (r: Result<
        Vec<Ipv4Net>,
        AllocationError,
    >)
        requires
            self.vlsm_wf(),
    ;
}

impl Vlsm for Ipv4Net {
    open spec fn vlsm_wf(self) -> bool {
        self.wf()
    }

    fn vlsm(self, sizes: &Vec<u32>, include_net_brd_addr: bool) -> (r: Result<
        Vec<Ipv4Net>,
        AllocationError,
    >)
        ensures
            (match r {
                Ok(subnets) => allocate_spec(self, sizes@, include_net_brd_addr) == Ok::<
                    Seq<Ipv4Net>,
                    AllocationError,
                >(subnets@),
                Err(e) => allocate_spec(self, sizes@, include_net_brd_addr) == Err::<
                    Seq<Ipv4Net>,
                    AllocationError,
                >(e),
            }),
    {
        self.allocate(sizes, include_net_brd_addr)
    }
}

/// The sub-networks that a successful placement returns; arbitrary when the
/// placement fails.
spec fn place_ok_seq(
    parent: Ipv4Net,
    sorted: Seq<u32>,
    reserve: bool,
    cursor: int,
    total: int,
) -> Seq<Ipv4Net> {
    match place(parent, sorted, reserve, cursor, total) {
        Ok(rest) => rest,
        Err(_) => Seq::empty(),
    }
}

/// Computes the block for an effective host count `h`: the size of the
/// smallest fitting power-of-two block together with its prefix length.
fn block_of(h: u64) -> (r: (u64, u8))
    requires
        h <= 0x1_0000_0000,
    ensures
        r.1 as int == min_prefix(h as int),
        r.0 as int == block_size(h as int),
{
    let mut size: u64 = 1;
    let mut e: u8 = 0;
    proof {
        assert(pow2(0) == 1) by {
            vstd::arithmetic::power2::lemma_pow2(0);
            vstd::arithmetic::power::lemma_pow0(2);
        }
        lemma2_to64();
    }
    while size < h
        invariant
            h <= 0x1_0000_0000,
            e <= 32,
            size as int == pow2(e as nat),
            e == 0 || pow2((e - 1) as nat) < h,
            pow2(32) == 0x1_0000_0000,
        decreases 32 - e,
    {
        proof {
            if e >= 32 {
                if e > 32 {
                    lemma_pow2_strictly_increases(32, e as nat);
                }
                assert(false);
            }
            assert(pow2((e + 1) as nat) == 2 * pow2(e as nat)) by {
                vstd::arithmetic::power2::lemma_pow2_unfold((e + 1) as nat);
            }
            if e + 1 < 32 {
                lemma_pow2_strictly_increases((e + 1) as nat, 32);
            }
        }
        size = size * 2;
        e = e + 1;
    }
    proof {
        if h <= 1 {
            assert(e == 0) by {
                if e > 0 {
                    vstd::arithmetic::power2::lemma_pow2_pos((e - 1) as nat);
                }
            }
            assert(min_prefix(h as int) == 32);
            assert(block_size(h as int) == pow2(0));
        } else {
            lemma_min_prefix_unique(h as int, e as int);
        }
    }
    (size, 32 - e)
}

} // verus!
