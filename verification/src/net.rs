//! IPv4 networks as plain 32-bit values, and the prefix-length arithmetic
//! behind VLSM sizing: the minimal prefix length whose block holds a given
//! number of addresses.

use vstd::prelude::*;
use vstd::arithmetic::power2::{
    pow2, lemma_pow2_unfold, lemma_pow2_pos, lemma_pow2_adds, lemma_pow2_strictly_increases,
    lemma2_to64,
};

verus! {

/// An IPv4 network: a 32-bit base address together with a prefix length, the
/// number of fixed high-order bits. The network covers `pow2(32 - prefix)`
/// consecutive addresses starting at `base`.
#[derive(Clone, Copy, PartialEq, Eq, Structural, Debug)]
pub struct Ipv4Net {
    pub base: u32,
    pub prefix: u8,
}

impl Ipv4Net {
    /// Number of addresses in the network, `2^(32 - prefix)`.
    pub open spec fn size_spec(self) -> int
        recommends
            self.prefix <= 32,
    {
        pow2((32 - self.prefix) as nat) as int
    }

    /// First address of the network's range.
    pub open spec fn start_spec(self) -> int {
        self.base as int
    }

    /// One past the last address of the network's range.
    pub open spec fn end_spec(self) -> int
        recommends
            self.prefix <= 32,
    {
        self.base + self.size_spec()
    }

    /// A well-formed network: the prefix length is at most 32 and the base
    /// address has all bits beyond the prefix cleared, i.e. it is aligned to
    /// the network size.
    pub open spec fn wf(self) -> bool {
        &&& self.prefix <= 32
        &&& self.base as int % self.size_spec() == 0
    }

    /// Builds a network from a base address and prefix length, rejecting a
    /// prefix length over 32 and a base address not aligned to it.
    pub fn new(base: u32, prefix: u8) -> (r: Option<Ipv4Net>)
        ensures
            match r {
                Some(n) => n.wf() && n.base == base && n.prefix == prefix,
                None => prefix > 32 || !(Ipv4Net { base, prefix }).wf(),
            },
    {
        if prefix > 32 {
            return None;
        }
        let size: u64 = pow2_u64(32 - prefix);
        proof {
            lemma_pow2_pos((32 - prefix) as nat);
        }
        if (base as u64) % size == 0 {
            Some(Ipv4Net { base, prefix })
        } else {
            None
        }
    }

    /// Number of addresses in the network.
    pub fn size(&self) -> (r: u64)
        requires
            self.wf(),
        ensures
            r as int == self.size_spec(),
    {
        pow2_u64(32 - self.prefix)
    }
}

/// Computes `2^e` for `e <= 32`.
pub fn pow2_u64(e: u8) -> (r: u64)
    requires
        e <= 32,
    ensures
        r as int == pow2(e as nat),
{
    let mut r: u64 = 1;
    let mut i: u8 = 0;
    proof {
        assert(pow2(0) == 1) by {
            vstd::arithmetic::power2::lemma_pow2(0);
            vstd::arithmetic::power::lemma_pow0(2);
        }
    }
    while i < e
        invariant
            i <= e,
            e <= 32,
            r as int == pow2(i as nat),
            r <= 0x1_0000_0000u64,
        decreases e - i,
    {
        proof {
            lemma_pow2_unfold((i + 1) as nat);
            if i + 1 < 32 {
                lemma_pow2_strictly_increases((i + 1) as nat, 32);
            }
            lemma2_to64();
        }
        r = r * 2;
        i = i + 1;
    }
    r
}

/// The minimal prefix length whose network holds at least `h` addresses:
/// the unique `p` in `[0, 32]` with `pow2(32 - p) >= h` and, unless `p` is
/// 32, `pow2(31 - p) < h`. For `h` above `2^32` no prefix length fits and
/// the result is negative.
pub open spec fn min_prefix(h: int) -> int
    recommends
        0 <= h,
    decreases h,
{
    if h <= 1 {
        32
    } else {
        min_prefix((h + 1) / 2) - 1
    }
}

/// The size of the smallest power-of-two block holding at least `h`
/// addresses, `pow2(32 - min_prefix(h))`.
pub open spec fn block_size(h: int) -> int
    recommends
        0 <= h <= 0x1_0000_0000,
{
    pow2((32 - min_prefix(h)) as nat) as int
}

/// `min_prefix` is the minimal fitting prefix length: its block holds `h`
/// addresses and the next shorter block does not.
pub proof fn lemma_min_prefix_bounds(h: int)
    requires
        0 <= h <= 0x1_0000_0000,
    ensures
        0 <= min_prefix(h) <= 32,
        pow2((32 - min_prefix(h)) as nat) >= h,
        min_prefix(h) < 32 ==> pow2((31 - min_prefix(h)) as nat) < h,
    decreases h,
{
    if h <= 1 {
        assert(pow2(0) == 1) by {
            vstd::arithmetic::power2::lemma_pow2(0);
            vstd::arithmetic::power::lemma_pow0(2);
        }
    } else {
        let h2 = (h + 1) / 2;
        lemma_min_prefix_bounds(h2);
        let mp2 = min_prefix(h2);
        let mp = mp2 - 1;
        assert(min_prefix(h) == mp);
        if mp2 == 0 {
            // Then pow2(31) < h2, so h >= 2 * h2 - 1 > 2^32, contradicting the bound on h.
            assert(pow2(31) < h2);
            assert(pow2(32) == 2 * pow2(31)) by {
                lemma_pow2_unfold(32);
            }
            assert(h >= 2 * h2 - 1);
            assert(pow2(32) == 0x1_0000_0000) by {
                lemma2_to64();
            }
            assert(false);
        }
        assert(0 <= mp <= 31);
        assert(pow2((32 - mp) as nat) == 2 * pow2((32 - mp2) as nat)) by {
            lemma_pow2_unfold((32 - mp) as nat);
        }
        assert(2 * h2 >= h);
        assert(pow2((32 - mp) as nat) >= h);
        if mp2 == 32 {
            // h2 <= 1 and h >= 2 force h == 2; the half-size block holds one address.
            if h2 >= 2 {
                lemma_min_prefix_le_32((h2 + 1) / 2);
                assert(false);
            }
            assert(h == 2);
            assert(pow2((31 - mp) as nat) == pow2(0));
            assert(pow2(0) == 1) by {
                vstd::arithmetic::power2::lemma_pow2(0);
                vstd::arithmetic::power::lemma_pow0(2);
            }
        } else {
            assert(pow2((31 - mp2) as nat) < h2);
            assert(pow2((31 - mp) as nat) == 2 * pow2((31 - mp2) as nat)) by {
                lemma_pow2_unfold((31 - mp) as nat);
            }
            assert(2 * h2 <= h + 1);
            assert(pow2((31 - mp) as nat) <= 2 * h2 - 2);
        }
    }
}

/// The sandwich `pow2(e) >= h > pow2(e - 1)` determines `e`, hence the
/// minimal prefix length, uniquely.
pub proof fn lemma_min_prefix_unique(h: int, e: int)
    requires
        1 <= h <= 0x1_0000_0000,
        0 <= e <= 32,
        pow2(e as nat) >= h,
        e == 0 || pow2((e - 1) as nat) < h,
    ensures
        min_prefix(h) == 32 - e,
{
    lemma_min_prefix_bounds(h);
    let mp = min_prefix(h);
    if e < 32 - mp {
        assert(pow2(e as nat) < pow2((32 - mp) as nat)) by {
            lemma_pow2_strictly_increases(e as nat, (32 - mp) as nat);
        }
        assert(mp < 32);
        assert(pow2(e as nat) <= pow2((31 - mp) as nat)) by {
            if e < 31 - mp {
                lemma_pow2_strictly_increases(e as nat, (31 - mp) as nat);
            }
        }
        assert(false);
    }
    if e > 32 - mp {
        assert(e >= 1);
        assert(pow2((32 - mp) as nat) <= pow2((e - 1) as nat)) by {
            if 32 - mp < e - 1 {
                lemma_pow2_strictly_increases((32 - mp) as nat, (e - 1) as nat);
            }
        }
        assert(pow2((e - 1) as nat) < h);
        assert(false);
    }
}

/// A larger host requirement never gets a longer prefix (a smaller block).
pub proof fn lemma_min_prefix_antitone(h1: int, h2: int)
    requires
        0 <= h1 <= h2,
    ensures
        min_prefix(h1) >= min_prefix(h2),
    decreases h2,
{
    if h1 <= 1 {
        lemma_min_prefix_le_32(h2);
    } else {
        lemma_min_prefix_antitone((h1 + 1) / 2, (h2 + 1) / 2);
    }
}

/// Every minimal prefix length is at most 32.
proof fn lemma_min_prefix_le_32(h: int)
    requires
        0 <= h,
    ensures
        min_prefix(h) <= 32,
    decreases h,
{
    if h > 1 {
        lemma_min_prefix_le_32((h + 1) / 2);
    }
}

/// Every block holds at least one address.
pub proof fn lemma_block_size_pos(h: int)
    ensures
        block_size(h) >= 1,
{
    lemma_pow2_pos((32 - min_prefix(h)) as nat);
}

/// No block is larger than the whole 32-bit address space.
pub proof fn lemma_block_size_le(h: int)
    requires
        0 <= h <= 0x1_0000_0000,
    ensures
        block_size(h) <= 0x1_0000_0000,
{
    lemma_min_prefix_bounds(h);
    if min_prefix(h) > 0 {
        lemma_pow2_strictly_increases((32 - min_prefix(h)) as nat, 32);
    }
    lemma2_to64();
}

/// A larger host requirement never gets a smaller block.
pub proof fn lemma_block_size_monotone(h1: int, h2: int)
    requires
        0 <= h1 <= h2 <= 0x1_0000_0000,
    ensures
        block_size(h1) <= block_size(h2),
{
    lemma_min_prefix_antitone(h1, h2);
    lemma_min_prefix_bounds(h1);
    lemma_min_prefix_bounds(h2);
    if min_prefix(h2) < min_prefix(h1) {
        lemma_pow2_strictly_increases(
            (32 - min_prefix(h1)) as nat,
            (32 - min_prefix(h2)) as nat,
        );
    }
}

/// A well-formed network's range stays inside the 32-bit address space.
pub proof fn lemma_wf_end_bound(n: Ipv4Net)
    requires
        n.wf(),
    ensures
        n.end_spec() <= 0x1_0000_0000,
{
    let s = n.size_spec();
    let p = n.prefix as nat;
    lemma_pow2_pos((32 - n.prefix) as nat);
    lemma_pow2_pos(p);
    assert(pow2((32 - n.prefix) as nat) * pow2(p) == pow2(32)) by {
        lemma_pow2_adds((32 - n.prefix) as nat, p);
    }
    assert(pow2(32) == 0x1_0000_0000) by {
        lemma2_to64();
    }
    let q = n.base as int / s;
    vstd::arithmetic::div_mod::lemma_fundamental_div_mod(n.base as int, s);
    assert(n.base as int == q * s);
    assert(q >= 0) by (nonlinear_arith)
        requires
            n.base as int == q * s,
            s >= 1,
            n.base >= 0,
    ;
    assert(q < pow2(p)) by (nonlinear_arith)
        requires
            n.base as int == q * s,
            s * pow2(p) == 0x1_0000_0000,
            n.base < 0x1_0000_0000,
            s >= 1,
            q >= 0,
    ;
    assert((q + 1) * s <= pow2(p) * s) by (nonlinear_arith)
        requires
            q + 1 <= pow2(p),
            s >= 1,
    ;
    assert(n.base + s == (q + 1) * s) by (nonlinear_arith)
        requires
            n.base as int == q * s,
    ;
}

/// A value divisible by one power of two is divisible by every smaller one.
pub proof fn lemma_aligned_to_smaller(x: int, e1: nat, e2: nat)
    requires
        0 <= x,
        e1 <= e2,
        x % (pow2(e2) as int) == 0,
    ensures
        x % (pow2(e1) as int) == 0,
{
    let big = pow2(e2) as int;
    let small = pow2(e1) as int;
    lemma_pow2_pos(e1);
    lemma_pow2_pos(e2);
    assert(pow2(e1) * pow2((e2 - e1) as nat) == pow2(e2)) by {
        lemma_pow2_adds(e1, (e2 - e1) as nat);
    }
    let q = x / big;
    vstd::arithmetic::div_mod::lemma_fundamental_div_mod(x, big);
    assert(x == q * big);
    let m = q * (pow2((e2 - e1) as nat) as int);
    assert(x == m * small) by (nonlinear_arith)
        requires
            x == q * big,
            big == small * (pow2((e2 - e1) as nat) as int),
            m == q * (pow2((e2 - e1) as nat) as int),
    ;
    vstd::arithmetic::div_mod::lemma_mod_multiples_basic(m, small);
}

} // verus!
