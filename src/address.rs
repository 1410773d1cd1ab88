//! Splitting a 64-bit address into tag, set index and block offset.
use vstd::arithmetic::power2::{lemma_pow2_strictly_increases, lemma2_to64, pow2};
use vstd::bits::lemma_u64_shl_is_mul;
use vstd::prelude::*;

verus! {

/// The low `n` bits set.
pub open spec fn low_mask(n: u64) -> u64 {
    if n >= 64 {
        0xffff_ffff_ffff_ffffu64
    } else {
        ((1u64 << n) - 1) as u64
    }
}

/// The tag: the bits of `address` above its `s + b` low bits.
pub open spec fn tag_of(address: u64, s: u64, b: u64) -> u64 {
    if s + b >= 64 {
        0
    } else {
        address >> ((s + b) as u64)
    }
}

/// The set index: the `s` bits of `address` above its `b` low bits.
pub open spec fn set_index_of(address: u64, s: u64, b: u64) -> u64 {
    if b >= 64 {
        0
    } else {
        (address >> b) & low_mask(s)
    }
}

/// The address of the first byte of the block, given its tag and set index.
pub open spec fn reassemble(tag: u64, set_index: u64, s: u64, b: u64) -> u64 {
    (if s + b >= 64 {
        0u64
    } else {
        tag << ((s + b) as u64)
    }) | (if b >= 64 {
        0u64
    } else {
        set_index << b
    })
}

/// `address` with its low `b` bits cleared.
pub open spec fn block_base(address: u64, b: u64) -> u64 {
    address & !low_mask(b)
}

/// Splitting an address and putting tag and set index back in place gives
/// the address with its block offset cleared, for every geometry that fits
/// in 64 bits.
pub proof fn lemma_decode_round_trip(address: u64, s: u64, b: u64)
    requires
        s + b <= 64,
    ensures
        reassemble(tag_of(address, s, b), set_index_of(address, s, b), s, b) == block_base(
            address,
            b,
        ),
{
    let a = address;
    let r = reassemble(tag_of(address, s, b), set_index_of(address, s, b), s, b);
    if b >= 64 {
        assert(a & !0xffff_ffff_ffff_ffffu64 == 0u64 | 0u64) by (bit_vector);
        assert(r == 0u64 | 0u64);
        assert(r == block_base(a, b));
    } else if s >= 64 {
        assert(b == 0);
        assert(0u64 | (((a >> 0u64) & 0xffff_ffff_ffff_ffffu64) << 0u64) == a & !(((1u64 << 0u64) - 1u64) as u64))
            by (bit_vector);
        assert(r == block_base(a, b));
    } else if s + b >= 64 {
        assert(0u64 | (((a >> b) & (((1u64 << s) - 1u64) as u64)) << b) == a & !(((1u64 << b) - 1u64) as u64))
            by (bit_vector)
            requires
                s < 64,
                b < 64,
                s + b == 64,
        ;
        assert(r == block_base(a, b));
    } else {
        let n = (s + b) as u64;
        assert(((a >> n) << n) | (((a >> b) & (((1u64 << s) - 1u64) as u64)) << b) == a & !(((1u64 << b)
            - 1u64) as u64)) by (bit_vector)
            requires
                s < 64,
                b < 64,
                n == s + b,
                n < 64,
        ;
        assert(r == block_base(a, b));
    }
}

/// Splits `address` into its set index and its tag, for `2^s` sets of
/// blocks of `2^b` bytes.
pub fn decode_address(address: u64, s: usize, b: usize) -> (r: (usize, u64))
    requires
        s + b <= 64,
        s < usize::BITS,
    ensures
        r.0 as u64 == set_index_of(address, s as u64, b as u64),
        (r.0 as nat) < pow2(s as nat),
        r.1 == tag_of(address, s as u64, b as u64),
{
    let sb = (s + b) as u64;
    let tag: u64 = if sb >= 64 {
        0
    } else {
        address >> sb
    };
    let s64 = s as u64;
    assert((1u64 << s64) >= 1) by (bit_vector)
        requires
            s64 < 64,
    ;
    let set: u64 = if b >= 64 {
        0
    } else {
        (address >> (b as u64)) & ((1u64 << s64) - 1)
    };
    proof {
        let x = address >> (b as u64);
        assert(x & (((1u64 << s64) - 1u64) as u64) <= (1u64 << s64) - 1u64) by (bit_vector)
            requires
                s64 < 64,
        ;
        vstd::bits::lemma_u64_pow2_no_overflow(s64 as nat);
        lemma_u64_shl_is_mul(1, s64);
        lemma2_to64();
        if (s as nat) < usize::BITS as nat - 1 {
            lemma_pow2_strictly_increases(s as nat, (usize::BITS - 1) as nat);
        }
        assert(usize::BITS == 32 || usize::BITS == 64);
        assert(pow2(s as nat) <= usize::MAX);
    }
    (set as usize, tag)
}

} // verus!
