//! The block sizer: from an input length, a minimum block size and a maximum
//! block count, the size each block should have so that the resulting number
//! of blocks never exceeds the maximum.

use vstd::prelude::*;
use crate::chunks::ceil_div;
use vstd::arithmetic::div_mod::lemma_fundamental_div_mod;
use vstd::arithmetic::div_mod::lemma_fundamental_div_mod_converse;
use vstd::arithmetic::div_mod::lemma_div_is_ordered;
use vstd::arithmetic::div_mod::lemma_div_is_ordered_by_denominator;
use vstd::arithmetic::div_mod::lemma_mod_pos_bound;

verus! {

/// The block size chosen for an input of `len` elements, a minimum block size
/// `min_size` and at most `max_blocks` blocks: the floor of `len / max_blocks`,
/// clamped up to `min_size`, and otherwise rounded up by one when the division
/// leaves a remainder.
pub open spec fn block_size_spec(len: int, min_size: int, max_blocks: int) -> int
    recommends
        min_size >= 1,
        max_blocks >= 1,
{
    let base = len / max_blocks;
    if base < min_size {
        min_size
    } else if len % max_blocks != 0 {
        base + 1
    } else {
        base
    }
}

/// For any length bounded by `b * m`, at most `m` blocks of size `b` are
/// needed: `ceil(len / b) <= m`.
pub proof fn lemma_ceil_div_le(len: int, b: int, m: int)
    requires
        b >= 1,
        m >= 0,
        0 <= len,
        len <= b * m,
    ensures
        ceil_div(len, b) <= m,
{
    lemma_div_is_ordered(len + b - 1, b * m + b - 1, b);
    assert(b * m + b - 1 == m * b + (b - 1)) by (nonlinear_arith);
    lemma_fundamental_div_mod_converse(b * m + b - 1, b, m, b - 1);
}

/// The chosen block size never asks for more than `max_blocks` blocks: the
/// whole input fits in `max_blocks` blocks of that size.
pub proof fn lemma_block_size_bound(len: int, min_size: int, max_blocks: int)
    requires
        len >= 0,
        min_size >= 1,
        max_blocks >= 1,
    ensures
        block_size_spec(len, min_size, max_blocks) >= min_size,
        len <= block_size_spec(len, min_size, max_blocks) * max_blocks,
        ceil_div(len, block_size_spec(len, min_size, max_blocks)) <= max_blocks,
{
    let base = len / max_blocks;
    let rem = len % max_blocks;
    lemma_fundamental_div_mod(len, max_blocks);
    lemma_mod_pos_bound(len, max_blocks);
    let bsize = block_size_spec(len, min_size, max_blocks);
    if base < min_size {
        assert(len <= min_size * max_blocks) by (nonlinear_arith)
            requires
                len == max_blocks * base + rem,
                base <= min_size - 1,
                rem <= max_blocks - 1,
                max_blocks >= 1,
                min_size >= 1,
        ;
    } else if rem != 0 {
        assert(len <= (base + 1) * max_blocks) by (nonlinear_arith)
            requires
                len == max_blocks * base + rem,
                rem < max_blocks,
        ;
    } else {
        assert(len == base * max_blocks) by (nonlinear_arith)
            requires
                len == max_blocks * base + rem,
                rem == 0,
        ;
    }
    lemma_ceil_div_le(len, bsize, max_blocks);
}

/// Block sizer: computes the block size for splitting `len` items into at
/// most `max_blocks` contiguous blocks of at least `min_size` items each.
///
/// The result is exactly [`block_size_spec`]; in particular it is at least
/// `min_size`, and `len` items fit into at most `max_blocks` blocks of the
/// returned size.
pub fn calculate_block_size(len: usize, min_size: usize, max_blocks: usize) -> (bsize: usize)
    requires
        min_size >= 1,
        max_blocks >= 1,
    ensures
        bsize == block_size_spec(len as int, min_size as int, max_blocks as int),
        bsize >= min_size,
        len as int <= bsize as int * max_blocks as int,
        ceil_div(len as int, bsize as int) <= max_blocks as int,
{
    proof {
        lemma_block_size_bound(len as int, min_size as int, max_blocks as int);
    }
    let mut bsize = len / max_blocks;

    if bsize < min_size {
        bsize = min_size;
    } else {
        if len % max_blocks != 0 {
            proof {
                lemma_fundamental_div_mod(len as int, max_blocks as int);
                lemma_mod_pos_bound(len as int, max_blocks as int);
                if max_blocks == 1 {
                    assert(len as int % 1int == 0) by (nonlinear_arith);
                }
                lemma_div_is_ordered_by_denominator(len as int, 2, max_blocks as int);
                assert(len as int / 2 < usize::MAX);
            }
            bsize += 1
        }
    }
    bsize
}

} // verus!
