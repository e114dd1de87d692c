//! A data-parallel map utility: applies a transformation to every element of
//! an owned sequence, either sequentially or by splitting the input into
//! contiguous blocks that independent workers may process, then joining the
//! per-block results back into one ordered output.
//!
//! The decision-and-dispatch logic lives here and is verified: the block-size
//! computation ([`calculate_block_size`]), the chunking and ordered fan-in
//! ([`chunks::split_into_blocks`], [`chunks::concat_blocks`]), the sequential
//! mapper ([`apply_to_all`]), and the top-level policy ([`compute`]). Actual
//! worker threads are an embedding concern: a host program spawns one worker
//! per block and runs [`apply_to_all`] on it, which this crate's contracts
//! cover block by block.

use vstd::prelude::*;

pub mod chunks;
pub mod sizing;

pub use chunks::concat_blocks;
pub use chunks::split_into_blocks;
pub use sizing::calculate_block_size;

use crate::chunks::chunks_of;
use crate::chunks::lemma_chunks_of_flatten;
use crate::chunks::lemma_chunks_of_index;
use crate::chunks::lemma_flatten_pointwise;
use crate::chunks::views_of;

verus! {

/// Sequential mapper: applies `f` to every element of `v` in order, returning
/// the sequence of results.
///
/// The contract is higher-order: every output element is a possible result of
/// `f` on the corresponding input element.
pub fn apply_to_all<T, R, F: Fn(T) -> R>(v: Vec<T>, f: F) -> (r: Vec<R>)
    requires
        forall|i: int| 0 <= i < v@.len() ==> call_requires(f, (v@[i],)),
    ensures
        r@.len() == v@.len(),
        forall|i: int| 0 <= i < v@.len() ==> call_ensures(f, (v@[i],), #[trigger] r@[i]),
{
    let ghost orig = v@;
    let mut rest = v;
    let mut r: Vec<R> = Vec::new();
    while rest.len() > 0
        invariant
            r@.len() + rest@.len() == orig.len(),
            rest@ == orig.skip(r@.len() as int),
            forall|i: int| 0 <= i < orig.len() ==> call_requires(f, (orig[i],)),
            forall|i: int| 0 <= i < r@.len() ==> call_ensures(f, (orig[i],), #[trigger] r@[i]),
        decreases rest@.len(),
    {
        let ghost done = r@.len() as int;
        let x = rest.remove(0);
        proof {
            assert(x == orig.skip(done)[0]);
            assert(x == orig[done]);
            assert(rest@ =~= orig.skip(done + 1));
        }
        let y = f(x);
        r.push(y);
    }
    r
}

/// Block dispatcher: splits `v` into contiguous blocks of `bsize` elements,
/// maps every block with [`apply_to_all`], and concatenates the per-block
/// results in block order.
///
/// This is the fan-out/fan-in logic of the parallel path: a host program may
/// run each block's [`apply_to_all`] on a worker of its own and join them in
/// order, which yields the same output this function is proved to produce.
pub fn apply_in_blocks<T, R, F: Fn(T) -> R + Copy>(v: Vec<T>, f: F, bsize: usize) -> (r: Vec<R>)
    requires
        bsize >= 1,
        forall|i: int| 0 <= i < v@.len() ==> call_requires(f, (v@[i],)),
    ensures
        r@.len() == v@.len(),
        forall|i: int| 0 <= i < v@.len() ==> call_ensures(f, (v@[i],), #[trigger] r@[i]),
{
    let ghost orig = v@;
    let ghost b = bsize as int;
    let ghost cs = chunks_of(orig, b);
    let ghost rel = |x: T, y: R| call_ensures(f, (x,), y);
    let mut blocks = split_into_blocks(v, bsize);
    let mut mapped: Vec<Vec<R>> = Vec::new();
    while blocks.len() > 0
        invariant
            bsize >= 1,
            b == bsize as int,
            cs == chunks_of(orig, b),
            forall|i: int| 0 <= i < orig.len() ==> call_requires(f, (orig[i],)),
            mapped@.len() + blocks@.len() == cs.len(),
            views_of(blocks@) == cs.skip(mapped@.len() as int),
            forall|i: int| 0 <= i < mapped@.len() ==> (#[trigger] mapped@[i])@.len() == cs[i].len(),
            forall|i: int, j: int|
                0 <= i < mapped@.len() && 0 <= j < cs[i].len() ==> call_ensures(
                    f,
                    (cs[i][j],),
                    #[trigger] mapped@[i]@[j],
                ),
        decreases blocks@.len(),
    {
        let ghost done = mapped@.len() as int;
        let ghost old_blocks = blocks@;
        let block = blocks.remove(0);
        proof {
            assert(views_of(old_blocks)[0] == block@);
            assert(block@ == cs.skip(done)[0]);
            assert(block@ == cs[done]);
            assert(views_of(blocks@) =~= views_of(old_blocks).drop_first());
            assert(views_of(blocks@) =~= cs.skip(done + 1));
            assert forall|j: int| 0 <= j < block@.len() implies call_requires(
                f,
                (block@[j],),
            ) by {
                lemma_chunks_of_index(orig, b, done, j);
            }
        }
        let row = apply_to_all(block, f);
        mapped.push(row);
    }
    proof {
        assert(views_of(mapped@).len() == cs.len());
        assert forall|i: int| 0 <= i < cs.len() implies (#[trigger] views_of(mapped@)[i]).len()
            == cs[i].len() by {
            assert(views_of(mapped@)[i] == mapped@[i]@);
        }
        assert forall|i: int, j: int|
            0 <= i < cs.len() && 0 <= j < cs[i].len() implies #[trigger] rel(
            cs[i][j],
            views_of(mapped@)[i][j],
        ) by {
            assert(views_of(mapped@)[i] == mapped@[i]@);
            assert(call_ensures(f, (cs[i][j],), mapped@[i]@[j]));
        }
        lemma_flatten_pointwise(cs, views_of(mapped@), rel);
        lemma_chunks_of_flatten(orig, b);
    }
    let out = concat_blocks(mapped);
    proof {
        assert forall|i: int| 0 <= i < orig.len() implies call_ensures(
            f,
            (orig[i],),
            #[trigger] out@[i],
        ) by {
            assert(rel(cs.flatten()[i], views_of(mapped@).flatten()[i]));
        }
    }
    out
}

/// The single public entry point: maps `f` over `v`, sequentially when the
/// input is shorter than `threshold`, and otherwise block by block with the
/// block size chosen by [`calculate_block_size`] from `(len, threshold,
/// max_blocks)`.
///
/// Whatever the policy parameters, the output has the input's length and its
/// element at each position is a result of `f` on the input element at that
/// position.
pub fn compute<T, R, F: Fn(T) -> R + Copy>(
    v: Vec<T>,
    f: F,
    threshold: usize,
    max_blocks: usize,
) -> (r: Vec<R>)
    requires
        threshold >= 1,
        max_blocks >= 1,
        forall|i: int| 0 <= i < v@.len() ==> call_requires(f, (v@[i],)),
    ensures
        r@.len() == v@.len(),
        forall|i: int| 0 <= i < v@.len() ==> call_ensures(f, (v@[i],), #[trigger] r@[i]),
{
    let len = v.len();
    if len < threshold {
        return apply_to_all(v, f);
    }
    let bsize = calculate_block_size(len, threshold, max_blocks);
    apply_in_blocks(v, f, bsize)
}

/// When the transformation is deterministic — every result it can return for
/// `x` equals `g(x)` for one spec-level function `g` — any output meeting
/// [`compute`]'s contract is exactly the spec-level map of `g` over the input.
pub proof fn lemma_deterministic_result<T, R, F: Fn(T) -> R>(
    f: F,
    g: spec_fn(T) -> R,
    v: Seq<T>,
    r: Seq<R>,
)
    requires
        forall|x: T, y: R| #[trigger] call_ensures(f, (x,), y) ==> y == g(x),
        r.len() == v.len(),
        forall|i: int| 0 <= i < v.len() ==> call_ensures(f, (v[i],), #[trigger] r[i]),
    ensures
        r == v.map_values(g),
{
    assert forall|i: int| 0 <= i < v.len() implies r[i] == v.map_values(g)[i] by {
        assert(call_ensures(f, (v[i],), r[i]));
    }
    assert(r =~= v.map_values(g));
}

/// Configuration independence: for a deterministic transformation, two
/// outputs that both meet [`compute`]'s contract on the same input are equal,
/// whatever `threshold` and `max_blocks` produced each of them. Parallelism
/// is a performance concern only, never a correctness one.
pub proof fn lemma_config_independence<T, R, F: Fn(T) -> R>(
    f: F,
    g: spec_fn(T) -> R,
    v: Seq<T>,
    r1: Seq<R>,
    r2: Seq<R>,
)
    requires
        forall|x: T, y: R| #[trigger] call_ensures(f, (x,), y) ==> y == g(x),
        r1.len() == v.len(),
        forall|i: int| 0 <= i < v.len() ==> call_ensures(f, (v[i],), #[trigger] r1[i]),
        r2.len() == v.len(),
        forall|i: int| 0 <= i < v.len() ==> call_ensures(f, (v[i],), #[trigger] r2[i]),
    ensures
        r1 == r2,
{
    lemma_deterministic_result(f, g, v, r1);
    lemma_deterministic_result(f, g, v, r2);
}

} // verus!
