//! The chunking model: a spec-level partition of a sequence into contiguous
//! blocks of a given size, the lemmas that characterise it, and the verified
//! splitter and joiner that realise it on vectors.

use vstd::prelude::*;
use vstd::arithmetic::div_mod::lemma_fundamental_div_mod;
use vstd::arithmetic::div_mod::lemma_fundamental_div_mod_converse;
use vstd::arithmetic::div_mod::lemma_mod_pos_bound;

verus! {

/// `ceil(len / b)` over the integers, for a positive block size `b`.
pub open spec fn ceil_div(len: int, b: int) -> int
    recommends
        b >= 1,
{
    (len + b - 1) / b
}

/// The partition of `s` into contiguous blocks of `b` elements each, the last
/// block possibly shorter. Concatenating the blocks in order gives back `s`.
pub open spec fn chunks_of<T>(s: Seq<T>, b: int) -> Seq<Seq<T>>
    recommends
        b >= 1,
    decreases s.len(),
{
    if b < 1 || s.len() == 0 {
        Seq::empty()
    } else if s.len() <= b {
        seq![s]
    } else {
        seq![s.take(b)] + chunks_of(s.skip(b), b)
    }
}

/// The sequence of views of a vector of vectors: the mathematical value that
/// a `Vec<Vec<T>>` of blocks stands for.
pub open spec fn views_of<T>(blocks: Seq<Vec<T>>) -> Seq<Seq<T>> {
    blocks.map_values(|block: Vec<T>| block@)
}

/// The chunking partitions without loss or reorder: concatenating the blocks
/// of `s` in order gives back `s` exactly.
pub proof fn lemma_chunks_of_flatten<T>(s: Seq<T>, b: int)
    requires
        b >= 1,
    ensures
        chunks_of(s, b).flatten() == s,
    decreases s.len(),
{
    let cs = chunks_of(s, b);
    if s.len() == 0 {
        assert(cs.flatten() =~= s);
    } else if s.len() <= b {
        assert(cs == seq![s]);
        assert(cs.drop_first() =~= Seq::<Seq<T>>::empty());
        assert(cs.flatten() == s + cs.drop_first().flatten());
        assert(cs.flatten() =~= s);
    } else {
        lemma_chunks_of_flatten(s.skip(b), b);
        assert(cs.first() == s.take(b));
        assert(cs.drop_first() =~= chunks_of(s.skip(b), b));
        assert(cs.flatten() == s.take(b) + chunks_of(s.skip(b), b).flatten());
        assert(s.take(b) + s.skip(b) =~= s);
    }
}

/// The number of blocks is exactly `ceil(len / b)`.
pub proof fn lemma_chunks_of_count<T>(s: Seq<T>, b: int)
    requires
        b >= 1,
    ensures
        chunks_of(s, b).len() == ceil_div(s.len() as int, b),
    decreases s.len(),
{
    let len = s.len() as int;
    if s.len() == 0 {
        lemma_fundamental_div_mod_converse(b - 1, b, 0, b - 1);
    } else if s.len() <= b {
        lemma_fundamental_div_mod_converse(len + b - 1, b, 1, len - 1);
    } else {
        lemma_chunks_of_count(s.skip(b), b);
        let q = (len - b + b - 1) / b;
        lemma_fundamental_div_mod(len - b + b - 1, b);
        lemma_mod_pos_bound(len - b + b - 1, b);
        let r = (len - b + b - 1) % b;
        assert((q + 1) * b + r == b * q + r + b) by (nonlinear_arith);
        lemma_fundamental_div_mod_converse(len + b - 1, b, q + 1, r);
    }
}

/// Every block is non-empty and holds at most `b` elements; every block but
/// the last holds exactly `b`.
pub proof fn lemma_chunks_of_lens<T>(s: Seq<T>, b: int)
    requires
        b >= 1,
    ensures
        forall|i: int|
            0 <= i < chunks_of(s, b).len() ==> 1 <= (#[trigger] chunks_of(s, b)[i]).len() <= b,
        forall|i: int|
            0 <= i < chunks_of(s, b).len() - 1 ==> (#[trigger] chunks_of(s, b)[i]).len() == b,
    decreases s.len(),
{
    if s.len() > b {
        lemma_chunks_of_lens(s.skip(b), b);
        let cs = chunks_of(s, b);
        assert forall|i: int| 0 <= i < cs.len() implies 1 <= (#[trigger] cs[i]).len() <= b by {
            if i > 0 {
                assert(cs[i] == chunks_of(s.skip(b), b)[i - 1]);
            }
        }
        assert forall|i: int| 0 <= i < cs.len() - 1 implies (#[trigger] cs[i]).len() == b by {
            if i > 0 {
                assert(cs[i] == chunks_of(s.skip(b), b)[i - 1]);
            }
        }
    }
}

/// The element at position `j` of block `i` is the input element at position
/// `b * i + j`: blocks are contiguous and in input order.
pub proof fn lemma_chunks_of_index<T>(s: Seq<T>, b: int, i: int, j: int)
    requires
        b >= 1,
        0 <= i < chunks_of(s, b).len(),
        0 <= j < chunks_of(s, b)[i].len(),
    ensures
        0 <= b * i + j < s.len(),
        chunks_of(s, b)[i][j] == s[b * i + j],
    decreases s.len(),
{
    if s.len() <= b {
        assert(b * 0 + j == j);
    } else {
        if i == 0 {
            assert(chunks_of(s, b)[0] == s.take(b));
            assert(b * 0 + j == j);
        } else {
            assert(chunks_of(s, b)[i] == chunks_of(s.skip(b), b)[i - 1]);
            lemma_chunks_of_index(s.skip(b), b, i - 1, j);
            assert(b * i + j == b + (b * (i - 1) + j)) by (nonlinear_arith);
            assert(s.skip(b)[b * (i - 1) + j] == s[b + (b * (i - 1) + j)]);
        }
    }
}

/// Flattening preserves a pointwise relation: if `xs` and `ys` have the same
/// block shape and corresponding elements are related by `p`, then the
/// flattened sequences have equal length and are related by `p` position by
/// position.
pub proof fn lemma_flatten_pointwise<A, B>(xs: Seq<Seq<A>>, ys: Seq<Seq<B>>, p: spec_fn(A, B) -> bool)
    requires
        xs.len() == ys.len(),
        forall|i: int| 0 <= i < xs.len() ==> (#[trigger] xs[i]).len() == ys[i].len(),
        forall|i: int, j: int|
            0 <= i < xs.len() && 0 <= j < xs[i].len() ==> #[trigger] p(xs[i][j], ys[i][j]),
    ensures
        xs.flatten().len() == ys.flatten().len(),
        forall|k: int|
            0 <= k < xs.flatten().len() ==> #[trigger] p(xs.flatten()[k], ys.flatten()[k]),
    decreases xs.len(),
{
    if xs.len() == 0 {
        assert(xs.flatten() =~= Seq::<A>::empty());
        assert(ys.flatten() =~= Seq::<B>::empty());
    } else {
        let xt = xs.drop_first();
        let yt = ys.drop_first();
        assert forall|i: int| 0 <= i < xt.len() implies (#[trigger] xt[i]).len() == yt[i].len() by {
            assert(xt[i] == xs[i + 1]);
            assert(yt[i] == ys[i + 1]);
        }
        assert forall|i: int, j: int|
            0 <= i < xt.len() && 0 <= j < xt[i].len() implies #[trigger] p(xt[i][j], yt[i][j]) by {
            assert(xt[i] == xs[i + 1]);
            assert(yt[i] == ys[i + 1]);
            assert(p(xs[i + 1][j], ys[i + 1][j]));
        }
        lemma_flatten_pointwise(xt, yt, p);
        assert(xs.flatten() == xs.first() + xt.flatten());
        assert(ys.flatten() == ys.first() + yt.flatten());
        assert(xs.first().len() == ys.first().len());
        assert forall|k: int|
            0 <= k < xs.flatten().len() implies #[trigger] p(xs.flatten()[k], ys.flatten()[k]) by {
            if k < xs.first().len() {
                assert(xs.flatten()[k] == xs.first()[k]);
                assert(ys.flatten()[k] == ys.first()[k]);
                assert(p(xs[0][k], ys[0][k]));
            } else {
                let k2 = k - xs.first().len();
                assert(xs.flatten()[k] == xt.flatten()[k2]);
                assert(ys.flatten()[k] == yt.flatten()[k2]);
                assert(p(xt.flatten()[k2], yt.flatten()[k2]));
            }
        }
    }
}

/// Splits `v` into contiguous blocks of `bsize` elements each, the last block
/// possibly shorter; the blocks are exactly [`chunks_of`] of the input.
pub fn split_into_blocks<T>(v: Vec<T>, bsize: usize) -> (blocks: Vec<Vec<T>>)
    requires
        bsize >= 1,
    ensures
        views_of(blocks@) == chunks_of(v@, bsize as int),
        blocks@.len() == ceil_div(v@.len() as int, bsize as int),
{
    let ghost orig = v@;
    let ghost b = bsize as int;
    let mut rest = v;
    let mut blocks: Vec<Vec<T>> = Vec::new();
    while rest.len() > bsize
        invariant
            bsize >= 1,
            b == bsize as int,
            chunks_of(orig, b) == views_of(blocks@) + chunks_of(rest@, b),
        decreases rest@.len(),
    {
        let ghost old_rest = rest@;
        let ghost old_blocks = blocks@;
        let tail = rest.split_off(bsize);
        proof {
            assert(rest@ =~= old_rest.take(b));
            assert(tail@ =~= old_rest.skip(b));
        }
        blocks.push(rest);
        rest = tail;
        proof {
            assert(views_of(blocks@) =~= views_of(old_blocks).push(old_rest.take(b)));
            assert(chunks_of(old_rest, b) == seq![old_rest.take(b)] + chunks_of(old_rest.skip(b), b));
            assert(views_of(old_blocks) + chunks_of(old_rest, b) =~= views_of(blocks@) + chunks_of(
                rest@,
                b,
            ));
        }
    }
    let ghost last = rest@;
    let ghost pre_blocks = blocks@;
    if rest.len() > 0 {
        blocks.push(rest);
        proof {
            assert(chunks_of(last, b) == seq![last]);
            assert(views_of(blocks@) =~= views_of(pre_blocks).push(last));
            assert(views_of(pre_blocks) + chunks_of(last, b) =~= views_of(blocks@));
        }
    } else {
        proof {
            assert(chunks_of(last, b) =~= Seq::<Seq<T>>::empty());
            assert(views_of(pre_blocks) + chunks_of(last, b) =~= views_of(blocks@));
        }
    }
    proof {
        lemma_chunks_of_count(orig, b);
        assert(blocks@.len() == views_of(blocks@).len());
    }
    blocks
}

/// Concatenates the blocks in order into one output vector: the ordered
/// fan-in. The result is exactly the flattening of the blocks' contents.
pub fn concat_blocks<R>(blocks: Vec<Vec<R>>) -> (r: Vec<R>)
    ensures
        r@ == views_of(blocks@).flatten(),
{
    let ghost orig = views_of(blocks@);
    let mut rest = blocks;
    let mut out: Vec<R> = Vec::new();
    while rest.len() > 0
        invariant
            out@ + views_of(rest@).flatten() == orig.flatten(),
        decreases rest@.len(),
    {
        let ghost old_rest = rest@;
        let ghost old_out = out@;
        let mut block = rest.remove(0);
        proof {
            assert(block == old_rest[0]);
            assert(views_of(rest@) =~= views_of(old_rest).drop_first());
            assert(views_of(old_rest).flatten() == block@ + views_of(rest@).flatten());
        }
        out.append(&mut block);
        proof {
            assert(out@ + views_of(rest@).flatten() =~= (old_out + views_of(old_rest).flatten()));
        }
    }
    proof {
        assert(views_of(rest@).flatten() =~= Seq::<R>::empty());
        assert(out@ =~= orig.flatten());
    }
    out
}

} // verus!
