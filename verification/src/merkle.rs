//! The Merkle digest builder: tree digest and capital buffers computed from
//! leaf data, with single- or multi-device algorithm selection.
//!
//! A digest is four field words. The digests buffer holds every internal
//! node hash below the cap, level by level from the leaf hashes upwards,
//! each level left to right; the capitals buffer holds the node hashes
//! exactly `cap_height` levels from the root. Both are pinned to the
//! recursive node-hash specification `node_hash`.

use vstd::prelude::*;
use vstd::arithmetic::power2::pow2;
use crate::buffer::Buffer;
use crate::context::{Context, MAX_LOG_DOMAIN_SIZE};
use crate::error::{translate_status, Error};
use crate::field::{add_f, add_mod, mul_f, mul_mod};
use crate::stream::Stream;

verus! {

/// Mixing constant of the digest permutation.
pub const MIX_CONSTANT: u64 = 0x9e37_79b9_7f4a_7c15;

/// Initialization words of the digest state.
pub const IV_LEAF: u64 = 0x51b9_25b7_3c48_8c13;
pub const IV_NODE: u64 = 0xa409_8bc5_6ee1_79d5;
pub const IV_B: u64 = 0x6a09_e667_f3bc_c908;
pub const IV_C: u64 = 0xbb67_ae85_84ca_a73b;

/// One absorption step of the digest state: the incoming word is folded
/// into the last lane and diffused into every other lane.
pub open spec fn absorb(st: Seq<u64>, x: u64) -> Seq<u64> {
    let m = mul_f(add_f(st[3], x), MIX_CONSTANT);
    seq![m, add_f(st[0], m), add_f(st[1], m), add_f(st[2], m)]
}

/// Absorbs the first `t` words of `xs`, in order.
pub open spec fn absorb_all(st: Seq<u64>, xs: Seq<u64>, t: nat) -> Seq<u64>
    decreases t,
{
    if t == 0 {
        st
    } else {
        absorb(absorb_all(st, xs, (t - 1) as nat), xs[t - 1])
    }
}

/// The initial state for hashing a leaf (`tag` distinguishes leaf hashing
/// from node combination).
pub open spec fn iv(tag: u64) -> Seq<u64> {
    seq![tag, IV_B, IV_C, MIX_CONSTANT]
}

/// Digest of one leaf vector.
pub open spec fn hash_leaf(leaf: Seq<u64>) -> Seq<u64> {
    absorb_all(iv(IV_LEAF), leaf, leaf.len())
}

/// Digest of two child digests.
pub open spec fn hash_two(a: Seq<u64>, b: Seq<u64>) -> Seq<u64> {
    absorb_all(iv(IV_NODE), a + b, 8)
}

/// An absorbed state always spans four lanes.
pub proof fn lemma_absorb_all_len(st: Seq<u64>, xs: Seq<u64>, t: nat)
    requires
        st.len() == 4,
    ensures
        absorb_all(st, xs, t).len() == 4,
    decreases t,
{
    if t > 0 {
        lemma_absorb_all_len(st, xs, (t - 1) as nat);
    }
}

/// The hash of the node `i` levels-above-leaves `h` in the tree over
/// `leaves` (flat, `leaf_size` words per leaf): at height zero the digest
/// of leaf `i`, above that the digest of the node's two children.
pub open spec fn node_hash(leaves: Seq<u64>, leaf_size: nat, h: nat, i: nat) -> Seq<u64>
    decreases h,
{
    if h == 0 {
        hash_leaf(leaves.subrange((i * leaf_size) as int, (i * leaf_size + leaf_size) as int))
    } else {
        hash_two(
            node_hash(leaves, leaf_size, (h - 1) as nat, 2 * i),
            node_hash(leaves, leaf_size, (h - 1) as nat, 2 * i + 1),
        )
    }
}

/// Every node hash spans four words.
pub proof fn lemma_node_hash_len(leaves: Seq<u64>, leaf_size: nat, h: nat, i: nat)
    ensures
        node_hash(leaves, leaf_size, h, i).len() == 4,
    decreases h,
{
    if h == 0 {
        let sub = leaves.subrange((i * leaf_size) as int, (i * leaf_size + leaf_size) as int);
        lemma_absorb_all_len(iv(IV_LEAF), sub, sub.len());
    } else {
        let a = node_hash(leaves, leaf_size, (h - 1) as nat, 2 * i);
        let b = node_hash(leaves, leaf_size, (h - 1) as nat, 2 * i + 1);
        lemma_absorb_all_len(iv(IV_NODE), a + b, 8);
    }
}

/// The flat words of the nodes `[i0, i0 + cnt)` of the level `h` above the
/// leaves, left to right.
pub open spec fn level_slice(leaves: Seq<u64>, leaf_size: nat, h: nat, i0: nat, cnt: nat) -> Seq<
    u64,
>
    decreases cnt,
{
    if cnt == 0 {
        Seq::empty()
    } else {
        level_slice(leaves, leaf_size, h, i0, (cnt - 1) as nat) + node_hash(
            leaves,
            leaf_size,
            h,
            (i0 + cnt - 1) as nat,
        )
    }
}

/// A whole level of `cnt` nodes.
pub open spec fn level_seq(leaves: Seq<u64>, leaf_size: nat, h: nat, cnt: nat) -> Seq<u64> {
    level_slice(leaves, leaf_size, h, 0, cnt)
}

/// A level slice spans four words per node, and node `j` of the slice
/// occupies words `[4j, 4j + 4)`.
pub proof fn lemma_level_slice_index(
    leaves: Seq<u64>,
    leaf_size: nat,
    h: nat,
    i0: nat,
    cnt: nat,
    j: nat,
)
    ensures
        level_slice(leaves, leaf_size, h, i0, cnt).len() == 4 * cnt,
        j < cnt ==> level_slice(leaves, leaf_size, h, i0, cnt).subrange(
            4 * j as int,
            4 * j as int + 4,
        ) == node_hash(leaves, leaf_size, h, i0 + j),
    decreases cnt,
{
    if cnt > 0 {
        lemma_level_slice_index(leaves, leaf_size, h, i0, (cnt - 1) as nat, j);
        lemma_node_hash_len(leaves, leaf_size, h, (i0 + cnt - 1) as nat);
        if j == cnt - 1 {
            assert(level_slice(leaves, leaf_size, h, i0, cnt).subrange(
                4 * j as int,
                4 * j as int + 4,
            ) =~= node_hash(leaves, leaf_size, h, i0 + j));
        } else if j < cnt {
            assert(level_slice(leaves, leaf_size, h, i0, cnt).subrange(
                4 * j as int,
                4 * j as int + 4,
            ) =~= level_slice(leaves, leaf_size, h, i0, (cnt - 1) as nat).subrange(
                4 * j as int,
                4 * j as int + 4,
            ));
        }
    }
}

/// Adjacent level slices concatenate.
pub proof fn lemma_level_slice_concat(
    leaves: Seq<u64>,
    leaf_size: nat,
    h: nat,
    i0: nat,
    a: nat,
    b: nat,
)
    ensures
        level_slice(leaves, leaf_size, h, i0, a + b) == level_slice(leaves, leaf_size, h, i0, a)
            + level_slice(leaves, leaf_size, h, i0 + a, b),
    decreases b,
{
    if b == 0 {
        assert(level_slice(leaves, leaf_size, h, i0, a + 0) =~= level_slice(
            leaves,
            leaf_size,
            h,
            i0,
            a,
        ) + level_slice(leaves, leaf_size, h, i0 + a, 0));
    } else {
        lemma_level_slice_concat(leaves, leaf_size, h, i0, a, (b - 1) as nat);
        assert(level_slice(leaves, leaf_size, h, i0, a + b) =~= level_slice(
            leaves,
            leaf_size,
            h,
            i0,
            a,
        ) + level_slice(leaves, leaf_size, h, i0 + a, b));
    }
}

/// The digests buffer: levels `0 .. hmax` (heights above the leaves),
/// concatenated bottom-up, each level left to right, for a tree of
/// `2^k` leaves.
pub open spec fn levels_concat(leaves: Seq<u64>, leaf_size: nat, k: nat, hmax: nat) -> Seq<u64>
    decreases hmax,
{
    if hmax == 0 {
        Seq::empty()
    } else {
        levels_concat(leaves, leaf_size, k, (hmax - 1) as nat) + level_seq(
            leaves,
            leaf_size,
            (hmax - 1) as nat,
            pow2((k - (hmax - 1)) as nat),
        )
    }
}

/// One absorption step, executably.
fn absorb_exec(s0: u64, s1: u64, s2: u64, s3: u64, x: u64) -> (r: (u64, u64, u64, u64))
    ensures
        seq![r.0, r.1, r.2, r.3] == absorb(seq![s0, s1, s2, s3], x),
{
    let m = mul_mod(add_mod(s3, x), MIX_CONSTANT);
    let r = (m, add_mod(s0, m), add_mod(s1, m), add_mod(s2, m));
    proof {
        assert(seq![r.0, r.1, r.2, r.3] =~= absorb(seq![s0, s1, s2, s3], x));
    }
    r
}

/// Digest of the leaf starting at word `start`.
fn hash_leaf_at(leaves: &Vec<u64>, start: usize, leaf_size: usize) -> (r: (u64, u64, u64, u64))
    requires
        start + leaf_size <= leaves@.len(),
    ensures
        seq![r.0, r.1, r.2, r.3] == hash_leaf(
            leaves@.subrange(start as int, start as int + leaf_size as int),
        ),
{
    let ghost sub = leaves@.subrange(start as int, start as int + leaf_size as int);
    let total: usize = leaves.len();
    let mut s0: u64 = IV_LEAF;
    let mut s1: u64 = IV_B;
    let mut s2: u64 = IV_C;
    let mut s3: u64 = MIX_CONSTANT;
    proof {
        assert(seq![s0, s1, s2, s3] =~= iv(IV_LEAF));
    }
    let mut j: usize = 0;
    while j < leaf_size
        invariant
            j <= leaf_size,
            start + leaf_size <= leaves@.len(),
            total == leaves@.len(),
            sub == leaves@.subrange(start as int, start as int + leaf_size as int),
            seq![s0, s1, s2, s3] == absorb_all(iv(IV_LEAF), sub, j as nat),
        decreases leaf_size - j,
    {
        let x = leaves[start + j];
        proof {
            assert(sub[j as int] == leaves@[start as int + j as int]);
        }
        let r = absorb_exec(s0, s1, s2, s3, x);
        s0 = r.0;
        s1 = r.1;
        s2 = r.2;
        s3 = r.3;
        j = j + 1;
    }
    (s0, s1, s2, s3)
}

/// Digest of the two nodes stored at word offsets `ia` and `ib`.
#[verifier::rlimit(100)]
#[verifier::loop_isolation(false)]
fn hash_two_at(v: &Vec<u64>, ia: usize, ib: usize) -> (r: (u64, u64, u64, u64))
    requires
        ia + 4 <= v@.len(),
        ib + 4 <= v@.len(),
    ensures
        seq![r.0, r.1, r.2, r.3] == hash_two(
            v@.subrange(ia as int, ia as int + 4),
            v@.subrange(ib as int, ib as int + 4),
        ),
{
    let total: usize = v.len();
    let ghost a = v@.subrange(ia as int, ia as int + 4);
    let ghost b = v@.subrange(ib as int, ib as int + 4);
    let ghost xs = a + b;
    let mut s0: u64 = IV_NODE;
    let mut s1: u64 = IV_B;
    let mut s2: u64 = IV_C;
    let mut s3: u64 = MIX_CONSTANT;
    proof {
        assert(seq![s0, s1, s2, s3] =~= iv(IV_NODE));
    }
    let mut j: usize = 0;
    while j < 8
        invariant
            j <= 8,
            seq![s0, s1, s2, s3] == absorb_all(iv(IV_NODE), xs, j as nat),
        decreases 8 - j,
    {
        let x: u64 = if j < 4 {
            v[ia + j]
        } else {
            v[ib + (j - 4)]
        };
        proof {
            if j < 4 {
                assert(xs[j as int] == a[j as int]);
                assert(a[j as int] == v@[ia as int + j as int]);
            } else {
                assert(xs[j as int] == b[j as int - 4]);
                assert(b[j as int - 4] == v@[ib as int + (j as int - 4)]);
            }
        }
        let r = absorb_exec(s0, s1, s2, s3, x);
        s0 = r.0;
        s1 = r.1;
        s2 = r.2;
        s3 = r.3;
        j = j + 1;
    }
    (s0, s1, s2, s3)
}

/// Hashes the leaves `[i0, i0 + cnt)` into the flat words of the bottom
/// level slice.
#[verifier::loop_isolation(false)]
#[verifier::rlimit(100)]
fn build_level0_range(leaves: &Vec<u64>, leaf_size: usize, i0: usize, cnt: usize) -> (out: Vec<
    u64,
>)
    requires
        leaf_size >= 1,
        (i0 + cnt) * leaf_size <= leaves@.len(),
    ensures
        out@ == level_slice(leaves@, leaf_size as nat, 0, i0 as nat, cnt as nat),
{
    let total: usize = leaves.len();
    let mut out: Vec<u64> = Vec::new();
    let mut i: usize = 0;
    while i < cnt
        invariant
            i <= cnt,
            out@ == level_slice(leaves@, leaf_size as nat, 0, i0 as nat, i as nat),
        decreases cnt - i,
    {
        proof {
            assert((i0 + i) * leaf_size + leaf_size <= (i0 + cnt) * leaf_size)
                by (nonlinear_arith)
                requires
                    i0 + i + 1 <= i0 + cnt,
                    leaf_size >= 0,
            ;
            assert((i0 + i) * leaf_size >= 0) by (nonlinear_arith)
                requires
                    i0 + i >= 0,
                    leaf_size >= 0,
            ;
            assert(i0 + i <= (i0 + i) * leaf_size + leaf_size) by (nonlinear_arith)
                requires
                    leaf_size >= 1,
                    i0 + i >= 0,
            ;
        }
        let start = (i0 + i) * leaf_size;
        let r = hash_leaf_at(leaves, start, leaf_size);
        out.push(r.0);
        out.push(r.1);
        out.push(r.2);
        out.push(r.3);
        proof {
            let gi = (i0 + i) as nat;
            assert(node_hash(leaves@, leaf_size as nat, 0, gi) == hash_leaf(
                leaves@.subrange(
                    (gi * leaf_size as nat) as int,
                    (gi * leaf_size as nat + leaf_size as nat) as int,
                ),
            ));
            assert(start as int == (gi * leaf_size as nat) as int);
            assert(out@ =~= level_slice(leaves@, leaf_size as nat, 0, i0 as nat, (i + 1) as nat));
        }
        i = i + 1;
    }
    out
}

/// Combines the nodes `[i0, i0 + cnt)` of the level `h` from the full
/// flat previous level.
#[verifier::loop_isolation(false)]
#[verifier::rlimit(100)]
#[verifier::spinoff_prover]
fn build_level_range(
    prev: &Vec<u64>,
    i0: usize,
    cnt: usize,
    Ghost(leaves): Ghost<Seq<u64>>,
    Ghost(leaf_size): Ghost<nat>,
    Ghost(h): Ghost<nat>,
    Ghost(prev_cnt): Ghost<nat>,
) -> (out: Vec<u64>)
    requires
        h >= 1,
        prev@ == level_slice(leaves, leaf_size, (h - 1) as nat, 0, prev_cnt),
        2 * (i0 + cnt) <= prev_cnt,
    ensures
        out@ == level_slice(leaves, leaf_size, h, i0 as nat, cnt as nat),
{
    proof {
        lemma_level_slice_index(leaves, leaf_size, (h - 1) as nat, 0, prev_cnt, 0);
    }
    let total: usize = prev.len();
    assert(total == 4 * prev_cnt);
    let mut out: Vec<u64> = Vec::new();
    let mut i: usize = 0;
    while i < cnt
        invariant
            i <= cnt,
            out@ == level_slice(leaves, leaf_size, h, i0 as nat, i as nat),
        decreases cnt - i,
    {
        let gi = i0 + i;
        proof {
            assert(8 * (gi as int) + 8 <= 4 * prev_cnt) by (nonlinear_arith)
                requires
                    2 * (i0 as int + cnt as int) <= prev_cnt,
                    0 <= i0,
                    0 <= i < cnt,
                    gi == i0 + i,
            ;
        }
        proof {
            lemma_level_slice_index(
                leaves,
                leaf_size,
                (h - 1) as nat,
                0,
                prev_cnt,
                (2 * gi) as nat,
            );
            lemma_level_slice_index(
                leaves,
                leaf_size,
                (h - 1) as nat,
                0,
                prev_cnt,
                (2 * gi + 1) as nat,
            );
        }
        let ia = 8 * gi;
        let ib = 8 * gi + 4;
        let r = hash_two_at(prev, ia, ib);
        proof {
            let gin = gi as nat;
            assert(prev@.subrange(ia as int, ia as int + 4) == node_hash(
                leaves,
                leaf_size,
                (h - 1) as nat,
                2 * gin,
            ));
            assert(prev@.subrange(ib as int, ib as int + 4) == node_hash(
                leaves,
                leaf_size,
                (h - 1) as nat,
                2 * gin + 1,
            ));
            assert(node_hash(leaves, leaf_size, h, gin) == hash_two(
                node_hash(leaves, leaf_size, (h - 1) as nat, 2 * gin),
                node_hash(leaves, leaf_size, (h - 1) as nat, 2 * gin + 1),
            ));
            assert(seq![r.0, r.1, r.2, r.3] == node_hash(leaves, leaf_size, h, gin));
        }
        let ghost out0 = out@;
        out.push(r.0);
        out.push(r.1);
        out.push(r.2);
        out.push(r.3);
        proof {
            assert(out@ =~= out0 + seq![r.0, r.1, r.2, r.3]);
            assert(level_slice(leaves, leaf_size, h, i0 as nat, (i + 1) as nat) == level_slice(
                leaves,
                leaf_size,
                h,
                i0 as nat,
                i as nat,
            ) + node_hash(leaves, leaf_size, h, gi as nat));
            assert(out@ == level_slice(leaves, leaf_size, h, i0 as nat, (i + 1) as nat));
        }
        i = i + 1;
    }
    out
}

/// Appends the words of `src` to `dst`.
fn extend_words(dst: &mut Vec<u64>, src: &Vec<u64>)
    ensures
        final(dst)@ == old(dst)@ + src@,
{
    let mut i: usize = 0;
    while i < src.len()
        invariant
            i <= src@.len(),
            dst@ == old(dst)@ + src@.subrange(0, i as int),
        decreases src@.len() - i,
    {
        dst.push(src[i]);
        proof {
            assert(dst@ =~= old(dst)@ + src@.subrange(0, i as int + 1));
        }
        i = i + 1;
    }
    proof {
        assert(dst@ =~= old(dst)@ + src@);
    }
}


/// Builds one whole level by hashing the leaves, split into `pieces`
/// contiguous chunks of work.
#[verifier::loop_isolation(false)]
#[verifier::rlimit(100)]
#[verifier::spinoff_prover]
fn build_full_level0(leaves: &Vec<u64>, leaf_size: usize, cnt: usize, pieces: usize) -> (out:
    Vec<u64>)
    requires
        leaf_size >= 1,
        pieces >= 1,
        cnt * leaf_size <= leaves@.len(),
    ensures
        out@ == level_seq(leaves@, leaf_size as nat, 0, cnt as nat),
{
    let mut out: Vec<u64> = Vec::new();
    let mut d: usize = 0;
    let mut b0: usize = 0;
    while d < pieces
        invariant
            d <= pieces,
            b0 as int == (d as int) * (cnt as int) / (pieces as int),
            b0 <= cnt,
            out@ == level_slice(leaves@, leaf_size as nat, 0, 0, b0 as nat),
        decreases pieces - d,
    {
        proof {
            assert((d as int + 1) * (cnt as int) <= (u64::MAX as int) * (u64::MAX as int))
                by (nonlinear_arith)
                requires
                    0 <= d as int + 1 <= u64::MAX as int,
                    0 <= cnt as int <= u64::MAX as int,
            ;
        }
        let b1_128: u128 = ((d as u128) + 1) * (cnt as u128) / (pieces as u128);
        proof {
            assert((d as int + 1) * (cnt as int) / (pieces as int) <= cnt && (d as int) * (
            cnt as int) / (pieces as int) <= (d as int + 1) * (cnt as int) / (pieces as int)
                && (d as int + 1) * (cnt as int) / (pieces as int) >= 0) by (nonlinear_arith)
                requires
                    pieces >= 1,
                    cnt >= 0,
                    0 <= d < pieces,
            ;
        }
        let b1: usize = b1_128 as usize;
        proof {
            assert((b0 + (b1 - b0)) * leaf_size <= leaves@.len()) by (nonlinear_arith)
                requires
                    b1 <= cnt,
                    leaf_size >= 0,
                    cnt * leaf_size <= leaves@.len(),
            ;
        }
        let chunk = build_level0_range(leaves, leaf_size, b0, b1 - b0);
        extend_words(&mut out, &chunk);
        proof {
            lemma_level_slice_concat(
                leaves@,
                leaf_size as nat,
                0,
                0,
                b0 as nat,
                (b1 - b0) as nat,
            );
        }
        b0 = b1;
        d = d + 1;
    }
    proof {
        assert((pieces as int) * (cnt as int) / (pieces as int) == cnt) by (nonlinear_arith)
            requires
                pieces >= 1,
                cnt >= 0,
        ;
    }
    out
}

/// Builds one whole level from the full level below it, split into
/// `pieces` contiguous chunks of work.
#[verifier::loop_isolation(false)]
#[verifier::rlimit(100)]
#[verifier::spinoff_prover]
fn build_full_level(
    prev: &Vec<u64>,
    cnt: usize,
    pieces: usize,
    Ghost(leaves): Ghost<Seq<u64>>,
    Ghost(leaf_size): Ghost<nat>,
    Ghost(h): Ghost<nat>,
) -> (out: Vec<u64>)
    requires
        h >= 1,
        pieces >= 1,
        prev@ == level_slice(leaves, leaf_size, (h - 1) as nat, 0, (2 * cnt) as nat),
    ensures
        out@ == level_seq(leaves, leaf_size, h, cnt as nat),
{
    let mut out: Vec<u64> = Vec::new();
    let mut d: usize = 0;
    let mut b0: usize = 0;
    while d < pieces
        invariant
            d <= pieces,
            b0 as int == (d as int) * (cnt as int) / (pieces as int),
            b0 <= cnt,
            out@ == level_slice(leaves, leaf_size, h, 0, b0 as nat),
        decreases pieces - d,
    {
        proof {
            assert((d as int + 1) * (cnt as int) <= (u64::MAX as int) * (u64::MAX as int))
                by (nonlinear_arith)
                requires
                    0 <= d as int + 1 <= u64::MAX as int,
                    0 <= cnt as int <= u64::MAX as int,
            ;
        }
        let b1_128: u128 = ((d as u128) + 1) * (cnt as u128) / (pieces as u128);
        proof {
            assert((d as int + 1) * (cnt as int) / (pieces as int) <= cnt && (d as int) * (
            cnt as int) / (pieces as int) <= (d as int + 1) * (cnt as int) / (pieces as int)
                && (d as int + 1) * (cnt as int) / (pieces as int) >= 0) by (nonlinear_arith)
                requires
                    pieces >= 1,
                    cnt >= 0,
                    0 <= d < pieces,
            ;
        }
        let b1: usize = b1_128 as usize;
        let chunk = build_level_range(
            prev,
            b0,
            b1 - b0,
            Ghost(leaves),
            Ghost(leaf_size),
            Ghost(h),
            Ghost((2 * cnt) as nat),
        );
        extend_words(&mut out, &chunk);
        proof {
            lemma_level_slice_concat(leaves, leaf_size, h, 0, b0 as nat, (b1 - b0) as nat);
        }
        b0 = b1;
        d = d + 1;
    }
    proof {
        assert((pieces as int) * (cnt as int) / (pieces as int) == cnt) by (nonlinear_arith)
            requires
                pieces >= 1,
                cnt >= 0,
        ;
    }
    out
}

/// Computes the digest and capital buffers of the tree over `leaves`
/// (`2^k` leaves of `leaf_size` words), cut `cap_height` levels below the
/// root, the per-level work split into `pieces` contiguous chunks.
#[verifier::loop_isolation(false)]
#[verifier::rlimit(100)]
#[verifier::spinoff_prover]
fn build_tree(
    leaves: &Vec<u64>,
    leaf_size: usize,
    k: usize,
    cap_height: usize,
    pieces: usize,
) -> (r: (Vec<u64>, Vec<u64>))
    requires
        leaf_size >= 1,
        pieces >= 1,
        k <= MAX_LOG_DOMAIN_SIZE,
        cap_height <= k,
        leaves@.len() == pow2(k as nat) * leaf_size,
    ensures
        r.0@ == levels_concat(leaves@, leaf_size as nat, k as nat, (k - cap_height) as nat),
        r.1@ == level_seq(
            leaves@,
            leaf_size as nat,
            (k - cap_height) as nat,
            pow2(cap_height as nat),
        ),
{
    proof {
        vstd::arithmetic::power2::lemma2_to64();
        if k < 32 {
            vstd::arithmetic::power2::lemma_pow2_strictly_increases(k as nat, 32nat);
        }
        assert(1u64 * pow2(k as nat) <= u64::MAX);
        vstd::bits::lemma_u64_shl_is_mul(1u64, k as u64);
        vstd::arithmetic::power2::lemma_pow2_pos(k as nat);
        assert(pow2(k as nat) * 1 <= pow2(k as nat) * leaf_size) by (nonlinear_arith)
            requires
                leaf_size >= 1,
                pow2(k as nat) > 0,
        ;
    }
    let llen: usize = leaves.len();
    let lc64: u64 = 1u64 << (k as u64);
    proof {
        assert(lc64 as int <= llen as int);
    }
    let lc: usize = lc64 as usize;
    let hmax = k - cap_height;
    let mut cur: Vec<u64> = build_full_level0(leaves, leaf_size, lc, pieces);
    let mut dig: Vec<u64> = Vec::new();
    if hmax == 0 {
        proof {
            assert(pow2(cap_height as nat) == lc as nat);
        }
        return (dig, cur);
    }
    extend_words(&mut dig, &cur);
    proof {
        assert(levels_concat(leaves@, leaf_size as nat, k as nat, 1nat) == levels_concat(
            leaves@,
            leaf_size as nat,
            k as nat,
            0nat,
        ) + level_seq(leaves@, leaf_size as nat, 0nat, pow2((k - 0) as nat)));
        assert(dig@ =~= levels_concat(leaves@, leaf_size as nat, k as nat, 1nat));
    }
    let mut h: usize = 1;
    while h < hmax
        invariant
            1 <= h <= hmax,
            dig@ == levels_concat(leaves@, leaf_size as nat, k as nat, h as nat),
            cur@ == level_seq(
                leaves@,
                leaf_size as nat,
                (h - 1) as nat,
                pow2((k - (h - 1)) as nat),
            ),
        decreases hmax - h,
    {
        proof {
            vstd::arithmetic::power2::lemma_pow2_unfold((k - (h - 1)) as nat);
            vstd::arithmetic::power2::lemma_pow2_pos((k - h) as nat);
            assert(pow2((k - (h - 1)) as nat) == 2 * pow2((k - h) as nat));
            assert(pow2((k - h) as nat) < pow2(k as nat)) by {
                vstd::arithmetic::power2::lemma_pow2_strictly_increases(
                    (k - h) as nat,
                    k as nat,
                );
            }
        }
        let cnt_h: usize = pow2_small(k - h);
        let next = build_full_level(
            &cur,
            cnt_h,
            pieces,
            Ghost(leaves@),
            Ghost(leaf_size as nat),
            Ghost(h as nat),
        );
        extend_words(&mut dig, &next);
        cur = next;
        h = h + 1;
    }
    proof {
        vstd::arithmetic::power2::lemma_pow2_unfold((k - (hmax - 1)) as nat);
        vstd::arithmetic::power2::lemma_pow2_pos((k - hmax) as nat);
        assert(pow2((k - (hmax - 1)) as nat) == 2 * pow2((k - hmax) as nat));
        if k - hmax < k {
            vstd::arithmetic::power2::lemma_pow2_strictly_increases((k - hmax) as nat, k as nat);
        }
    }
    let cnt_cap: usize = pow2_small(cap_height);
    proof {
        assert((k - hmax) as nat == cap_height as nat);
    }
    let caps = build_full_level(
        &cur,
        cnt_cap,
        pieces,
        Ghost(leaves@),
        Ghost(leaf_size as nat),
        Ghost(hmax as nat),
    );
    (dig, caps)
}

/// Computes `2^e` for exponents the dispatcher admits.
fn pow2_small(e: usize) -> (r: usize)
    requires
        e <= MAX_LOG_DOMAIN_SIZE,
        pow2(e as nat) <= usize::MAX,
    ensures
        r == pow2(e as nat),
{
    proof {
        vstd::arithmetic::power2::lemma2_to64();
        if e < 32 {
            vstd::arithmetic::power2::lemma_pow2_strictly_increases(e as nat, 32nat);
        }
        assert(1u64 * pow2(e as nat) <= u64::MAX);
        vstd::bits::lemma_u64_shl_is_mul(1u64, e as u64);
    }
    let p64: u64 = 1u64 << (e as u64);
    p64 as usize
}


/// Native status reported when the hash-algorithm selector names no
/// supported family; it is sticky until drained.
pub const UNSUPPORTED_HASH_STATUS: u64 = 901;

/// The hash-algorithm selector of the family this builder computes.
pub const HASH_SELECTOR_DEFAULT: u64 = 0;

/// Leaf counts at or above this threshold, with a positive cap height and
/// more than one device, select the multi-device algorithm.
pub const MULTI_DEVICE_LEAF_THRESHOLD: usize = 4096;

/// A supported leaf count: a power of two no larger than the largest
/// supported domain.
pub open spec fn is_tree_size(n: nat) -> bool {
    exists|k: nat| k <= MAX_LOG_DOMAIN_SIZE && n == pow2(k)
}

/// log2 of a supported leaf count.
pub open spec fn tree_height_of(n: nat) -> nat {
    choose|k: nat| k <= MAX_LOG_DOMAIN_SIZE && n == pow2(k)
}

/// The tree height is well defined: powers of two have a unique exponent.
pub proof fn lemma_tree_height(n: nat, k: nat)
    requires
        k <= MAX_LOG_DOMAIN_SIZE,
        n == pow2(k),
    ensures
        is_tree_size(n),
        tree_height_of(n) == k,
{
    assert(is_tree_size(n));
    let kk = tree_height_of(n);
    assert(kk <= MAX_LOG_DOMAIN_SIZE && n == pow2(kk));
    if kk < k {
        vstd::arithmetic::power2::lemma_pow2_strictly_increases(kk, k);
    } else if k < kk {
        vstd::arithmetic::power2::lemma_pow2_strictly_increases(k, kk);
    }
}

/// The digests buffer spans eight words per leaf beyond the cap.
pub proof fn lemma_levels_concat_len(leaves: Seq<u64>, leaf_size: nat, k: nat, hmax: nat)
    requires
        hmax <= k,
    ensures
        levels_concat(leaves, leaf_size, k, hmax).len() == 8 * pow2(k) - 8 * pow2(
            (k - hmax) as nat,
        ),
    decreases hmax,
{
    if hmax == 0 {
    } else {
        lemma_levels_concat_len(leaves, leaf_size, k, (hmax - 1) as nat);
        lemma_level_slice_index(
            leaves,
            leaf_size,
            (hmax - 1) as nat,
            0,
            pow2((k - (hmax - 1)) as nat),
            0,
        );
        vstd::arithmetic::power2::lemma_pow2_unfold((k - (hmax - 1)) as nat);
    }
}

/// Decides the exact log2 of a supported leaf count.
#[verifier::loop_isolation(false)]
fn log2_exact(x: usize) -> (r: Option<usize>)
    ensures
        r matches Some(k) ==> k <= MAX_LOG_DOMAIN_SIZE && x == pow2(k as nat),
        r is None ==> !is_tree_size(x as nat),
{
    let x64: u64 = x as u64;
    let mut k: usize = 0;
    let mut p: u64 = 1;
    proof {
        vstd::arithmetic::power2::lemma2_to64();
    }
    while k <= MAX_LOG_DOMAIN_SIZE
        invariant
            k <= MAX_LOG_DOMAIN_SIZE + 1,
            p == pow2(k as nat),
            forall|j: nat| j < k ==> pow2(j) != x as nat,
        decreases MAX_LOG_DOMAIN_SIZE + 1 - k,
    {
        if p == x64 {
            return Some(k);
        }
        proof {
            vstd::arithmetic::power2::lemma_pow2_unfold((k + 1) as nat);
            if k < 32 {
                vstd::arithmetic::power2::lemma_pow2_strictly_increases(k as nat, 32nat);
            }
            assert(pow2(32nat) == 0x1_0000_0000);
        }
        p = p * 2;
        k = k + 1;
    }
    proof {
        assert forall|j: nat| j <= MAX_LOG_DOMAIN_SIZE implies pow2(j) != x as nat by {
            assert(j < k);
        }
    }
    None
}

/// Geometry of a Merkle fill job: a positive leaf size matching the
/// buffer's element tags, a power-of-two leaf count spanning the buffer,
/// and a cap height within the tree.
pub open spec fn merkle_geometry_ok(
    leaves: Buffer,
    leaf_count: nat,
    leaf_size: nat,
    cap_height: nat,
) -> bool {
    &&& leaf_size >= 1
    &&& leaves.elem_size == leaf_size
    &&& leaves.data@.len() == leaf_count * leaf_size
    &&& is_tree_size(leaf_count)
    &&& cap_height <= tree_height_of(leaf_count)
}

/// Device words a fill holds at its peak: the staged leaves when they
/// arrive host-resident, and one scratch region per result buffer — never
/// zero-sized, by the native call's contract.
pub open spec fn merkle_alloc_words(
    leaves: Buffer,
    leaf_count: nat,
    leaf_size: nat,
    cap_height: nat,
) -> int {
    let k = tree_height_of(leaf_count);
    (if leaves.on_device {
        0
    } else {
        leaf_count * leaf_size
    }) + (if cap_height == k {
        4
    } else {
        8 * (leaf_count - pow2(cap_height))
    }) + 4 * pow2(cap_height)
}

/// Validation outcome of the single-device fill, in checking order:
/// device, geometry, leaf placement, the sticky status (stale failures
/// surface here), the hash selector, then device memory.
pub open spec fn merkle_err(
    c: Context,
    device_id: int,
    leaves: Buffer,
    leaf_count: nat,
    leaf_size: nat,
    cap_height: nat,
    hash_selector: u64,
) -> Option<Error> {
    if !c.device_ok(device_id) {
        Some(Error::InvalidDevice)
    } else if !merkle_geometry_ok(leaves, leaf_count, leaf_size, cap_height) {
        Some(Error::ConfigurationError)
    } else if leaves.on_device && leaves.device_id != device_id {
        Some(Error::ConfigurationError)
    } else if c.sticky_of(device_id) != 0 {
        Some(Error::ComputeFailure(c.sticky_of(device_id)))
    } else if hash_selector != HASH_SELECTOR_DEFAULT {
        Some(Error::ComputeFailure(UNSUPPORTED_HASH_STATUS))
    } else if c.devices@[device_id].used + merkle_alloc_words(
        leaves,
        leaf_count,
        leaf_size,
        cap_height,
    ) > c.devices@[device_id].capacity {
        Some(Error::AllocationFailure)
    } else {
        None
    }
}

/// The contents of the two result buffers of any fill over `leaves`.
pub open spec fn fill_result_ok(
    digests: Seq<u64>,
    capitals: Seq<u64>,
    leaves: Seq<u64>,
    leaf_count: nat,
    leaf_size: nat,
    cap_height: nat,
) -> bool {
    let k = tree_height_of(leaf_count);
    &&& digests == levels_concat(leaves, leaf_size, k, (k - cap_height) as nat)
    &&& capitals == level_seq(leaves, leaf_size, (k - cap_height) as nat, pow2(cap_height))
}

/// Computes tree digests and capitals on one device. Host-resident leaves
/// are staged through the memory mediator; the two result buffers are
/// retrieved over two independent streams, each synchronized before its
/// buffer is read; scratch device regions are held for the native call
/// and released on every exit path.
#[verifier::loop_isolation(false)]
#[verifier::rlimit(100)]
#[verifier::spinoff_prover]
pub fn fill_digests_single_device(
    ctx: &mut Context,
    device_id: usize,
    leaves: &Buffer,
    leaf_count: usize,
    leaf_size: usize,
    cap_height: usize,
    hash_selector: u64,
) -> (r: Result<(Vec<u64>, Vec<u64>), Error>)
    requires
        old(ctx).wf(),
    ensures
        final(ctx).wf(),
        r is Ok <==> merkle_err(
            *old(ctx),
            device_id as int,
            *leaves,
            leaf_count as nat,
            leaf_size as nat,
            cap_height as nat,
            hash_selector,
        ) is None,
        r matches Err(e) ==> Some(e) == merkle_err(
            *old(ctx),
            device_id as int,
            *leaves,
            leaf_count as nat,
            leaf_size as nat,
            cap_height as nat,
            hash_selector,
        ),
        r == Result::<(Vec<u64>, Vec<u64>), Error>::Err(
            Error::ComputeFailure(UNSUPPORTED_HASH_STATUS),
        ) && hash_selector != HASH_SELECTOR_DEFAULT ==> old(ctx).same_but_device(
            *final(ctx),
            device_id as int,
        ) && crate::context::device_with_sticky(
            old(ctx).devices@[device_id as int],
            final(ctx).devices@[device_id as int],
            UNSUPPORTED_HASH_STATUS,
        ),
        !(r == Result::<(Vec<u64>, Vec<u64>), Error>::Err(
            Error::ComputeFailure(UNSUPPORTED_HASH_STATUS),
        ) && hash_selector != HASH_SELECTOR_DEFAULT) ==> final(ctx).devices@ == old(
            ctx,
        ).devices@,
        r matches Ok(p) ==> fill_result_ok(
            p.0@,
            p.1@,
            leaves.data@,
            leaf_count as nat,
            leaf_size as nat,
            cap_height as nat,
        ),
        r matches Ok(p) ==> p.0@.len() == 8 * (leaf_count - pow2(cap_height as nat)) && p.1@.len()
            == 4 * pow2(cap_height as nat),
{
    if device_id >= ctx.devices.len() {
        return Err(Error::InvalidDevice);
    }
    let k: usize = match log2_exact(leaf_count) {
        Some(k) => k,
        None => {
            return Err(Error::ConfigurationError);
        },
    };
    proof {
        lemma_tree_height(leaf_count as nat, k as nat);
    }
    if leaf_size < 1 || leaves.elem_size != leaf_size {
        return Err(Error::ConfigurationError);
    }
    let llen: usize = leaves.data.len();
    proof {
        assert((leaf_count as int) * (leaf_size as int) <= (u64::MAX as int) * (u64::MAX as int))
            by (nonlinear_arith)
            requires
                leaf_count as int <= u64::MAX as int,
                leaf_size as int <= u64::MAX as int,
        ;
    }
    if (leaf_count as u128) * (leaf_size as u128) != (llen as u128) {
        return Err(Error::ConfigurationError);
    }
    if cap_height > k {
        return Err(Error::ConfigurationError);
    }
    if leaves.on_device && leaves.device_id != device_id {
        return Err(Error::ConfigurationError);
    }
    match translate_status(ctx.devices[device_id].sticky) {
        Some(e) => {
            return Err(e);
        },
        None => {},
    }
    if hash_selector != HASH_SELECTOR_DEFAULT {
        ctx.record_native_status(device_id, UNSUPPORTED_HASH_STATUS);
        return Err(Error::ComputeFailure(UNSUPPORTED_HASH_STATUS));
    }
    proof {
        vstd::arithmetic::power2::lemma_pow2_pos(cap_height as nat);
        if cap_height < k {
            vstd::arithmetic::power2::lemma_pow2_strictly_increases(
                cap_height as nat,
                k as nat,
            );
        }
    }
    let caps_nodes: usize = pow2_small(cap_height);
    let dig_nodes128: u128 = if cap_height == k {
        1
    } else {
        2 * ((leaf_count as u128) - (caps_nodes as u128))
    };
    let staged_words: usize = if leaves.on_device {
        0
    } else {
        llen
    };
    let dev_capacity = ctx.devices[device_id].capacity;
    let dev_used = ctx.devices[device_id].used;
    let need: u128 = (staged_words as u128) + 4 * dig_nodes128 + 4 * (caps_nodes as u128);
    proof {
        assert(need as int == merkle_alloc_words(
            *leaves,
            leaf_count as nat,
            leaf_size as nat,
            cap_height as nat,
        ));
    }
    if (dev_used as u128) + need > (dev_capacity as u128) {
        return Err(Error::AllocationFailure);
    }
    let dig_nodes: usize = dig_nodes128 as usize;
    let ghost dev0 = ctx.devices@[device_id as int];
    let staged: Option<Buffer> = if leaves.on_device {
        None
    } else {
        match ctx.allocate(device_id, leaf_count, leaf_size) {
            Ok(b) => Some(b),
            Err(_) => {
                proof {
                    assert(false);
                }
                return Err(Error::AllocationFailure);
            },
        }
    };
    let scratch_dig: Buffer = match ctx.allocate(device_id, dig_nodes, 4) {
        Ok(b) => b,
        Err(_) => {
            proof {
                assert(false);
            }
            return Err(Error::AllocationFailure);
        },
    };
    let scratch_caps: Buffer = match ctx.allocate(device_id, caps_nodes, 4) {
        Ok(b) => b,
        Err(_) => {
            proof {
                assert(false);
            }
            return Err(Error::AllocationFailure);
        },
    };
    let staged: Option<Buffer> = match staged {
        Some(mut b) => {
            match crate::buffer::copy(&mut b, leaves, crate::buffer::CopyDirection::HostToDevice) {
                Ok(()) => {},
                Err(_) => {
                    proof {
                        assert(false);
                    }
                },
            }
            Some(b)
        },
        None => None,
    };
    let ghost leaves_words = leaves.data@;
    let built: (Vec<u64>, Vec<u64>) = match &staged {
        Some(b) => build_tree(&b.data, leaf_size, k, cap_height, 1),
        None => build_tree(&leaves.data, leaf_size, k, cap_height, 1),
    };
    let (dig, caps) = built;
    let dev_dig = Buffer { on_device: true, device_id, elem_size: 4, data: dig };
    let dev_caps = Buffer { on_device: true, device_id, elem_size: 4, data: caps };
    let mut s1: Stream = match Stream::create(ctx, device_id) {
        Ok(s) => s,
        Err(_) => {
            proof {
                assert(false);
            }
            return Err(Error::ConfigurationError);
        },
    };
    let mut s2: Stream = match Stream::create(ctx, device_id) {
        Ok(s) => s,
        Err(_) => {
            proof {
                assert(false);
            }
            return Err(Error::ConfigurationError);
        },
    };
    let _ = s1.enqueue_copy_to_host(&dev_dig);
    let _ = s2.enqueue_copy_to_host(&dev_caps);
    let _ = s1.synchronize();
    let _ = s2.synchronize();
    let out_dig: Vec<u64> = match s1.take_completed() {
        Some(v) => v,
        None => {
            proof {
                assert(false);
            }
            Vec::new()
        },
    };
    let out_caps: Vec<u64> = match s2.take_completed() {
        Some(v) => v,
        None => {
            proof {
                assert(false);
            }
            Vec::new()
        },
    };
    match staged {
        Some(b) => {
            let _ = ctx.free(b);
        },
        None => {},
    }
    let _ = ctx.free(scratch_dig);
    let _ = ctx.free(scratch_caps);
    proof {
        assert(final(ctx).devices@[device_id as int] == dev0);
        assert(final(ctx).devices@ =~= old(ctx).devices@);
        lemma_levels_concat_len(
            leaves_words,
            leaf_size as nat,
            k as nat,
            (k - cap_height) as nat,
        );
        lemma_level_slice_index(
            leaves_words,
            leaf_size as nat,
            (k - cap_height) as nat,
            0,
            pow2(cap_height as nat),
            0,
        );
    }
    Ok((out_dig, out_caps))
}


/// First undrained sticky status among devices `[i, dc)`, as the
/// multi-device fill scans them.
pub open spec fn sticky_scan(c: Context, i: int, dc: int) -> Option<Error>
    decreases dc - i,
{
    if i >= dc {
        None
    } else if c.sticky_of(i) != 0 {
        Some(Error::ComputeFailure(c.sticky_of(i)))
    } else {
        sticky_scan(c, i + 1, dc)
    }
}

/// Validation outcome of the multi-device fill, in checking order: at
/// least one device, geometry, leaf placement, every device's sticky
/// status, the hash selector, then device memory on the staging device.
pub open spec fn merkle_multi_err(
    c: Context,
    leaves: Buffer,
    leaf_count: nat,
    leaf_size: nat,
    cap_height: nat,
    hash_selector: u64,
) -> Option<Error> {
    if c.devices@.len() < 1 {
        Some(Error::InvalidDevice)
    } else if !merkle_geometry_ok(leaves, leaf_count, leaf_size, cap_height) {
        Some(Error::ConfigurationError)
    } else if leaves.on_device && leaves.device_id >= c.devices@.len() {
        Some(Error::ConfigurationError)
    } else if sticky_scan(c, 0, c.devices@.len() as int) is Some {
        sticky_scan(c, 0, c.devices@.len() as int)
    } else if hash_selector != HASH_SELECTOR_DEFAULT {
        Some(Error::ComputeFailure(UNSUPPORTED_HASH_STATUS))
    } else if c.devices@[0].used + merkle_alloc_words(
        leaves,
        leaf_count,
        leaf_size,
        cap_height,
    ) > c.devices@[0].capacity {
        Some(Error::AllocationFailure)
    } else {
        None
    }
}

/// Computes tree digests and capitals with the per-level work split
/// across every visible device in contiguous chunks. Staging and scratch
/// memory live on the first device, which also carries the two retrieval
/// streams; an unsupported selector records its status there.
#[verifier::loop_isolation(false)]
#[verifier::rlimit(100)]
#[verifier::spinoff_prover]
pub fn fill_digests_multi_device(
    ctx: &mut Context,
    leaves: &Buffer,
    leaf_count: usize,
    leaf_size: usize,
    cap_height: usize,
    hash_selector: u64,
) -> (r: Result<(Vec<u64>, Vec<u64>), Error>)
    requires
        old(ctx).wf(),
    ensures
        final(ctx).wf(),
        r is Ok <==> merkle_multi_err(
            *old(ctx),
            *leaves,
            leaf_count as nat,
            leaf_size as nat,
            cap_height as nat,
            hash_selector,
        ) is None,
        r matches Err(e) ==> Some(e) == merkle_multi_err(
            *old(ctx),
            *leaves,
            leaf_count as nat,
            leaf_size as nat,
            cap_height as nat,
            hash_selector,
        ),
        r == Result::<(Vec<u64>, Vec<u64>), Error>::Err(
            Error::ComputeFailure(UNSUPPORTED_HASH_STATUS),
        ) && hash_selector != HASH_SELECTOR_DEFAULT && old(ctx).devices@.len() >= 1
            && sticky_scan(*old(ctx), 0, old(ctx).devices@.len() as int) is None ==> old(
            ctx,
        ).same_but_device(*final(ctx), 0) && crate::context::device_with_sticky(
            old(ctx).devices@[0],
            final(ctx).devices@[0],
            UNSUPPORTED_HASH_STATUS,
        ),
        !(r == Result::<(Vec<u64>, Vec<u64>), Error>::Err(
            Error::ComputeFailure(UNSUPPORTED_HASH_STATUS),
        ) && hash_selector != HASH_SELECTOR_DEFAULT && sticky_scan(
            *old(ctx),
            0,
            old(ctx).devices@.len() as int,
        ) is None) ==> final(ctx).devices@ == old(ctx).devices@,
        r matches Ok(p) ==> fill_result_ok(
            p.0@,
            p.1@,
            leaves.data@,
            leaf_count as nat,
            leaf_size as nat,
            cap_height as nat,
        ),
        r matches Ok(p) ==> p.0@.len() == 8 * (leaf_count - pow2(cap_height as nat)) && p.1@.len()
            == 4 * pow2(cap_height as nat),
{
    let device_count = ctx.devices.len();
    if device_count < 1 {
        return Err(Error::InvalidDevice);
    }
    let k: usize = match log2_exact(leaf_count) {
        Some(k) => k,
        None => {
            return Err(Error::ConfigurationError);
        },
    };
    proof {
        lemma_tree_height(leaf_count as nat, k as nat);
    }
    if leaf_size < 1 || leaves.elem_size != leaf_size {
        return Err(Error::ConfigurationError);
    }
    let llen: usize = leaves.data.len();
    proof {
        assert((leaf_count as int) * (leaf_size as int) <= (u64::MAX as int) * (u64::MAX as int))
            by (nonlinear_arith)
            requires
                leaf_count as int <= u64::MAX as int,
                leaf_size as int <= u64::MAX as int,
        ;
    }
    if (leaf_count as u128) * (leaf_size as u128) != (llen as u128) {
        return Err(Error::ConfigurationError);
    }
    if cap_height > k {
        return Err(Error::ConfigurationError);
    }
    if leaves.on_device && leaves.device_id >= device_count {
        return Err(Error::ConfigurationError);
    }
    let mut i: usize = 0;
    while i < device_count
        invariant
            i <= device_count,
            sticky_scan(*ctx, 0, device_count as int) == sticky_scan(
                *ctx,
                i as int,
                device_count as int,
            ),
        decreases device_count - i,
    {
        match translate_status(ctx.devices[i].sticky) {
            Some(e) => {
                proof {
                    assert(sticky_scan(*ctx, i as int, device_count as int) == Some(
                        Error::ComputeFailure(ctx.sticky_of(i as int)),
                    ));
                }
                return Err(e);
            },
            None => {},
        }
        i = i + 1;
    }
    if hash_selector != HASH_SELECTOR_DEFAULT {
        ctx.record_native_status(0, UNSUPPORTED_HASH_STATUS);
        return Err(Error::ComputeFailure(UNSUPPORTED_HASH_STATUS));
    }
    proof {
        vstd::arithmetic::power2::lemma_pow2_pos(cap_height as nat);
        if cap_height < k {
            vstd::arithmetic::power2::lemma_pow2_strictly_increases(
                cap_height as nat,
                k as nat,
            );
        }
    }
    let caps_nodes: usize = pow2_small(cap_height);
    let dig_nodes128: u128 = if cap_height == k {
        1
    } else {
        2 * ((leaf_count as u128) - (caps_nodes as u128))
    };
    let staged_words: usize = if leaves.on_device {
        0
    } else {
        llen
    };
    let dev_capacity = ctx.devices[0].capacity;
    let dev_used = ctx.devices[0].used;
    let need: u128 = (staged_words as u128) + 4 * dig_nodes128 + 4 * (caps_nodes as u128);
    proof {
        assert(need as int == merkle_alloc_words(
            *leaves,
            leaf_count as nat,
            leaf_size as nat,
            cap_height as nat,
        ));
    }
    if (dev_used as u128) + need > (dev_capacity as u128) {
        return Err(Error::AllocationFailure);
    }
    let dig_nodes: usize = dig_nodes128 as usize;
    let ghost dev0 = ctx.devices@[0int];
    let staged: Option<Buffer> = if leaves.on_device {
        None
    } else {
        match ctx.allocate(0, leaf_count, leaf_size) {
            Ok(b) => Some(b),
            Err(_) => {
                proof {
                    assert(false);
                }
                return Err(Error::AllocationFailure);
            },
        }
    };
    let scratch_dig: Buffer = match ctx.allocate(0, dig_nodes, 4) {
        Ok(b) => b,
        Err(_) => {
            proof {
                assert(false);
            }
            return Err(Error::AllocationFailure);
        },
    };
    let scratch_caps: Buffer = match ctx.allocate(0, caps_nodes, 4) {
        Ok(b) => b,
        Err(_) => {
            proof {
                assert(false);
            }
            return Err(Error::AllocationFailure);
        },
    };
    let staged: Option<Buffer> = match staged {
        Some(mut b) => {
            match crate::buffer::copy(&mut b, leaves, crate::buffer::CopyDirection::HostToDevice) {
                Ok(()) => {},
                Err(_) => {
                    proof {
                        assert(false);
                    }
                },
            }
            Some(b)
        },
        None => None,
    };
    let ghost leaves_words = leaves.data@;
    let built: (Vec<u64>, Vec<u64>) = match &staged {
        Some(b) => build_tree(&b.data, leaf_size, k, cap_height, device_count),
        None => build_tree(&leaves.data, leaf_size, k, cap_height, device_count),
    };
    let (dig, caps) = built;
    let dev_dig = Buffer { on_device: true, device_id: 0, elem_size: 4, data: dig };
    let dev_caps = Buffer { on_device: true, device_id: 0, elem_size: 4, data: caps };
    let mut s1: Stream = match Stream::create(ctx, 0) {
        Ok(s) => s,
        Err(_) => {
            proof {
                assert(false);
            }
            return Err(Error::ConfigurationError);
        },
    };
    let mut s2: Stream = match Stream::create(ctx, 0) {
        Ok(s) => s,
        Err(_) => {
            proof {
                assert(false);
            }
            return Err(Error::ConfigurationError);
        },
    };
    let _ = s1.enqueue_copy_to_host(&dev_dig);
    let _ = s2.enqueue_copy_to_host(&dev_caps);
    let _ = s1.synchronize();
    let _ = s2.synchronize();
    let out_dig: Vec<u64> = match s1.take_completed() {
        Some(v) => v,
        None => {
            proof {
                assert(false);
            }
            Vec::new()
        },
    };
    let out_caps: Vec<u64> = match s2.take_completed() {
        Some(v) => v,
        None => {
            proof {
                assert(false);
            }
            Vec::new()
        },
    };
    match staged {
        Some(b) => {
            let _ = ctx.free(b);
        },
        None => {},
    }
    let _ = ctx.free(scratch_dig);
    let _ = ctx.free(scratch_caps);
    proof {
        assert(final(ctx).devices@[0int] == dev0);
        assert(final(ctx).devices@ =~= old(ctx).devices@);
        lemma_levels_concat_len(
            leaves_words,
            leaf_size as nat,
            k as nat,
            (k - cap_height) as nat,
        );
        lemma_level_slice_index(
            leaves_words,
            leaf_size as nat,
            (k - cap_height) as nat,
            0,
            pow2(cap_height as nat),
            0,
        );
    }
    Ok((out_dig, out_caps))
}

/// The algorithm selection rule: the multi-device linear algorithm is
/// used exactly when the leaf count reaches the fan-out threshold, the
/// cap height is positive (a zero cap leaves no capital cut to partition
/// work around), and more than one device is visible.
pub fn uses_multi_device(leaf_count: usize, cap_height: usize, device_count: usize) -> (r: bool)
    ensures
        r <==> (leaf_count >= MULTI_DEVICE_LEAF_THRESHOLD && cap_height > 0 && device_count > 1),
{
    leaf_count >= MULTI_DEVICE_LEAF_THRESHOLD && cap_height > 0 && device_count > 1
}

/// Computes tree digest and capital buffers from leaf data, selecting the
/// single- or multi-device algorithm by the fan-out rule.
pub fn fill_digests(
    ctx: &mut Context,
    device_id: usize,
    leaves: &Buffer,
    leaf_count: usize,
    leaf_size: usize,
    cap_height: usize,
    hash_selector: u64,
) -> (r: Result<(Vec<u64>, Vec<u64>), Error>)
    requires
        old(ctx).wf(),
    ensures
        final(ctx).wf(),
        leaf_count >= MULTI_DEVICE_LEAF_THRESHOLD && cap_height > 0 && old(
            ctx,
        ).devices@.len() > 1 ==> (r is Ok <==> merkle_multi_err(
            *old(ctx),
            *leaves,
            leaf_count as nat,
            leaf_size as nat,
            cap_height as nat,
            hash_selector,
        ) is None),
        !(leaf_count >= MULTI_DEVICE_LEAF_THRESHOLD && cap_height > 0 && old(
            ctx,
        ).devices@.len() > 1) ==> (r is Ok <==> merkle_err(
            *old(ctx),
            device_id as int,
            *leaves,
            leaf_count as nat,
            leaf_size as nat,
            cap_height as nat,
            hash_selector,
        ) is None),
        r matches Ok(p) ==> fill_result_ok(
            p.0@,
            p.1@,
            leaves.data@,
            leaf_count as nat,
            leaf_size as nat,
            cap_height as nat,
        ),
        r matches Ok(p) ==> p.0@.len() == 8 * (leaf_count - pow2(cap_height as nat)) && p.1@.len()
            == 4 * pow2(cap_height as nat),
{
    let multi = uses_multi_device(leaf_count, cap_height, ctx.device_count());
    if multi {
        fill_digests_multi_device(ctx, leaves, leaf_count, leaf_size, cap_height, hash_selector)
    } else {
        fill_digests_single_device(
            ctx,
            device_id,
            leaves,
            leaf_count,
            leaf_size,
            cap_height,
            hash_selector,
        )
    }
}

/// For identical leaves, hash family and cap height, the multi-device
/// algorithm's digests and capitals equal the single-device output: both
/// fills pin their results to the same recursive tree specification.
pub proof fn lemma_multi_device_matches_single(
    dig_single: Seq<u64>,
    caps_single: Seq<u64>,
    dig_multi: Seq<u64>,
    caps_multi: Seq<u64>,
    leaves: Seq<u64>,
    leaf_count: nat,
    leaf_size: nat,
    cap_height: nat,
)
    requires
        fill_result_ok(dig_single, caps_single, leaves, leaf_count, leaf_size, cap_height),
        fill_result_ok(dig_multi, caps_multi, leaves, leaf_count, leaf_size, cap_height),
    ensures
        dig_multi == dig_single,
        caps_multi == caps_single,
{
}

/// With the cap at the full tree height the digests buffer is empty and
/// each capital is the root of its one-leaf subtree: that leaf's own
/// digest.
pub proof fn lemma_full_cap_height(leaves: Seq<u64>, leaf_size: nat, k: nat, i: nat)
    requires
        i < pow2(k),
    ensures
        levels_concat(leaves, leaf_size, k, 0).len() == 0,
        level_seq(leaves, leaf_size, 0, pow2(k)).subrange(4 * i as int, 4 * i as int + 4)
            == hash_leaf(
            leaves.subrange((i * leaf_size) as int, (i * leaf_size + leaf_size) as int),
        ),
{
    lemma_level_slice_index(leaves, leaf_size, 0, 0, pow2(k), i);
}

} // verus!
