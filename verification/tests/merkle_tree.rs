use zeknox::buffer::Buffer;
use zeknox::context::Context;
use zeknox::error::Error;
use zeknox::merkle::{
    fill_digests, fill_digests_multi_device, fill_digests_single_device, uses_multi_device,
    HASH_SELECTOR_DEFAULT, UNSUPPORTED_HASH_STATUS,
};

const P: u128 = 0xffff_ffff_0000_0001;
const MIX: u64 = 0x9e37_79b9_7f4a_7c15;
const IV_LEAF: u64 = 0x51b9_25b7_3c48_8c13;
const IV_NODE: u64 = 0xa409_8bc5_6ee1_79d5;
const IV_B: u64 = 0x6a09_e667_f3bc_c908;
const IV_C: u64 = 0xbb67_ae85_84ca_a73b;

// An independently written reference tree construction, recursive over
// node heights, against which the builder's output is compared.

fn fadd(a: u64, b: u64) -> u64 {
    ((a as u128 + b as u128) % P) as u64
}

fn fmul(a: u64, b: u64) -> u64 {
    ((a as u128 * b as u128) % P) as u64
}

fn ref_absorb(st: [u64; 4], x: u64) -> [u64; 4] {
    let m = fmul(fadd(st[3], x), MIX);
    [m, fadd(st[0], m), fadd(st[1], m), fadd(st[2], m)]
}

fn ref_hash_leaf(leaf: &[u64]) -> [u64; 4] {
    let mut st = [IV_LEAF, IV_B, IV_C, MIX];
    for &x in leaf {
        st = ref_absorb(st, x);
    }
    st
}

fn ref_hash_two(a: [u64; 4], b: [u64; 4]) -> [u64; 4] {
    let mut st = [IV_NODE, IV_B, IV_C, MIX];
    for &x in a.iter().chain(b.iter()) {
        st = ref_absorb(st, x);
    }
    st
}

fn ref_node(leaves: &[u64], leaf_size: usize, h: usize, i: usize) -> [u64; 4] {
    if h == 0 {
        ref_hash_leaf(&leaves[i * leaf_size..(i + 1) * leaf_size])
    } else {
        ref_hash_two(
            ref_node(leaves, leaf_size, h - 1, 2 * i),
            ref_node(leaves, leaf_size, h - 1, 2 * i + 1),
        )
    }
}

/// Expected buffers: digests hold levels 0..k-ch (bottom-up, left to
/// right); capitals hold the level k-ch.
fn ref_tree(leaves: &[u64], leaf_size: usize, k: usize, ch: usize) -> (Vec<u64>, Vec<u64>) {
    let mut dig = Vec::new();
    for h in 0..(k - ch) {
        for i in 0..(1usize << (k - h)) {
            dig.extend_from_slice(&ref_node(leaves, leaf_size, h, i));
        }
    }
    let mut caps = Vec::new();
    for i in 0..(1usize << ch) {
        caps.extend_from_slice(&ref_node(leaves, leaf_size, k - ch, i));
    }
    (dig, caps)
}

fn seeded_leaves(n_words: usize) -> Vec<u64> {
    let mut v = Vec::with_capacity(n_words);
    let mut x: u64 = 0xdead_beef_cafe_f00d;
    for _ in 0..n_words {
        x = ((x as u128 * 6364136223846793005u128 + 1442695040888963407u128) % P) as u64;
        v.push(x);
    }
    v
}

#[test]
fn test_single_device_matches_reference_tree() {
    // Digests and capitals equal an independent reference construction.
    let k = 3usize;
    let leaf_size = 7usize;
    let ch = 1usize;
    let leaf_count = 1usize << k;
    let words = seeded_leaves(leaf_count * leaf_size);
    let mut ctx = Context::new(1, 1 << 20);
    let leaves = Buffer::host(leaf_size, words.clone());
    let (dig, caps) = fill_digests_single_device(
        &mut ctx,
        0,
        &leaves,
        leaf_count,
        leaf_size,
        ch,
        HASH_SELECTOR_DEFAULT,
    )
    .unwrap();
    let (ref_dig, ref_caps) = ref_tree(&words, leaf_size, k, ch);
    assert_eq!(dig.len(), 2 * (leaf_count - (1 << ch)) * 4);
    assert_eq!(caps.len(), (1 << ch) * 4);
    assert_eq!(dig, ref_dig);
    assert_eq!(caps, ref_caps);
}

#[test]
fn test_single_device_cap_height_zero() {
    let k = 2usize;
    let leaf_size = 3usize;
    let leaf_count = 1usize << k;
    let words = seeded_leaves(leaf_count * leaf_size);
    let mut ctx = Context::new(1, 1 << 20);
    let leaves = Buffer::host(leaf_size, words.clone());
    let (dig, caps) =
        fill_digests_single_device(&mut ctx, 0, &leaves, leaf_count, leaf_size, 0, 0).unwrap();
    let (ref_dig, ref_caps) = ref_tree(&words, leaf_size, k, 0);
    assert_eq!(dig, ref_dig);
    // The single capital is the tree root.
    assert_eq!(caps, ref_caps);
    assert_eq!(caps.len(), 4);
}

#[test]
fn test_multi_device_matches_single_device() {
    // Above the fan-out threshold with a positive cap height and two
    // devices, the selector takes the multi-device path; its output
    // equals the single-device output for identical inputs.
    let k = 12usize;
    let leaf_size = 7usize;
    let ch = 1usize;
    let leaf_count = 1usize << k; // 4096
    let words = seeded_leaves(leaf_count * leaf_size);
    let leaves = Buffer::host(leaf_size, words.clone());

    let mut ctx_single = Context::new(1, 1 << 24);
    let (dig_s, caps_s) = fill_digests_single_device(
        &mut ctx_single,
        0,
        &leaves,
        leaf_count,
        leaf_size,
        ch,
        0,
    )
    .unwrap();

    let mut ctx_multi = Context::new(2, 1 << 24);
    assert!(uses_multi_device(leaf_count, ch, ctx_multi.device_count()));
    let (dig_m, caps_m) =
        fill_digests(&mut ctx_multi, 0, &leaves, leaf_count, leaf_size, ch, 0).unwrap();
    assert_eq!(dig_m, dig_s);
    assert_eq!(caps_m, caps_s);
}

#[test]
fn test_multi_device_explicit_call_matches_reference() {
    let k = 4usize;
    let leaf_size = 2usize;
    let ch = 2usize;
    let leaf_count = 1usize << k;
    let words = seeded_leaves(leaf_count * leaf_size);
    let leaves = Buffer::host(leaf_size, words.clone());
    let mut ctx = Context::new(3, 1 << 20);
    let (dig, caps) =
        fill_digests_multi_device(&mut ctx, &leaves, leaf_count, leaf_size, ch, 0).unwrap();
    let (ref_dig, ref_caps) = ref_tree(&words, leaf_size, k, ch);
    assert_eq!(dig, ref_dig);
    assert_eq!(caps, ref_caps);
}

#[test]
fn test_degenerate_full_cap_height() {
    // cap_height equal to the full tree height: no digests, and each
    // capital is the corresponding one-leaf subtree root (its leaf hash).
    let k = 2usize;
    let leaf_size = 5usize;
    let leaf_count = 1usize << k;
    let words = seeded_leaves(leaf_count * leaf_size);
    let mut ctx = Context::new(1, 1 << 20);
    let leaves = Buffer::host(leaf_size, words.clone());
    let (dig, caps) =
        fill_digests_single_device(&mut ctx, 0, &leaves, leaf_count, leaf_size, k, 0).unwrap();
    assert_eq!(dig.len(), 0);
    let mut expected = Vec::new();
    for i in 0..leaf_count {
        expected.extend_from_slice(&ref_hash_leaf(&words[i * leaf_size..(i + 1) * leaf_size]));
    }
    assert_eq!(caps, expected);
}

#[test]
fn test_selection_rule_boundaries() {
    assert!(uses_multi_device(4096, 1, 2));
    assert!(!uses_multi_device(4095, 1, 2));
    assert!(!uses_multi_device(4096, 0, 2));
    assert!(!uses_multi_device(4096, 1, 1));
}

#[test]
fn test_unsupported_selector_then_clear_restores_success() {
    // An unsupported hash selector reports a compute failure and leaves a
    // sticky status; the stale status fails an unrelated later call;
    // clear_error_state restores success for a valid call of the same kind.
    let k = 2usize;
    let leaf_size = 3usize;
    let leaf_count = 1usize << k;
    let words = seeded_leaves(leaf_count * leaf_size);
    let mut ctx = Context::new(1, 1 << 20);
    let leaves = Buffer::host(leaf_size, words.clone());
    let r = fill_digests_single_device(&mut ctx, 0, &leaves, leaf_count, leaf_size, 1, 9);
    assert_eq!(r.unwrap_err(), Error::ComputeFailure(UNSUPPORTED_HASH_STATUS));
    // The stale status is misattributed to the next, valid call.
    let r2 = fill_digests_single_device(&mut ctx, 0, &leaves, leaf_count, leaf_size, 1, 0);
    assert_eq!(r2.unwrap_err(), Error::ComputeFailure(UNSUPPORTED_HASH_STATUS));
    ctx.clear_error_state();
    let r3 = fill_digests_single_device(&mut ctx, 0, &leaves, leaf_count, leaf_size, 1, 0);
    assert!(r3.is_ok());
}

#[test]
fn test_merkle_validation_errors() {
    let mut ctx = Context::new(1, 1 << 20);
    let words = seeded_leaves(12);
    let leaves = Buffer::host(3, words.clone());
    // Bad device id.
    assert_eq!(
        fill_digests_single_device(&mut ctx, 9, &leaves, 4, 3, 1, 0).unwrap_err(),
        Error::InvalidDevice
    );
    // Leaf count not a power of two.
    let leaves3 = Buffer::host(4, words.clone());
    assert_eq!(
        fill_digests_single_device(&mut ctx, 0, &leaves3, 3, 4, 1, 0).unwrap_err(),
        Error::ConfigurationError
    );
    // Cap height above the tree.
    assert_eq!(
        fill_digests_single_device(&mut ctx, 0, &leaves, 4, 3, 5, 0).unwrap_err(),
        Error::ConfigurationError
    );
    // Device memory exhausted.
    let mut tiny = Context::new(1, 8);
    assert_eq!(
        fill_digests_single_device(&mut tiny, 0, &leaves, 4, 3, 1, 0).unwrap_err(),
        Error::AllocationFailure
    );
}
