use zeknox::buffer::Buffer;
use zeknox::config::NTTConfig;
use zeknox::config::TransposeConfig;
use zeknox::context::Context;
use zeknox::error::Error;
use zeknox::field::{add_mod, mul_mod, pow_mod, MODULUS};
use zeknox::transform::{intt_batch, lde_batch, lde_batch_multi_gpu, ntt_batch, transpose_rev_batch};

const P: u128 = 0xffff_ffff_0000_0001;

fn fadd(a: u64, b: u64) -> u64 {
    ((a as u128 + b as u128) % P) as u64
}

fn fmul(a: u64, b: u64) -> u64 {
    ((a as u128 * b as u128) % P) as u64
}

fn device_cfg(batches: usize) -> NTTConfig {
    NTTConfig {
        batches,
        are_inputs_on_device: true,
        are_outputs_on_device: true,
        with_coset: false,
        extension_rate_bits: 0,
    }
}

fn dev_buffer(device_id: usize, data: Vec<u64>) -> Buffer {
    Buffer { on_device: true, device_id, elem_size: 1, data }
}

fn seeded_data(n: usize) -> Vec<u64> {
    let mut v = Vec::with_capacity(n);
    let mut x: u64 = 0x1234_5678_9abc_def0;
    for _ in 0..n {
        x = ((x as u128 * 6364136223846793005u128 + 1442695040888963407u128) % P) as u64;
        v.push(x);
    }
    v
}

#[test]
fn test_field_ops_exact() {
    assert_eq!(add_mod(MODULUS - 1, 1), 0);
    assert_eq!(add_mod(3, 4), 7);
    assert_eq!(mul_mod(3, 4), 12);
    assert_eq!(pow_mod(7, 2), 49);
    // Fermat: a^(p-1) = 1 for a not divisible by p.
    assert_eq!(pow_mod(5, MODULUS - 1), 1);
}

#[test]
fn test_ntt_exact_size_two() {
    let mut ctx = Context::new(1, 1 << 20);
    ctx.init_transform_tables(0, 1).unwrap();
    let x0: u64 = 11;
    let x1: u64 = 29;
    let mut buf = dev_buffer(0, vec![x0, x1]);
    ntt_batch(&ctx, 0, &mut buf, 1, device_cfg(1)).unwrap();
    // The order-2 root of unity is -1, so the transform is (x0+x1, x0-x1).
    let w = pow_mod(7, (MODULUS - 1) >> 1);
    assert_eq!(w, MODULUS - 1);
    assert_eq!(buf.data[0], fadd(x0, x1));
    assert_eq!(buf.data[1], fadd(x0, fmul(w, x1)));
}

#[test]
fn test_ntt_intt_round_trip() {
    // intt_batch(ntt_batch(x)) == x for fully reduced inputs.
    let mut ctx = Context::new(1, 1 << 20);
    ctx.init_transform_tables(0, 3).unwrap();
    let data = seeded_data(16);
    let mut buf = dev_buffer(0, data.clone());
    let cfg = device_cfg(2);
    ntt_batch(&ctx, 0, &mut buf, 3, cfg).unwrap();
    assert_ne!(buf.data, data);
    intt_batch(&ctx, 0, &mut buf, 3, cfg).unwrap();
    assert_eq!(buf.data, data);
}

#[test]
fn test_ntt_intt_round_trip_various_sizes() {
    for lg in 0..=6 {
        let mut ctx = Context::new(1, 1 << 20);
        ctx.init_transform_tables(0, lg).unwrap();
        let n = 1usize << lg;
        let data = seeded_data(n);
        let mut buf = dev_buffer(0, data.clone());
        let cfg = device_cfg(1);
        ntt_batch(&ctx, 0, &mut buf, lg, cfg).unwrap();
        intt_batch(&ctx, 0, &mut buf, lg, cfg).unwrap();
        assert_eq!(buf.data, data, "round trip failed at lg {}", lg);
    }
}

#[test]
fn test_ntt_requires_initialized_tables() {
    let ctx = Context::new(1, 1 << 20);
    let mut buf = dev_buffer(0, vec![1, 2]);
    let r = ntt_batch(&ctx, 0, &mut buf, 1, device_cfg(1));
    assert_eq!(r, Err(Error::UninitializedState));
    assert_eq!(buf.data, vec![1, 2]);
}

#[test]
fn test_ntt_invalid_device_and_geometry() {
    let mut ctx = Context::new(1, 1 << 20);
    ctx.init_transform_tables(0, 1).unwrap();
    let mut buf = dev_buffer(0, vec![1, 2]);
    assert_eq!(ntt_batch(&ctx, 3, &mut buf, 1, device_cfg(1)), Err(Error::InvalidDevice));
    // Length 2 does not match 2^2 words.
    assert_eq!(ntt_batch(&ctx, 0, &mut buf, 2, device_cfg(1)), Err(Error::ConfigurationError));
    // A host buffer is rejected for the in-place device transform.
    let mut host = Buffer::host(1, vec![1, 2]);
    assert_eq!(ntt_batch(&ctx, 0, &mut host, 1, device_cfg(1)), Err(Error::ConfigurationError));
}

#[test]
fn test_lde_rate_zero_matches_ntt() {
    let mut ctx = Context::new(1, 1 << 20);
    ctx.init_transform_tables(0, 3).unwrap();
    let data = seeded_data(8);
    let mut inout = dev_buffer(0, data.clone());
    ntt_batch(&ctx, 0, &mut inout, 3, device_cfg(1)).unwrap();
    let input = dev_buffer(0, data);
    let mut output = dev_buffer(0, vec![0u64; 8]);
    lde_batch(&ctx, 0, &mut output, &input, 3, device_cfg(1)).unwrap();
    assert_eq!(output.data, inout.data);
}

#[test]
fn test_lde_multi_gpu_matches_sequential_single_device() {
    // Evenly divisible work: the multi-device output equals sequential
    // single-device extensions over the batch partitions.
    let mut ctx = Context::new(2, 1 << 20);
    for d in 0..2 {
        ctx.init_transform_tables(d, 3).unwrap();
    }
    let mut cfg = device_cfg(4);
    cfg.extension_rate_bits = 1;
    let input = seeded_data(4 * 4);
    let in_buf = dev_buffer(0, input.clone());
    let mut out_buf = dev_buffer(0, vec![0u64; 4 * 8]);
    lde_batch_multi_gpu(&ctx, &mut out_buf, &in_buf, 2, cfg, 3, 16, 32).unwrap();

    let mut sequential: Vec<u64> = Vec::new();
    for d in 0..2 {
        let mut part_cfg = cfg;
        part_cfg.batches = 2;
        let part_in = dev_buffer(d, input[d * 8..(d + 1) * 8].to_vec());
        let mut part_out = dev_buffer(d, vec![0u64; 16]);
        lde_batch(&ctx, d, &mut part_out, &part_in, 3, part_cfg).unwrap();
        sequential.extend_from_slice(&part_out.data);
    }
    assert_eq!(out_buf.data, sequential);
}

#[test]
fn test_lde_multi_gpu_uneven_division_rejected() {
    let mut ctx = Context::new(3, 1 << 20);
    for d in 0..3 {
        ctx.init_transform_tables(d, 2).unwrap();
    }
    let in_buf = dev_buffer(0, vec![1u64; 16]);
    let mut out_buf = dev_buffer(0, vec![0u64; 16]);
    // 16 output elements are not evenly divisible across 3 devices.
    let r = lde_batch_multi_gpu(&ctx, &mut out_buf, &in_buf, 3, device_cfg(4), 2, 16, 16);
    assert_eq!(r, Err(Error::ConfigurationError));
    assert_eq!(out_buf.data, vec![0u64; 16]);
}

#[test]
fn test_transpose_rev_exact() {
    let ctx = Context::new(1, 1 << 20);
    let cfg = TransposeConfig {
        batches: 2,
        are_inputs_on_device: true,
        are_outputs_on_device: true,
    };
    let input = dev_buffer(0, vec![10, 11, 12, 13, 20, 21, 22, 23]);
    let mut output = dev_buffer(0, vec![0u64; 8]);
    transpose_rev_batch(&ctx, 0, &mut output, &input, 2, cfg).unwrap();
    // Bit reversal over 2 bits: 0->0, 1->2, 2->1, 3->3.
    assert_eq!(output.data, vec![10, 20, 12, 22, 11, 21, 13, 23]);
}

#[test]
fn test_stale_sticky_status_misattributed_then_cleared() {
    // A stale native status fails an unrelated later call verbatim, and
    // clear_error_state restores success for the same kind of call.
    let mut ctx = Context::new(1, 1 << 20);
    ctx.init_transform_tables(0, 1).unwrap();
    ctx.record_native_status(0, 77);
    let mut buf = dev_buffer(0, vec![1, 2]);
    assert_eq!(ntt_batch(&ctx, 0, &mut buf, 1, device_cfg(1)), Err(Error::ComputeFailure(77)));
    assert_eq!(buf.data, vec![1, 2]);
    ctx.clear_error_state();
    assert_eq!(ntt_batch(&ctx, 0, &mut buf, 1, device_cfg(1)), Ok(()));
}

#[test]
fn test_lde_with_coset_requires_generator_then_matches_shifted_ntt() {
    let mut ctx = Context::new(1, 1 << 20);
    ctx.init_transform_tables(0, 2).unwrap();
    let data = seeded_data(4);
    let input = dev_buffer(0, data.clone());
    let mut output = dev_buffer(0, vec![0u64; 4]);
    let mut cfg = device_cfg(1);
    cfg.with_coset = true;
    // No coset generator registered yet for this size.
    assert_eq!(
        lde_batch(&ctx, 0, &mut output, &input, 2, cfg),
        Err(Error::UninitializedState)
    );
    let g: u64 = 7;
    ctx.init_coset(0, 2, g).unwrap();
    lde_batch(&ctx, 0, &mut output, &input, 2, cfg).unwrap();
    // Coset evaluation equals the plain transform of coefficients shifted
    // by powers of the generator.
    let mut shifted = Vec::new();
    let mut gj: u64 = 1;
    for &x in &data {
        shifted.push(fmul(x, gj));
        gj = fmul(gj, g);
    }
    let mut plain = dev_buffer(0, shifted);
    ntt_batch(&ctx, 0, &mut plain, 2, device_cfg(1)).unwrap();
    assert_eq!(output.data, plain.data);
}

#[test]
fn test_ntt_exact_size_four() {
    // Direct evaluation against the definition: out[i] = sum x[j] w^(i j).
    let mut ctx = Context::new(1, 1 << 20);
    ctx.init_transform_tables(0, 2).unwrap();
    let data: Vec<u64> = vec![5, 0, 0, 0];
    let mut buf = dev_buffer(0, data);
    ntt_batch(&ctx, 0, &mut buf, 2, device_cfg(1)).unwrap();
    // A constant polynomial evaluates to its constant everywhere.
    assert_eq!(buf.data, vec![5, 5, 5, 5]);
}
