//! The transform dispatcher: batched forward/inverse number-theoretic
//! transforms, low-degree extension (single- and multi-device), and the
//! bit-reversed batched transpose.
//!
//! Every entry point validates device, buffer tags, geometry, table state
//! and the sticky status word before touching any data; a failure leaves
//! every buffer exactly as it was — there is no partial success.

use vstd::prelude::*;
use vstd::arithmetic::power2::pow2;
use crate::buffer::Buffer;
use crate::config::{NTTConfig, TransposeConfig};
use crate::context::{domain_root, Context, MAX_LOG_DOMAIN_SIZE};
use crate::error::{translate_status, Error};
use crate::field::{add_f, add_mod, mul_f, mul_mod, pow_f, pow_mod, MODULUS};

verus! {

/// Partial inner product of a row with the powers of `wi`: the sum of
/// `x[j] * wi^j` over `j < t`, in the field.
pub open spec fn eval_partial(x: Seq<u64>, wi: u64, t: nat) -> u64
    decreases t,
{
    if t == 0 {
        0u64
    } else {
        add_f(eval_partial(x, wi, (t - 1) as nat), mul_f(x[t - 1], pow_f(wi, (t - 1) as nat)))
    }
}

/// The polynomial with coefficient row `x`, evaluated at the point `wi`.
pub open spec fn eval_point(x: Seq<u64>, wi: u64) -> u64 {
    eval_partial(x, wi, x.len())
}

/// Forward transform of one row: evaluation at every power of `w`.
pub open spec fn ntt_row(x: Seq<u64>, w: u64) -> Seq<u64> {
    Seq::new(x.len(), |i: int| eval_point(x, pow_f(w, i as nat)))
}

/// The multiplicative inverse as computed by the dispatcher: the argument
/// raised to `MODULUS - 2`.
pub open spec fn inv_f(a: u64) -> u64 {
    pow_f(a, (MODULUS - 2) as nat)
}

/// Inverse transform of one row: evaluation at every power of the inverse
/// root, scaled by the inverse of the row length.
pub open spec fn intt_row(y: Seq<u64>, w: u64) -> Seq<u64> {
    Seq::new(
        y.len(),
        |j: int| mul_f(inv_f(y.len() as u64), eval_point(y, pow_f(inv_f(w), j as nat))),
    )
}

/// One input row of a low-degree extension, zero-padded to the output
/// domain, with each coefficient shifted onto the coset when requested.
pub open spec fn lde_padded_row(x: Seq<u64>, n_out: nat, use_coset: bool, g: u64) -> Seq<u64> {
    Seq::new(
        n_out,
        |j: int|
            if j < x.len() {
                if use_coset {
                    mul_f(x[j], pow_f(g, j as nat))
                } else {
                    x[j]
                }
            } else {
                0u64
            },
    )
}

/// One output row of a low-degree extension: the padded, possibly
/// coset-shifted row evaluated over the larger domain.
pub open spec fn lde_row(x: Seq<u64>, n_out: nat, use_coset: bool, g: u64, w: u64) -> Seq<u64> {
    ntt_row(lde_padded_row(x, n_out, use_coset, g), w)
}

/// Row `b` of a batched buffer with row length `n`.
pub open spec fn row_of(data: Seq<u64>, b: int, n: int) -> Seq<u64> {
    data.subrange(b * n, (b + 1) * n)
}

/// Bit reversal of the low `lg` bits of `x`.
pub open spec fn bit_rev(x: nat, lg: nat) -> nat
    decreases lg,
{
    if lg == 0 {
        0
    } else {
        (x % 2) * pow2((lg - 1) as nat) + bit_rev(x / 2, (lg - 1) as nat)
    }
}

/// A bit-reversed index stays inside the domain.
pub proof fn lemma_bit_rev_bound(x: nat, lg: nat)
    ensures
        bit_rev(x, lg) < pow2(lg),
    decreases lg,
{
    vstd::arithmetic::power2::lemma_pow2_pos(lg);
    if lg == 0 {
    } else {
        let h = pow2((lg - 1) as nat);
        lemma_bit_rev_bound(x / 2, (lg - 1) as nat);
        vstd::arithmetic::power2::lemma_pow2_pos((lg - 1) as nat);
        vstd::arithmetic::power2::lemma_pow2_unfold(lg);
        assert(pow2(lg) == 2 * h);
        if x % 2 == 0 {
            assert(bit_rev(x, lg) == bit_rev(x / 2, (lg - 1) as nat));
        } else {
            assert(x % 2 == 1);
            assert(bit_rev(x, lg) == h + bit_rev(x / 2, (lg - 1) as nat));
        }
    }
}

/// Computes `2^lg` when it fits the machine word.
pub fn pow2_checked(lg: usize) -> (r: Option<usize>)
    ensures
        r matches Some(n) ==> n == pow2(lg as nat),
        r is None ==> pow2(lg as nat) > usize::MAX,
{
    let mut n: usize = 1;
    let mut i: usize = 0;
    proof {
        vstd::arithmetic::power2::lemma2_to64();
    }
    while i < lg
        invariant
            i <= lg,
            n == pow2(i as nat),
        decreases lg - i,
    {
        if n > usize::MAX / 2 {
            proof {
                vstd::arithmetic::power2::lemma_pow2_unfold((i + 1) as nat);
                if i + 1 < lg {
                    vstd::arithmetic::power2::lemma_pow2_strictly_increases(
                        (i + 1) as nat,
                        lg as nat,
                    );
                }
                assert(pow2(lg as nat) >= pow2((i + 1) as nat));
            }
            return None;
        }
        n = n * 2;
        proof {
            vstd::arithmetic::power2::lemma_pow2_unfold((i + 1) as nat);
        }
        i = i + 1;
    }
    Some(n)
}

/// Computes the bit reversal of `r` over `lg` bits.
pub fn bit_rev_exec(x: usize, lg: usize) -> (r: usize)
    requires
        pow2(lg as nat) <= usize::MAX,
    ensures
        r == bit_rev(x as nat, lg as nat),
        r < pow2(lg as nat),
    decreases lg,
{
    proof {
        lemma_bit_rev_bound(x as nat, lg as nat);
    }
    if lg == 0 {
        0
    } else {
        proof {
            vstd::arithmetic::power2::lemma_pow2_unfold(lg as nat);
            vstd::arithmetic::power2::lemma_pow2_pos((lg - 1) as nat);
        }
        let half = match pow2_checked(lg - 1) {
            Some(h) => h,
            None => {
                proof {
                    assert(false);
                }
                0
            },
        };
        let low = x % 2;
        let rest = bit_rev_exec(x / 2, lg - 1);
        proof {
            lemma_bit_rev_bound((x / 2) as nat, (lg - 1) as nat);
        }
        low * half + rest
    }
}

/// Reads row words `[start, start + n)` out of a buffer.
fn read_row(src: &Vec<u64>, start: usize, n: usize) -> (row: Vec<u64>)
    requires
        start + n <= src@.len(),
    ensures
        row@ == src@.subrange(start as int, start as int + n as int),
{
    let total: usize = src.len();
    let mut row: Vec<u64> = Vec::new();
    let mut i: usize = 0;
    while i < n
        invariant
            i <= n,
            start + n <= src@.len(),
            total == src@.len(),
            row@ == src@.subrange(start as int, start as int + i as int),
        decreases n - i,
    {
        row.push(src[start + i]);
        proof {
            assert(row@ =~= src@.subrange(start as int, start as int + i as int + 1));
        }
        i = i + 1;
    }
    row
}

/// Writes a row back over words `[start, start + row.len())`.
fn write_row(dst: &mut Vec<u64>, start: usize, row: &Vec<u64>)
    requires
        start + row@.len() <= old(dst)@.len(),
    ensures
        final(dst)@.len() == old(dst)@.len(),
        forall|k: int|
            0 <= k < old(dst)@.len() && !(start <= k < start + row@.len())
                ==> final(dst)@[k] == old(dst)@[k],
        forall|k: int| 0 <= k < row@.len() ==> final(dst)@[start + k] == row@[k],
{
    let total: usize = dst.len();
    let mut i: usize = 0;
    while i < row.len()
        invariant
            i <= row@.len(),
            start + row@.len() <= dst@.len(),
            total == dst@.len(),
            dst@.len() == old(dst)@.len(),
            forall|k: int|
                0 <= k < old(dst)@.len() && !(start <= k < start + i) ==> dst@[k] == old(
                    dst,
                )@[k],
            forall|k: int| 0 <= k < i ==> dst@[start + k] == row@[k],
        decreases row@.len() - i,
    {
        dst[start + i] = row[i];
        i = i + 1;
    }
}

/// Evaluates one row at every power of `w`: the forward transform of that
/// row, by direct inner products against the power table.
fn eval_full(x: &Vec<u64>, w: u64) -> (out: Vec<u64>)
    ensures
        out@ == ntt_row(x@, w),
{
    let n = x.len();
    let mut out: Vec<u64> = Vec::new();
    let mut i: usize = 0;
    while i < n
        invariant
            i <= n,
            n == x@.len(),
            out@.len() == i,
            forall|k: int| 0 <= k < i ==> out@[k] == eval_point(x@, pow_f(w, k as nat)),
        decreases n - i,
    {
        let wi = pow_mod(w, i as u64);
        let mut acc: u64 = 0;
        let mut wij: u64 = 1;
        let mut j: usize = 0;
        while j < n
            invariant
                j <= n,
                n == x@.len(),
                acc == eval_partial(x@, wi, j as nat),
                wij == pow_f(wi, j as nat),
            decreases n - j,
        {
            let ghost wij0 = wij;
            acc = add_mod(acc, mul_mod(x[j], wij));
            wij = mul_mod(wij, wi);
            proof {
                crate::field::lemma_mul_f_comm(wij0, wi);
            }
            j = j + 1;
        }
        out.push(acc);
        i = i + 1;
    }
    proof {
        assert(out@ =~= ntt_row(x@, w));
    }
    out
}

/// Scales every word of a row by `s`, in the field.
fn scale_row(row: &mut Vec<u64>, s: u64)
    ensures
        final(row)@.len() == old(row)@.len(),
        forall|k: int| 0 <= k < old(row)@.len() ==> final(row)@[k] == mul_f(s, old(row)@[k]),
{
    let mut i: usize = 0;
    while i < row.len()
        invariant
            i <= row@.len(),
            row@.len() == old(row)@.len(),
            forall|k: int| i <= k < row@.len() ==> row@[k] == old(row)@[k],
            forall|k: int| 0 <= k < i ==> row@[k] == mul_f(s, old(row)@[k]),
        decreases row@.len() - i,
    {
        row[i] = mul_mod(s, row[i]);
        i = i + 1;
    }
}

/// The in-place batched transform geometry is consistent: a device-resident
/// buffer of plain field elements on the named device, holding exactly
/// `batches` rows of `2^lg` words.
pub open spec fn inplace_geometry_ok(buf: Buffer, device_id: int, lg: int, cfg: NTTConfig) -> bool {
    &&& cfg.batches >= 1
    &&& 0 <= lg <= MAX_LOG_DOMAIN_SIZE
    &&& buf.on_device
    &&& buf.device_id == device_id
    &&& buf.elem_size == 1
    &&& buf.data@.len() == pow2(lg as nat) * cfg.batches
}

/// The validation outcome shared by `ntt_batch` and `intt_batch`, in the
/// order the dispatcher checks: device, geometry, tables, then the sticky
/// native status, which is passed through verbatim.
pub open spec fn inplace_err(
    c: Context,
    buf: Buffer,
    device_id: int,
    lg: int,
    cfg: NTTConfig,
) -> Option<Error> {
    if !c.device_ok(device_id) {
        Some(Error::InvalidDevice)
    } else if !inplace_geometry_ok(buf, device_id, lg, cfg) {
        Some(Error::ConfigurationError)
    } else if !c.table_ready(device_id, lg) {
        Some(Error::UninitializedState)
    } else if c.sticky_of(device_id) != 0 {
        Some(Error::ComputeFailure(c.sticky_of(device_id)))
    } else {
        None
    }
}

/// Validation shared by both in-place transforms; on success, hands back
/// the row length and the cached domain root.
fn inplace_validate(
    ctx: &Context,
    device_id: usize,
    buf: &Buffer,
    lg: usize,
    cfg: &NTTConfig,
) -> (r: Result<(usize, u64), Error>)
    requires
        ctx.wf(),
    ensures
        r is Ok <==> inplace_err(*ctx, *buf, device_id as int, lg as int, *cfg) is None,
        r matches Err(e) ==> Some(e) == inplace_err(*ctx, *buf, device_id as int, lg as int, *cfg),
        r matches Ok(p) ==> {
            &&& p.0 == pow2(lg as nat)
            &&& p.1 == domain_root(lg as nat)
            &&& cfg.batches >= 1
            &&& buf.data@.len() == p.0 * cfg.batches
        },
{
    if device_id >= ctx.devices.len() {
        return Err(Error::InvalidDevice);
    }
    if cfg.batches < 1 || lg > MAX_LOG_DOMAIN_SIZE || !buf.on_device || buf.device_id != device_id
        || buf.elem_size != 1 {
        return Err(Error::ConfigurationError);
    }
    proof {
        vstd::arithmetic::power2::lemma2_to64();
        if lg < 32 {
            vstd::arithmetic::power2::lemma_pow2_strictly_increases(lg as nat, 32nat);
        }
        assert(1u64 * pow2(lg as nat) <= u64::MAX);
        vstd::bits::lemma_u64_shl_is_mul(1u64, lg as u64);
    }
    let n64: u64 = 1u64 << (lg as u64);
    assert(n64 as int == pow2(lg as nat));
    let len: usize = buf.data.len();
    proof {
        assert((n64 as int) * (cfg.batches as int) <= (u64::MAX as int) * (u64::MAX as int))
            by (nonlinear_arith)
            requires
                n64 as int <= u64::MAX as int,
                cfg.batches as int <= u64::MAX as int,
        ;
    }
    let len_ok: bool = (n64 as u128) * (cfg.batches as u128) == (len as u128);
    proof {
        assert((n64 as int) * (cfg.batches as int) == pow2(lg as nat) * cfg.batches)
            by (nonlinear_arith)
            requires
                n64 as int == pow2(lg as nat),
        ;
    }
    if !len_ok {
        return Err(Error::ConfigurationError);
    }
    proof {
        assert(n64 as int <= pow2(lg as nat) * cfg.batches) by (nonlinear_arith)
            requires
                cfg.batches >= 1,
                n64 as int == pow2(lg as nat),
                n64 >= 1,
        ;
    }
    let n: usize = n64 as usize;
    if !ctx.devices[device_id].tables[lg] {
        return Err(Error::UninitializedState);
    }
    let sticky = ctx.devices[device_id].sticky;
    match translate_status(sticky) {
        Some(e) => {
            return Err(e);
        },
        None => {},
    }
    let root = ctx.devices[device_id].roots[lg];
    assert(root == domain_root(lg as nat));
    Ok((n, root))
}

/// In-place batched forward transform on a device-resident buffer. Each of
/// the `cfg.batches` rows of `2^lg` words is replaced by its evaluations at
/// the powers of the cached domain root. Requires prior table
/// initialization for that size on that device; any failure leaves the
/// buffer untouched.
pub fn ntt_batch(
    ctx: &Context,
    device_id: usize,
    buf: &mut Buffer,
    lg: usize,
    cfg: NTTConfig,
) -> (r: Result<(), Error>)
    requires
        ctx.wf(),
    ensures
        r is Ok <==> inplace_err(*ctx, *old(buf), device_id as int, lg as int, cfg) is None,
        r matches Err(e) ==> Some(e) == inplace_err(
            *ctx,
            *old(buf),
            device_id as int,
            lg as int,
            cfg,
        ),
        r is Err ==> *final(buf) == *old(buf),
        final(buf).on_device == old(buf).on_device,
        final(buf).device_id == old(buf).device_id,
        final(buf).elem_size == old(buf).elem_size,
        final(buf).data@.len() == old(buf).data@.len(),
        r is Ok ==> forall|b: int|
            0 <= b < cfg.batches ==> row_of(final(buf).data@, b, pow2(lg as nat) as int)
                == ntt_row(
                row_of(old(buf).data@, b, pow2(lg as nat) as int),
                domain_root(lg as nat),
            ),
{
    let (n, root) = match inplace_validate(ctx, device_id, buf, lg, &cfg) {
        Ok(p) => p,
        Err(e) => {
            return Err(e);
        },
    };
    transform_rows_forward(&mut buf.data, n, cfg.batches, root);
    Ok(())
}

/// In-place batched inverse transform on a device-resident buffer. Each row
/// is replaced by its evaluations at the powers of the inverse domain root,
/// scaled by the inverse of the row length. Validation and failure
/// behaviour match `ntt_batch`.
pub fn intt_batch(
    ctx: &Context,
    device_id: usize,
    buf: &mut Buffer,
    lg: usize,
    cfg: NTTConfig,
) -> (r: Result<(), Error>)
    requires
        ctx.wf(),
    ensures
        r is Ok <==> inplace_err(*ctx, *old(buf), device_id as int, lg as int, cfg) is None,
        r matches Err(e) ==> Some(e) == inplace_err(
            *ctx,
            *old(buf),
            device_id as int,
            lg as int,
            cfg,
        ),
        r is Err ==> *final(buf) == *old(buf),
        final(buf).on_device == old(buf).on_device,
        final(buf).device_id == old(buf).device_id,
        final(buf).elem_size == old(buf).elem_size,
        final(buf).data@.len() == old(buf).data@.len(),
        r is Ok ==> forall|b: int|
            0 <= b < cfg.batches ==> row_of(final(buf).data@, b, pow2(lg as nat) as int)
                == intt_row(
                row_of(old(buf).data@, b, pow2(lg as nat) as int),
                domain_root(lg as nat),
            ),
{
    let (n, root) = match inplace_validate(ctx, device_id, buf, lg, &cfg) {
        Ok(p) => p,
        Err(e) => {
            return Err(e);
        },
    };
    let w_inv = pow_mod(root, MODULUS - 2);
    let n_inv = pow_mod(n as u64, MODULUS - 2);
    transform_rows_inverse(&mut buf.data, n, cfg.batches, root, w_inv, n_inv);
    Ok(())
}

/// Replaces every row of `data` by its forward transform.
fn transform_rows_forward(data: &mut Vec<u64>, n: usize, batches: usize, w: u64)
    requires
        batches >= 1,
        old(data)@.len() == n * batches,
    ensures
        final(data)@.len() == old(data)@.len(),
        forall|b: int|
            0 <= b < batches ==> row_of(final(data)@, b, n as int) == ntt_row(
                row_of(old(data)@, b, n as int),
                w,
            ),
{
    let total: usize = data.len();
    let mut b: usize = 0;
    while b < batches
        invariant
            b <= batches,
            data@.len() == old(data)@.len(),
            old(data)@.len() == n * batches,
            total == data@.len(),
            forall|b2: int|
                0 <= b2 < b ==> row_of(data@, b2, n as int) == ntt_row(
                    row_of(old(data)@, b2, n as int),
                    w,
                ),
            forall|k: int| b * n <= k < data@.len() ==> data@[k] == old(data)@[k],
        decreases batches - b,
    {
        proof {
            lemma_row_bounds(b as int, n as int, batches as int);
            assert(b * n + n <= total);
        }
        let start = b * n;
        let row = read_row(data, start, n);
        proof {
            assert(row@ =~= row_of(old(data)@, b as int, n as int));
        }
        let out = eval_full(&row, w);
        let ghost before = data@;
        write_row(data, start, &out);
        proof {
            lemma_rows_after_write(before, data@, old(data)@, out@, b as int, n as int, batches as int, w);
        }
        b = b + 1;
    }
}

/// Replaces every row of `data` by its inverse transform.
fn transform_rows_inverse(
    data: &mut Vec<u64>,
    n: usize,
    batches: usize,
    w: u64,
    w_inv: u64,
    n_inv: u64,
)
    requires
        batches >= 1,
        old(data)@.len() == n * batches,
        w_inv == inv_f(w),
        n_inv == inv_f(n as u64),
    ensures
        final(data)@.len() == old(data)@.len(),
        forall|b: int|
            0 <= b < batches ==> row_of(final(data)@, b, n as int) == intt_row(
                row_of(old(data)@, b, n as int),
                w,
            ),
{
    let total: usize = data.len();
    let mut b: usize = 0;
    while b < batches
        invariant
            b <= batches,
            data@.len() == old(data)@.len(),
            old(data)@.len() == n * batches,
            total == data@.len(),
            w_inv == inv_f(w),
            n_inv == inv_f(n as u64),
            forall|b2: int|
                0 <= b2 < b ==> row_of(data@, b2, n as int) == intt_row(
                    row_of(old(data)@, b2, n as int),
                    w,
                ),
            forall|k: int| b * n <= k < data@.len() ==> data@[k] == old(data)@[k],
        decreases batches - b,
    {
        proof {
            lemma_row_bounds(b as int, n as int, batches as int);
            vstd::arithmetic::mul::lemma_mul_is_commutative(batches as int, n as int);
            assert(b * n + n <= total);
        }
        let start = b * n;
        let row = read_row(data, start, n);
        proof {
            assert(row@ =~= row_of(old(data)@, b as int, n as int));
        }
        let mut out = eval_full(&row, w_inv);
        scale_row(&mut out, n_inv);
        proof {
            assert(out@ =~= intt_row(row@, w));
        }
        let ghost before = data@;
        write_row(data, start, &out);
        proof {
            lemma_rows_after_write_general(
                before,
                data@,
                old(data)@,
                out@,
                b as int,
                n as int,
                batches as int,
            );
            assert forall|b2: int| 0 <= b2 < b + 1 implies row_of(data@, b2, n as int) == intt_row(
                row_of(old(data)@, b2, n as int),
                w,
            ) by {
                if b2 == b {
                    assert(row_of(data@, b2, n as int) =~= out@);
                }
            }
        }
        b = b + 1;
    }
}

/// Index bounds of row `b` inside a buffer of `batches` rows of `n` words.
proof fn lemma_row_bounds(b: int, n: int, batches: int)
    requires
        0 <= b < batches,
        n >= 0,
    ensures
        b * n >= 0,
        b * n + n <= batches * n,
        (b + 1) * n == b * n + n,
{
    assert(b * n >= 0) by (nonlinear_arith)
        requires
            b >= 0,
            n >= 0,
    ;
    assert((b + 1) * n <= batches * n) by (nonlinear_arith)
        requires
            b + 1 <= batches,
            n >= 0,
    ;
    assert((b + 1) * n == b * n + n) by (nonlinear_arith);
}

/// After writing the transformed row `b` in place, every earlier row keeps
/// its transformed contents, row `b` holds the written words, and the rows
/// beyond keep the original words.
proof fn lemma_rows_after_write_general(
    before: Seq<u64>,
    now: Seq<u64>,
    orig: Seq<u64>,
    written: Seq<u64>,
    b: int,
    n: int,
    batches: int,
)
    requires
        0 <= b < batches,
        n >= 0,
        orig.len() == batches * n,
        before.len() == orig.len(),
        now.len() == before.len(),
        written.len() == n,
        forall|k: int|
            0 <= k < before.len() && !(b * n <= k < b * n + n) ==> now[k] == before[k],
        forall|k: int| 0 <= k < n ==> now[b * n + k] == written[k],
        forall|k: int| b * n <= k < before.len() ==> before[k] == orig[k],
    ensures
        forall|b2: int|
            0 <= b2 < b ==> row_of(now, b2, n) == row_of(before, b2, n),
        row_of(now, b, n) =~= written,
        forall|k: int| (b + 1) * n <= k < now.len() ==> now[k] == orig[k],
{
    lemma_row_bounds(b, n, batches);
    assert forall|b2: int| 0 <= b2 < b implies row_of(now, b2, n) == row_of(before, b2, n) by {
        lemma_row_bounds(b2, n, batches);
        assert((b2 + 1) * n <= b * n) by (nonlinear_arith)
            requires
                b2 + 1 <= b,
                n >= 0,
        ;
        assert(row_of(now, b2, n) =~= row_of(before, b2, n));
    }
    assert(row_of(now, b, n) =~= written);
}

/// A buffer's location agrees with its configuration flag, and a
/// device-resident buffer belongs to the named device.
pub open spec fn location_ok(b: Buffer, on_device_flag: bool, device_id: int) -> bool {
    b.on_device == on_device_flag && (b.on_device ==> b.device_id == device_id)
}

/// Geometry of a single-device low-degree extension: `batches` input rows
/// of `2^(lg - rate)` words extended to output rows of `2^lg` words.
pub open spec fn lde_geometry_ok(
    out_buf: Buffer,
    in_buf: Buffer,
    device_id: int,
    lg: int,
    cfg: NTTConfig,
) -> bool {
    &&& cfg.batches >= 1
    &&& 0 <= lg <= MAX_LOG_DOMAIN_SIZE
    &&& cfg.extension_rate_bits <= lg
    &&& location_ok(in_buf, cfg.are_inputs_on_device, device_id)
    &&& location_ok(out_buf, cfg.are_outputs_on_device, device_id)
    &&& in_buf.elem_size == 1
    &&& out_buf.elem_size == 1
    &&& in_buf.data@.len() == pow2((lg - cfg.extension_rate_bits) as nat) * cfg.batches
    &&& out_buf.data@.len() == pow2(lg as nat) * cfg.batches
}

/// Validation outcome of `lde_batch`, in checking order: device, geometry,
/// transform tables, coset tables when requested, then the sticky status.
pub open spec fn lde_err(
    c: Context,
    out_buf: Buffer,
    in_buf: Buffer,
    device_id: int,
    lg: int,
    cfg: NTTConfig,
) -> Option<Error> {
    if !c.device_ok(device_id) {
        Some(Error::InvalidDevice)
    } else if !lde_geometry_ok(out_buf, in_buf, device_id, lg, cfg) {
        Some(Error::ConfigurationError)
    } else if !c.table_ready(device_id, lg) {
        Some(Error::UninitializedState)
    } else if cfg.with_coset && !c.coset_ready(device_id, lg) {
        Some(Error::UninitializedState)
    } else if c.sticky_of(device_id) != 0 {
        Some(Error::ComputeFailure(c.sticky_of(device_id)))
    } else {
        None
    }
}

/// Builds the padded (and, on request, coset-shifted) row handed to the
/// forward transform of a low-degree extension.
fn build_padded(x: &Vec<u64>, n_out: usize, use_coset: bool, g: u64) -> (p: Vec<u64>)
    requires
        x@.len() <= n_out,
    ensures
        p@ == lde_padded_row(x@, n_out as nat, use_coset, g),
{
    let n_in = x.len();
    let mut p: Vec<u64> = Vec::new();
    let mut gj: u64 = 1;
    let mut j: usize = 0;
    while j < n_in
        invariant
            j <= n_in,
            n_in == x@.len(),
            gj == pow_f(g, j as nat),
            p@.len() == j,
            forall|k: int|
                0 <= k < j ==> p@[k] == (if use_coset {
                    mul_f(x@[k], pow_f(g, k as nat))
                } else {
                    x@[k]
                }),
        decreases n_in - j,
    {
        if use_coset {
            p.push(mul_mod(x[j], gj));
        } else {
            p.push(x[j]);
        }
        let ghost gj0 = gj;
        gj = mul_mod(gj, g);
        proof {
            crate::field::lemma_mul_f_comm(gj0, g);
        }
        j = j + 1;
    }
    while j < n_out
        invariant
            n_in <= j <= n_out,
            n_in == x@.len(),
            p@.len() == j,
            forall|k: int|
                0 <= k < n_in ==> p@[k] == (if use_coset {
                    mul_f(x@[k], pow_f(g, k as nat))
                } else {
                    x@[k]
                }),
            forall|k: int| n_in <= k < j ==> p@[k] == 0u64,
        decreases n_out - j,
    {
        p.push(0u64);
        j = j + 1;
    }
    proof {
        assert(p@ =~= lde_padded_row(x@, n_out as nat, use_coset, g));
    }
    p
}

/// Extends rows `[start_batch, start_batch + count)` from `data_in` into
/// `data_out`; words outside the written range are untouched.
fn lde_rows(
    data_out: &mut Vec<u64>,
    data_in: &Vec<u64>,
    start_batch: usize,
    count: usize,
    n_in: usize,
    n_out: usize,
    use_coset: bool,
    g: u64,
    root: u64,
)
    requires
        1 <= n_in <= n_out,
        (start_batch + count) * n_in <= data_in@.len(),
        (start_batch + count) * n_out <= old(data_out)@.len(),
    ensures
        final(data_out)@.len() == old(data_out)@.len(),
        forall|b: int|
            start_batch <= b < start_batch + count ==> row_of(final(data_out)@, b, n_out as int)
                == lde_row(
                row_of(data_in@, b, n_in as int),
                n_out as nat,
                use_coset,
                g,
                root,
            ),
        forall|k: int|
            0 <= k < old(data_out)@.len() && !((start_batch * n_out) <= k < (start_batch + count)
                * n_out) ==> final(data_out)@[k] == old(data_out)@[k],
{
    let total_in: usize = data_in.len();
    let total_out: usize = data_out.len();
    let mut i: usize = 0;
    while i < count
        invariant
            i <= count,
            1 <= n_in <= n_out,
            data_out@.len() == old(data_out)@.len(),
            total_in == data_in@.len(),
            total_out == data_out@.len(),
            (start_batch + count) * n_in <= data_in@.len(),
            (start_batch + count) * n_out <= data_out@.len(),
            forall|b: int|
                start_batch <= b < start_batch + i ==> row_of(data_out@, b, n_out as int)
                    == lde_row(
                    row_of(data_in@, b, n_in as int),
                    n_out as nat,
                    use_coset,
                    g,
                    root,
                ),
            forall|k: int|
                0 <= k < data_out@.len() && !((start_batch * n_out) <= k < (start_batch + i)
                    * n_out) ==> data_out@[k] == old(data_out)@[k],
        decreases count - i,
    {
        proof {
            assert(start_batch + count <= (start_batch + count) * n_in) by (nonlinear_arith)
                requires
                    n_in >= 1,
                    start_batch + count >= 0,
            ;
        }
        let b = start_batch + i;
        proof {
            lemma_lde_row_bounds(
                b as int,
                start_batch as int,
                count as int,
                n_in as int,
                n_out as int,
            );
        }
        let row = read_row(data_in, b * n_in, n_in);
        proof {
            assert(row@ =~= row_of(data_in@, b as int, n_in as int));
        }
        let padded = build_padded(&row, n_out, use_coset, g);
        let out_row = eval_full(&padded, root);
        let ghost before = data_out@;
        write_row(data_out, b * n_out, &out_row);
        proof {
            assert forall|b2: int|
                start_batch <= b2 < start_batch + i + 1 implies row_of(data_out@, b2, n_out as int)
                == lde_row(row_of(data_in@, b2, n_in as int), n_out as nat, use_coset, g, root) by {
                lemma_lde_row_bounds(
                    b2,
                    start_batch as int,
                    count as int,
                    n_in as int,
                    n_out as int,
                );
                if b2 == b {
                    assert(row_of(data_out@, b2, n_out as int) =~= out_row@);
                } else {
                    assert((b2 + 1) * n_out <= b * n_out) by (nonlinear_arith)
                        requires
                            b2 + 1 <= b,
                            n_out >= 0,
                    ;
                    assert(row_of(data_out@, b2, n_out as int) =~= row_of(
                        before,
                        b2,
                        n_out as int,
                    ));
                }
            }
            assert forall|k: int|
                0 <= k < data_out@.len() && !((start_batch * n_out) <= k < (start_batch + i + 1)
                    * n_out) implies data_out@[k] == old(data_out)@[k] by {
                assert((start_batch + i + 1) * n_out == b * n_out + n_out) by (nonlinear_arith)
                    requires
                        b == start_batch + i,
                ;
                assert(start_batch * n_out <= b * n_out) by (nonlinear_arith)
                    requires
                        start_batch <= b,
                        n_out >= 0,
                ;
            }
        }
        i = i + 1;
    }
}

/// Index bounds of row `b` inside a partition `[start, start + count)`.
proof fn lemma_lde_row_bounds(b: int, start: int, count: int, n_in: int, n_out: int)
    requires
        start <= b < start + count,
        0 <= start,
        n_in >= 0,
        n_out >= 0,
    ensures
        b * n_in >= 0,
        b * n_in + n_in <= (start + count) * n_in,
        (b + 1) * n_in == b * n_in + n_in,
        b * n_out >= 0,
        b * n_out + n_out <= (start + count) * n_out,
        (b + 1) * n_out == b * n_out + n_out,
{
    assert(b * n_in >= 0 && b * n_out >= 0) by (nonlinear_arith)
        requires
            b >= 0,
            n_in >= 0,
            n_out >= 0,
    ;
    assert((b + 1) * n_in <= (start + count) * n_in && (b + 1) * n_out <= (start + count)
        * n_out) by (nonlinear_arith)
        requires
            b + 1 <= start + count,
            n_in >= 0,
            n_out >= 0,
    ;
    assert((b + 1) * n_in == b * n_in + n_in && (b + 1) * n_out == b * n_out + n_out)
        by (nonlinear_arith);
}

/// The forward-transform instance of the write lemma, phrased against the
/// row specification directly.
proof fn lemma_rows_after_write(
    before: Seq<u64>,
    now: Seq<u64>,
    orig: Seq<u64>,
    written: Seq<u64>,
    b: int,
    n: int,
    batches: int,
    w: u64,
)
    requires
        0 <= b < batches,
        n >= 0,
        orig.len() == batches * n,
        before.len() == orig.len(),
        now.len() == before.len(),
        written.len() == n,
        written == ntt_row(row_of(orig, b, n), w),
        forall|k: int|
            0 <= k < before.len() && !(b * n <= k < b * n + n) ==> now[k] == before[k],
        forall|k: int| 0 <= k < n ==> now[b * n + k] == written[k],
        forall|k: int| b * n <= k < before.len() ==> before[k] == orig[k],
        forall|b2: int|
            0 <= b2 < b ==> row_of(before, b2, n) == ntt_row(row_of(orig, b2, n), w),
    ensures
        forall|b2: int|
            0 <= b2 < b + 1 ==> row_of(now, b2, n) == ntt_row(row_of(orig, b2, n), w),
        forall|k: int| (b + 1) * n <= k < now.len() ==> now[k] == orig[k],
{
    lemma_rows_after_write_general(before, now, orig, written, b, n, batches);
}

/// Single-device low-degree extension: each input row of `2^(lg - rate)`
/// words is zero-padded (and coset-shifted when requested) and evaluated
/// over the output domain of `2^lg` words. Any failure leaves the output
/// buffer untouched.
pub fn lde_batch(
    ctx: &Context,
    device_id: usize,
    out_buf: &mut Buffer,
    in_buf: &Buffer,
    lg: usize,
    cfg: NTTConfig,
) -> (r: Result<(), Error>)
    requires
        ctx.wf(),
    ensures
        r is Ok <==> lde_err(*ctx, *old(out_buf), *in_buf, device_id as int, lg as int, cfg)
            is None,
        r matches Err(e) ==> Some(e) == lde_err(
            *ctx,
            *old(out_buf),
            *in_buf,
            device_id as int,
            lg as int,
            cfg,
        ),
        r is Err ==> *final(out_buf) == *old(out_buf),
        final(out_buf).on_device == old(out_buf).on_device,
        final(out_buf).device_id == old(out_buf).device_id,
        final(out_buf).elem_size == old(out_buf).elem_size,
        final(out_buf).data@.len() == old(out_buf).data@.len(),
        r is Ok ==> forall|b: int|
            0 <= b < cfg.batches ==> row_of(final(out_buf).data@, b, pow2(lg as nat) as int)
                == lde_row(
                row_of(
                    in_buf.data@,
                    b,
                    pow2((lg - cfg.extension_rate_bits) as nat) as int,
                ),
                pow2(lg as nat),
                cfg.with_coset,
                ctx.coset_gen_of(device_id as int, lg as int),
                domain_root(lg as nat),
            ),
{
    if device_id >= ctx.devices.len() {
        return Err(Error::InvalidDevice);
    }
    if cfg.batches < 1 || lg > MAX_LOG_DOMAIN_SIZE || cfg.extension_rate_bits > lg {
        return Err(Error::ConfigurationError);
    }
    let in_loc_ok = in_buf.on_device == cfg.are_inputs_on_device && (!in_buf.on_device
        || in_buf.device_id == device_id);
    let out_loc_ok = out_buf.on_device == cfg.are_outputs_on_device && (!out_buf.on_device
        || out_buf.device_id == device_id);
    if !in_loc_ok || !out_loc_ok || in_buf.elem_size != 1 || out_buf.elem_size != 1 {
        return Err(Error::ConfigurationError);
    }
    let lg_in = lg - cfg.extension_rate_bits;
    proof {
        vstd::arithmetic::power2::lemma2_to64();
        if lg < 32 {
            vstd::arithmetic::power2::lemma_pow2_strictly_increases(lg as nat, 32nat);
        }
        if lg_in < 32 {
            vstd::arithmetic::power2::lemma_pow2_strictly_increases(lg_in as nat, 32nat);
        }
        assert(1u64 * pow2(lg as nat) <= u64::MAX);
        assert(1u64 * pow2(lg_in as nat) <= u64::MAX);
        vstd::bits::lemma_u64_shl_is_mul(1u64, lg as u64);
        vstd::bits::lemma_u64_shl_is_mul(1u64, lg_in as u64);
    }
    let n_out64: u64 = 1u64 << (lg as u64);
    let n_in64: u64 = 1u64 << (lg_in as u64);
    let out_len: usize = out_buf.data.len();
    let in_len: usize = in_buf.data.len();
    proof {
        assert((n_out64 as int) * (cfg.batches as int) <= (u64::MAX as int) * (u64::MAX as int)
            && (n_in64 as int) * (cfg.batches as int) <= (u64::MAX as int) * (u64::MAX as int))
            by (nonlinear_arith)
            requires
                n_out64 as int <= u64::MAX as int,
                n_in64 as int <= u64::MAX as int,
                cfg.batches as int <= u64::MAX as int,
        ;
    }
    let in_len_ok: bool = (n_in64 as u128) * (cfg.batches as u128) == (in_len as u128);
    let out_len_ok: bool = (n_out64 as u128) * (cfg.batches as u128) == (out_len as u128);
    if !in_len_ok || !out_len_ok {
        return Err(Error::ConfigurationError);
    }
    if !ctx.devices[device_id].tables[lg] {
        return Err(Error::UninitializedState);
    }
    if cfg.with_coset && !ctx.devices[device_id].cosets[lg] {
        return Err(Error::UninitializedState);
    }
    match translate_status(ctx.devices[device_id].sticky) {
        Some(e) => {
            return Err(e);
        },
        None => {},
    }
    proof {
        assert(n_out64 as int <= pow2(lg as nat) * cfg.batches) by (nonlinear_arith)
            requires
                cfg.batches >= 1,
                n_out64 as int == pow2(lg as nat),
                n_out64 >= 1,
        ;
    }
    proof {
        vstd::arithmetic::power2::lemma_pow2_pos(lg_in as nat);
    }
    let n_out: usize = n_out64 as usize;
    let n_in: usize = n_in64 as usize;
    let g: u64 = ctx.devices[device_id].coset_gens[lg];
    let root = ctx.devices[device_id].roots[lg];
    assert(root == domain_root(lg as nat));
    proof {
        assert((0 + cfg.batches) * n_in == in_buf.data@.len() && (0 + cfg.batches) * n_out
            == out_buf.data@.len()) by (nonlinear_arith)
            requires
                n_in as int * cfg.batches as int == in_buf.data@.len(),
                n_out as int * cfg.batches as int == out_buf.data@.len(),
        ;
        assert(pow2(lg_in as nat) <= pow2(lg as nat)) by {
            if lg_in < lg {
                vstd::arithmetic::power2::lemma_pow2_strictly_increases(
                    lg_in as nat,
                    lg as nat,
                );
            }
        }
    }
    lde_rows(
        &mut out_buf.data,
        &in_buf.data,
        0,
        cfg.batches,
        n_in,
        n_out,
        cfg.with_coset,
        g,
        root,
    );
    Ok(())
}

/// Per-device readiness scan for the multi-device extension, in device
/// order: transform tables, coset tables when requested, then the sticky
/// status word, which is passed through verbatim.
pub open spec fn device_scan(c: Context, i: int, dc: int, lg: int, with_coset: bool) -> Option<
    Error,
>
    decreases dc - i,
{
    if i >= dc {
        None
    } else if !c.table_ready(i, lg) {
        Some(Error::UninitializedState)
    } else if with_coset && !c.coset_ready(i, lg) {
        Some(Error::UninitializedState)
    } else if c.sticky_of(i) != 0 {
        Some(Error::ComputeFailure(c.sticky_of(i)))
    } else {
        device_scan(c, i + 1, dc, lg, with_coset)
    }
}

/// Geometry of the multi-device extension: on top of the single-device
/// geometry per row, the work must split evenly — the output length over
/// `device_count`, and the batch count over the devices, each of which
/// takes a contiguous run of whole rows.
pub open spec fn multi_geometry_ok(
    out_buf: Buffer,
    in_buf: Buffer,
    device_count: int,
    lg: int,
    cfg: NTTConfig,
    total_in: int,
    total_out: int,
) -> bool {
    &&& cfg.batches >= 1
    &&& 0 <= lg <= MAX_LOG_DOMAIN_SIZE
    &&& cfg.extension_rate_bits <= lg
    &&& in_buf.on_device == cfg.are_inputs_on_device
    &&& out_buf.on_device == cfg.are_outputs_on_device
    &&& in_buf.elem_size == 1
    &&& out_buf.elem_size == 1
    &&& total_in == in_buf.data@.len()
    &&& total_out == out_buf.data@.len()
    &&& in_buf.data@.len() == pow2((lg - cfg.extension_rate_bits) as nat) * cfg.batches
    &&& out_buf.data@.len() == pow2(lg as nat) * cfg.batches
    &&& (cfg.batches as int) % device_count == 0
}

/// Validation outcome of `lde_batch_multi_gpu`: device count, the
/// documented even-division requirement on the output length, geometry,
/// then the per-device readiness scan.
pub open spec fn multi_err(
    c: Context,
    out_buf: Buffer,
    in_buf: Buffer,
    device_count: int,
    lg: int,
    cfg: NTTConfig,
    total_in: int,
    total_out: int,
) -> Option<Error> {
    if device_count < 1 || device_count > c.devices@.len() {
        Some(Error::InvalidDevice)
    } else if total_out % device_count != 0 {
        Some(Error::ConfigurationError)
    } else if !multi_geometry_ok(out_buf, in_buf, device_count, lg, cfg, total_in, total_out) {
        Some(Error::ConfigurationError)
    } else {
        device_scan(c, 0, device_count, lg, cfg.with_coset)
    }
}

/// Multi-device low-degree extension. The logical output of
/// `total_output_elements` words is partitioned across `device_count`
/// devices; device `d` extends the `d`-th contiguous run of rows, at the
/// correct offset, using its own tables and coset generator. An output
/// length not evenly divisible by the device count is rejected as a
/// configuration error. Any failure leaves the output untouched.
#[verifier::loop_isolation(false)]
pub fn lde_batch_multi_gpu(
    ctx: &Context,
    out_buf: &mut Buffer,
    in_buf: &Buffer,
    device_count: usize,
    cfg: NTTConfig,
    lg: usize,
    total_input_elements: usize,
    total_output_elements: usize,
) -> (r: Result<(), Error>)
    requires
        ctx.wf(),
    ensures
        r is Ok <==> multi_err(
            *ctx,
            *old(out_buf),
            *in_buf,
            device_count as int,
            lg as int,
            cfg,
            total_input_elements as int,
            total_output_elements as int,
        ) is None,
        r matches Err(e) ==> Some(e) == multi_err(
            *ctx,
            *old(out_buf),
            *in_buf,
            device_count as int,
            lg as int,
            cfg,
            total_input_elements as int,
            total_output_elements as int,
        ),
        r is Err ==> *final(out_buf) == *old(out_buf),
        final(out_buf).on_device == old(out_buf).on_device,
        final(out_buf).device_id == old(out_buf).device_id,
        final(out_buf).elem_size == old(out_buf).elem_size,
        final(out_buf).data@.len() == old(out_buf).data@.len(),
        r is Ok ==> forall|d: int, b: int|
            0 <= d < device_count && 0 <= b < (cfg.batches as int) / (device_count as int)
                ==> #[trigger] row_of(
                final(out_buf).data@,
                d * ((cfg.batches as int) / (device_count as int)) + b,
                pow2(lg as nat) as int,
            ) == lde_row(
                row_of(
                    in_buf.data@,
                    d * ((cfg.batches as int) / (device_count as int)) + b,
                    pow2((lg - cfg.extension_rate_bits) as nat) as int,
                ),
                pow2(lg as nat),
                cfg.with_coset,
                ctx.coset_gen_of(d, lg as int),
                domain_root(lg as nat),
            ),
{
    if device_count < 1 || device_count > ctx.devices.len() {
        return Err(Error::InvalidDevice);
    }
    if total_output_elements % device_count != 0 {
        return Err(Error::ConfigurationError);
    }
    if cfg.batches < 1 || lg > MAX_LOG_DOMAIN_SIZE || cfg.extension_rate_bits > lg {
        return Err(Error::ConfigurationError);
    }
    if in_buf.on_device != cfg.are_inputs_on_device || out_buf.on_device
        != cfg.are_outputs_on_device || in_buf.elem_size != 1 || out_buf.elem_size != 1 {
        return Err(Error::ConfigurationError);
    }
    let out_len: usize = out_buf.data.len();
    let in_len: usize = in_buf.data.len();
    if total_input_elements != in_len || total_output_elements != out_len {
        return Err(Error::ConfigurationError);
    }
    let lg_in = lg - cfg.extension_rate_bits;
    proof {
        vstd::arithmetic::power2::lemma2_to64();
        if lg < 32 {
            vstd::arithmetic::power2::lemma_pow2_strictly_increases(lg as nat, 32nat);
        }
        if lg_in < 32 {
            vstd::arithmetic::power2::lemma_pow2_strictly_increases(lg_in as nat, 32nat);
        }
        assert(1u64 * pow2(lg as nat) <= u64::MAX);
        assert(1u64 * pow2(lg_in as nat) <= u64::MAX);
        vstd::bits::lemma_u64_shl_is_mul(1u64, lg as u64);
        vstd::bits::lemma_u64_shl_is_mul(1u64, lg_in as u64);
    }
    let n_out64: u64 = 1u64 << (lg as u64);
    let n_in64: u64 = 1u64 << (lg_in as u64);
    proof {
        assert((n_out64 as int) * (cfg.batches as int) <= (u64::MAX as int) * (u64::MAX as int)
            && (n_in64 as int) * (cfg.batches as int) <= (u64::MAX as int) * (u64::MAX as int))
            by (nonlinear_arith)
            requires
                n_out64 as int <= u64::MAX as int,
                n_in64 as int <= u64::MAX as int,
                cfg.batches as int <= u64::MAX as int,
        ;
    }
    let in_len_ok: bool = (n_in64 as u128) * (cfg.batches as u128) == (in_len as u128);
    let out_len_ok: bool = (n_out64 as u128) * (cfg.batches as u128) == (out_len as u128);
    if !in_len_ok || !out_len_ok {
        return Err(Error::ConfigurationError);
    }
    if cfg.batches % device_count != 0 {
        return Err(Error::ConfigurationError);
    }
    proof {
        assert(multi_geometry_ok(
            *old(out_buf),
            *in_buf,
            device_count as int,
            lg as int,
            cfg,
            total_input_elements as int,
            total_output_elements as int,
        ));
    }
    let mut i: usize = 0;
    while i < device_count
        invariant
            i <= device_count,
            ctx.wf(),
            device_count <= ctx.devices@.len(),
            device_scan(*ctx, 0, device_count as int, lg as int, cfg.with_coset) == device_scan(
                *ctx,
                i as int,
                device_count as int,
                lg as int,
                cfg.with_coset,
            ),
            forall|d: int| 0 <= d < i ==> ctx.table_ready(d, lg as int),
            forall|d: int|
                0 <= d < i && cfg.with_coset ==> ctx.coset_ready(d, lg as int),
            forall|d: int| 0 <= d < i ==> ctx.sticky_of(d) == 0,
            lg <= MAX_LOG_DOMAIN_SIZE,
        decreases device_count - i,
    {
        if !ctx.devices[i].tables[lg] {
            proof {
                assert(!ctx.table_ready(i as int, lg as int));
                assert(device_scan(*ctx, i as int, device_count as int, lg as int, cfg.with_coset)
                    == Some(Error::UninitializedState));
            }
            return Err(Error::UninitializedState);
        }
        if cfg.with_coset && !ctx.devices[i].cosets[lg] {
            proof {
                assert(ctx.table_ready(i as int, lg as int));
                assert(!ctx.coset_ready(i as int, lg as int));
                assert(device_scan(*ctx, i as int, device_count as int, lg as int, cfg.with_coset)
                    == Some(Error::UninitializedState));
                assert(Some(Error::UninitializedState) == multi_err(
                    *ctx,
                    *old(out_buf),
                    *in_buf,
                    device_count as int,
                    lg as int,
                    cfg,
                    total_input_elements as int,
                    total_output_elements as int,
                ));
            }
            return Err(Error::UninitializedState);
        }
        match translate_status(ctx.devices[i].sticky) {
            Some(e) => {
                proof {
                    assert(ctx.sticky_of(i as int) != 0);
                    assert(device_scan(*ctx, i as int, device_count as int, lg as int, cfg.with_coset)
                        == Some(Error::ComputeFailure(ctx.sticky_of(i as int))));
                    assert(Some(e) == multi_err(
                        *ctx,
                        *old(out_buf),
                        *in_buf,
                        device_count as int,
                        lg as int,
                        cfg,
                        total_input_elements as int,
                        total_output_elements as int,
                    ));
                }
                return Err(e);
            },
            None => {},
        }
        proof {
            assert(device_scan(*ctx, i as int, device_count as int, lg as int, cfg.with_coset)
                == device_scan(*ctx, i as int + 1, device_count as int, lg as int, cfg.with_coset));
        }
        i = i + 1;
    }
    proof {
        assert(n_out64 as int <= pow2(lg as nat) * cfg.batches) by (nonlinear_arith)
            requires
                cfg.batches >= 1,
                n_out64 as int == pow2(lg as nat),
                n_out64 >= 1,
        ;
    }
    proof {
        vstd::arithmetic::power2::lemma_pow2_pos(lg_in as nat);
    }
    let n_out: usize = n_out64 as usize;
    let n_in: usize = n_in64 as usize;
    let rows_per_device: usize = cfg.batches / device_count;
    proof {
        assert(rows_per_device * device_count == cfg.batches) by (nonlinear_arith)
            requires
                device_count >= 1,
                cfg.batches % device_count == 0,
                rows_per_device == cfg.batches as int / device_count as int,
        ;
        assert(pow2(lg_in as nat) <= pow2(lg as nat)) by {
            if lg_in < lg {
                vstd::arithmetic::power2::lemma_pow2_strictly_increases(
                    lg_in as nat,
                    lg as nat,
                );
            }
        }
    }
    let mut d: usize = 0;
    while d < device_count
        invariant
            d <= device_count,
            ctx.wf(),
            device_count <= ctx.devices@.len(),
            lg <= MAX_LOG_DOMAIN_SIZE,
            1 <= n_in <= n_out,
            n_in == pow2(lg_in as nat),
            n_out == pow2(lg as nat),
            lg_in == lg - cfg.extension_rate_bits,
            rows_per_device * device_count == cfg.batches,
            in_buf.data@.len() == n_in * cfg.batches,
            out_buf.data@.len() == old(out_buf).data@.len(),
            old(out_buf).data@.len() == n_out * cfg.batches,
            out_buf.on_device == old(out_buf).on_device,
            out_buf.device_id == old(out_buf).device_id,
            out_buf.elem_size == old(out_buf).elem_size,
            forall|d2: int| 0 <= d2 < device_count ==> ctx.table_ready(d2, lg as int),
            forall|d2: int, b: int|
                0 <= d2 < d && 0 <= b < rows_per_device ==> #[trigger] row_of(
                    out_buf.data@,
                    d2 * (rows_per_device as int) + b,
                    n_out as int,
                ) == lde_row(
                    row_of(in_buf.data@, d2 * (rows_per_device as int) + b, n_in as int),
                    n_out as nat,
                    cfg.with_coset,
                    ctx.coset_gen_of(d2, lg as int),
                    domain_root(lg as nat),
                ),
            forall|k: int|
                d * (rows_per_device as int) * n_out <= k < out_buf.data@.len()
                    ==> out_buf.data@[k] == old(out_buf).data@[k],
        decreases device_count - d,
    {
        let g: u64 = ctx.devices[d].coset_gens[lg];
        let root = ctx.devices[d].roots[lg];
        proof {
            assert(ctx.table_ready(d as int, lg as int));
        }
        assert(root == domain_root(lg as nat));
        proof {
            lemma_partition_bounds(
                d as int,
                device_count as int,
                rows_per_device as int,
                n_in as int,
                n_out as int,
                cfg.batches as int,
            );
            vstd::arithmetic::mul::lemma_mul_is_commutative(n_in as int, cfg.batches as int);
            vstd::arithmetic::mul::lemma_mul_is_commutative(n_out as int, cfg.batches as int);
        }
        let start_batch = d * rows_per_device;
        let ghost before = out_buf.data@;
        lde_rows(
            &mut out_buf.data,
            &in_buf.data,
            start_batch,
            rows_per_device,
            n_in,
            n_out,
            cfg.with_coset,
            g,
            root,
        );
        proof {
            lemma_partition_bounds(
                d as int,
                device_count as int,
                rows_per_device as int,
                n_in as int,
                n_out as int,
                cfg.batches as int,
            );
            let rpd = rows_per_device as int;
            assert forall|d2: int, b: int|
                0 <= d2 < d + 1 && 0 <= b < rpd implies #[trigger] row_of(
                out_buf.data@,
                d2 * rpd + b,
                n_out as int,
            ) == lde_row(
                row_of(in_buf.data@, d2 * rpd + b, n_in as int),
                n_out as nat,
                cfg.with_coset,
                ctx.coset_gen_of(d2, lg as int),
                domain_root(lg as nat),
            ) by {
                if d2 == d {
                    assert(start_batch <= d2 * rpd + b < start_batch + rpd) by (nonlinear_arith)
                        requires
                            start_batch == d as int * rpd,
                            d2 == d,
                            0 <= b < rpd,
                    ;
                } else {
                    assert((d2 * rpd + b + 1) * n_out <= start_batch as int * n_out)
                        by (nonlinear_arith)
                        requires
                            0 <= d2 < d,
                            0 <= b < rpd,
                            start_batch == d as int * rpd,
                            n_out >= 0,
                    ;
                    assert(d2 * rpd + b >= 0 && (d2 * rpd + b) * n_out >= 0) by (nonlinear_arith)
                        requires
                            d2 >= 0,
                            b >= 0,
                            rpd >= 0,
                            n_out >= 0,
                    ;
                    assert((d2 * rpd + b + 1) * n_out == (d2 * rpd + b) * n_out + n_out)
                        by (nonlinear_arith);
                    assert(start_batch as int * n_out <= (start_batch as int + rpd) * n_out)
                        by (nonlinear_arith)
                        requires
                            rpd >= 0,
                            n_out >= 0,
                    ;
                    assert((start_batch as int + rpd) * n_out <= out_buf.data@.len());
                    assert(row_of(out_buf.data@, d2 * rpd + b, n_out as int) =~= row_of(
                        before,
                        d2 * rpd + b,
                        n_out as int,
                    ));
                }
            }
            assert forall|k: int|
                (d + 1) * rpd * n_out <= k < out_buf.data@.len() implies out_buf.data@[k] == old(
                out_buf,
            ).data@[k] by {
                assert((d + 1) * rpd * n_out == (start_batch as int + rpd) * n_out)
                    by (nonlinear_arith)
                    requires
                        start_batch == d as int * rpd,
                ;
                assert(start_batch as int * n_out <= (start_batch as int + rpd) * n_out)
                    by (nonlinear_arith)
                    requires
                        rpd >= 0,
                        n_out >= 0,
                ;
                assert(d as int * rpd * n_out <= start_batch as int * n_out);
            }
        }
        d = d + 1;
    }
    Ok(())
}

/// Bounds of the rows assigned to device `d` in an even partition.
proof fn lemma_partition_bounds(
    d: int,
    device_count: int,
    rpd: int,
    n_in: int,
    n_out: int,
    batches: int,
)
    requires
        0 <= d < device_count,
        rpd >= 0,
        n_in >= 0,
        n_out >= 0,
        rpd * device_count == batches,
    ensures
        d * rpd >= 0,
        (d * rpd + rpd) * n_in <= batches * n_in,
        (d * rpd + rpd) * n_out <= batches * n_out,
        d * rpd + rpd <= batches,
{
    assert(d * rpd >= 0 && d * rpd + rpd <= batches) by (nonlinear_arith)
        requires
            0 <= d < device_count,
            rpd >= 0,
            rpd * device_count == batches,
    ;
    assert((d * rpd + rpd) * n_in <= batches * n_in && (d * rpd + rpd) * n_out <= batches
        * n_out) by (nonlinear_arith)
        requires
            d * rpd + rpd <= batches,
            n_in >= 0,
            n_out >= 0,
    ;
}


/// Geometry of the bit-reversed batched transpose: equally long input and
/// output buffers of `batches` rows of `2^lg` plain field elements.
pub open spec fn transpose_geometry_ok(
    out_buf: Buffer,
    in_buf: Buffer,
    device_id: int,
    lg: int,
    cfg: TransposeConfig,
) -> bool {
    &&& cfg.batches >= 1
    &&& 0 <= lg <= MAX_LOG_DOMAIN_SIZE
    &&& location_ok(in_buf, cfg.are_inputs_on_device, device_id)
    &&& location_ok(out_buf, cfg.are_outputs_on_device, device_id)
    &&& in_buf.elem_size == 1
    &&& out_buf.elem_size == 1
    &&& in_buf.data@.len() == pow2(lg as nat) * cfg.batches
    &&& out_buf.data@.len() == pow2(lg as nat) * cfg.batches
}

/// Validation outcome of `transpose_rev_batch`: device, geometry, then the
/// sticky status word. No transform tables are consulted.
pub open spec fn transpose_err(
    c: Context,
    out_buf: Buffer,
    in_buf: Buffer,
    device_id: int,
    lg: int,
    cfg: TransposeConfig,
) -> Option<Error> {
    if !c.device_ok(device_id) {
        Some(Error::InvalidDevice)
    } else if !transpose_geometry_ok(out_buf, in_buf, device_id, lg, cfg) {
        Some(Error::ConfigurationError)
    } else if c.sticky_of(device_id) != 0 {
        Some(Error::ComputeFailure(c.sticky_of(device_id)))
    } else {
        None
    }
}

/// Bit-reversed batched transpose: the input is read as `batches` rows of
/// `2^lg` words; output word `t` is input word
/// `(t % batches) * 2^lg + bit_rev(t / batches)`, so the matrix is
/// transposed with the new row index bit-reversed. Any failure leaves the
/// output untouched.
#[verifier::loop_isolation(false)]
pub fn transpose_rev_batch(
    ctx: &Context,
    device_id: usize,
    out_buf: &mut Buffer,
    in_buf: &Buffer,
    lg: usize,
    cfg: TransposeConfig,
) -> (r: Result<(), Error>)
    requires
        ctx.wf(),
    ensures
        r is Ok <==> transpose_err(*ctx, *old(out_buf), *in_buf, device_id as int, lg as int, cfg)
            is None,
        r matches Err(e) ==> Some(e) == transpose_err(
            *ctx,
            *old(out_buf),
            *in_buf,
            device_id as int,
            lg as int,
            cfg,
        ),
        r is Err ==> *final(out_buf) == *old(out_buf),
        final(out_buf).on_device == old(out_buf).on_device,
        final(out_buf).device_id == old(out_buf).device_id,
        final(out_buf).elem_size == old(out_buf).elem_size,
        final(out_buf).data@.len() == old(out_buf).data@.len(),
        r is Ok ==> forall|t: int|
            0 <= t < old(out_buf).data@.len() ==> final(out_buf).data@[t] == in_buf.data@[(t % (
            cfg.batches as int)) * (pow2(lg as nat) as int) + bit_rev(
                (t / (cfg.batches as int)) as nat,
                lg as nat,
            )],
{
    if device_id >= ctx.devices.len() {
        return Err(Error::InvalidDevice);
    }
    if cfg.batches < 1 || lg > MAX_LOG_DOMAIN_SIZE {
        return Err(Error::ConfigurationError);
    }
    let in_loc_ok = in_buf.on_device == cfg.are_inputs_on_device && (!in_buf.on_device
        || in_buf.device_id == device_id);
    let out_loc_ok = out_buf.on_device == cfg.are_outputs_on_device && (!out_buf.on_device
        || out_buf.device_id == device_id);
    if !in_loc_ok || !out_loc_ok || in_buf.elem_size != 1 || out_buf.elem_size != 1 {
        return Err(Error::ConfigurationError);
    }
    proof {
        vstd::arithmetic::power2::lemma2_to64();
        if lg < 32 {
            vstd::arithmetic::power2::lemma_pow2_strictly_increases(lg as nat, 32nat);
        }
        assert(1u64 * pow2(lg as nat) <= u64::MAX);
        vstd::bits::lemma_u64_shl_is_mul(1u64, lg as u64);
    }
    let n64: u64 = 1u64 << (lg as u64);
    let in_len: usize = in_buf.data.len();
    let out_len: usize = out_buf.data.len();
    proof {
        assert((n64 as int) * (cfg.batches as int) <= (u64::MAX as int) * (u64::MAX as int))
            by (nonlinear_arith)
            requires
                n64 as int <= u64::MAX as int,
                cfg.batches as int <= u64::MAX as int,
        ;
    }
    let in_len_ok: bool = (n64 as u128) * (cfg.batches as u128) == (in_len as u128);
    let out_len_ok: bool = (n64 as u128) * (cfg.batches as u128) == (out_len as u128);
    if !in_len_ok || !out_len_ok {
        return Err(Error::ConfigurationError);
    }
    match translate_status(ctx.devices[device_id].sticky) {
        Some(e) => {
            return Err(e);
        },
        None => {},
    }
    proof {
        assert(n64 as int <= pow2(lg as nat) * cfg.batches) by (nonlinear_arith)
            requires
                cfg.batches >= 1,
                n64 as int == pow2(lg as nat),
                n64 >= 1,
        ;
    }
    let n: usize = n64 as usize;
    let batches: usize = cfg.batches;
    let mut r: usize = 0;
    while r < n
        invariant
            r <= n,
            out_buf.data@.len() == old(out_buf).data@.len(),
            out_buf.on_device == old(out_buf).on_device,
            out_buf.device_id == old(out_buf).device_id,
            out_buf.elem_size == old(out_buf).elem_size,
            forall|t: int|
                0 <= t < r * (batches as int) ==> out_buf.data@[t] == in_buf.data@[(t % (
                batches as int)) * (n as int) + bit_rev((t / (batches as int)) as nat, lg as nat)],
        decreases n - r,
    {
        let rev_r = bit_rev_exec(r, lg);
        let mut c: usize = 0;
        while c < batches
            invariant
                c <= batches,
                r < n,
                rev_r == bit_rev(r as nat, lg as nat),
                rev_r < n,
                out_buf.data@.len() == old(out_buf).data@.len(),
                out_buf.on_device == old(out_buf).on_device,
                out_buf.device_id == old(out_buf).device_id,
                out_buf.elem_size == old(out_buf).elem_size,
                forall|t: int|
                    0 <= t < r * (batches as int) + c ==> out_buf.data@[t] == in_buf.data@[(t % (
                    batches as int)) * (n as int) + bit_rev(
                        (t / (batches as int)) as nat,
                        lg as nat,
                    )],
            decreases batches - c,
        {
            proof {
                assert((r + 1) * (batches as int) <= (n as int) * (batches as int))
                    by (nonlinear_arith)
                    requires
                        r + 1 <= n,
                        batches >= 0,
                ;
                assert(r * (batches as int) + c < (r + 1) * (batches as int)) by (nonlinear_arith)
                    requires
                        c < batches,
                ;
                assert((c + 1) * (n as int) <= (batches as int) * (n as int)) by (nonlinear_arith)
                    requires
                        c + 1 <= batches,
                        n >= 0,
                ;
                assert(c * (n as int) + rev_r < (c + 1) * (n as int)) by (nonlinear_arith)
                    requires
                        rev_r < n,
                ;
                assert(c * (n as int) >= 0 && r * (batches as int) >= 0) by (nonlinear_arith)
                    requires
                        c >= 0,
                        r >= 0,
                        n >= 0,
                        batches >= 0,
                ;
                vstd::arithmetic::mul::lemma_mul_is_commutative(n as int, batches as int);
            }
            let t = r * batches + c;
            let idx = c * n + rev_r;
            out_buf.data[t] = in_buf.data[idx];
            proof {
                vstd::arithmetic::div_mod::lemma_fundamental_div_mod_converse(
                    t as int,
                    batches as int,
                    r as int,
                    c as int,
                );
            }
            c = c + 1;
        }
        proof {
            assert((r + 1) * (batches as int) == r * (batches as int) + batches)
                by (nonlinear_arith);
        }
        r = r + 1;
    }
    proof {
        vstd::arithmetic::mul::lemma_mul_is_commutative(n as int, batches as int);
    }
    Ok(())
}

/// An evenly divisible multi-device extension is elementwise identical to
/// sequential single-device extensions over the equivalent sub-domain
/// partitions: the slice of the full output assigned to device `d` is
/// exactly what a single-device call over the `d`-th contiguous run of
/// input rows produces.
pub proof fn lemma_multi_gpu_matches_sequential(
    full_in: Seq<u64>,
    full_out: Seq<u64>,
    n_in: int,
    n_out: int,
    rpd: int,
    d: int,
    dc: int,
    use_coset: bool,
    g: u64,
    w: u64,
)
    requires
        dc >= 1,
        0 <= d < dc,
        rpd >= 0,
        n_in >= 0,
        n_out >= 0,
        full_in.len() == (rpd * dc) * n_in,
        full_out.len() == (rpd * dc) * n_out,
        forall|b: int|
            0 <= b < rpd ==> #[trigger] row_of(full_out, d * rpd + b, n_out) == lde_row(
                row_of(full_in, d * rpd + b, n_in),
                n_out as nat,
                use_coset,
                g,
                w,
            ),
    ensures
        forall|b: int|
            0 <= b < rpd ==> #[trigger] row_of(
                full_out.subrange(d * rpd * n_out, (d * rpd + rpd) * n_out),
                b,
                n_out,
            ) == lde_row(
                row_of(full_in.subrange(d * rpd * n_in, (d * rpd + rpd) * n_in), b, n_in),
                n_out as nat,
                use_coset,
                g,
                w,
            ),
{
    let part_out = full_out.subrange(d * rpd * n_out, (d * rpd + rpd) * n_out);
    let part_in = full_in.subrange(d * rpd * n_in, (d * rpd + rpd) * n_in);
    assert(d * rpd * n_out >= 0 && d * rpd * n_in >= 0 && (d * rpd + rpd) * n_out <= (rpd * dc)
        * n_out && (d * rpd + rpd) * n_in <= (rpd * dc) * n_in) by (nonlinear_arith)
        requires
            0 <= d < dc,
            rpd >= 0,
            n_in >= 0,
            n_out >= 0,
    ;
    assert forall|b: int| 0 <= b < rpd implies #[trigger] row_of(part_out, b, n_out) == lde_row(
        row_of(part_in, b, n_in),
        n_out as nat,
        use_coset,
        g,
        w,
    ) by {
        assert((b + 1) * n_out <= rpd * n_out && (b + 1) * n_in <= rpd * n_in && b * n_out >= 0
            && b * n_in >= 0) by (nonlinear_arith)
            requires
                0 <= b < rpd,
                n_in >= 0,
                n_out >= 0,
        ;
        assert((b + 1) * n_out == b * n_out + n_out && (b + 1) * n_in == b * n_in + n_in)
            by (nonlinear_arith);
        assert((d * rpd + b) * n_out == d * rpd * n_out + b * n_out && (d * rpd + b + 1) * n_out
            == d * rpd * n_out + (b + 1) * n_out) by (nonlinear_arith);
        assert((d * rpd + b) * n_in == d * rpd * n_in + b * n_in && (d * rpd + b + 1) * n_in == d
            * rpd * n_in + (b + 1) * n_in) by (nonlinear_arith);
        assert((d * rpd + rpd) * n_out == d * rpd * n_out + rpd * n_out && (d * rpd + rpd) * n_in
            == d * rpd * n_in + rpd * n_in) by (nonlinear_arith);
        assert forall|k: int| 0 <= k < n_out implies row_of(part_out, b, n_out)[k] == row_of(
            full_out,
            d * rpd + b,
            n_out,
        )[k] by {
            assert(row_of(part_out, b, n_out)[k] == part_out[b * n_out + k]);
            assert(part_out[b * n_out + k] == full_out[d * rpd * n_out + (b * n_out + k)]);
            assert(row_of(full_out, d * rpd + b, n_out)[k] == full_out[(d * rpd + b) * n_out + k]);
        }
        assert(row_of(part_out, b, n_out) =~= row_of(full_out, d * rpd + b, n_out));
        assert forall|k: int| 0 <= k < n_in implies row_of(part_in, b, n_in)[k] == row_of(
            full_in,
            d * rpd + b,
            n_in,
        )[k] by {
            assert(row_of(part_in, b, n_in)[k] == part_in[b * n_in + k]);
            assert(part_in[b * n_in + k] == full_in[d * rpd * n_in + (b * n_in + k)]);
            assert(row_of(full_in, d * rpd + b, n_in)[k] == full_in[(d * rpd + b) * n_in + k]);
        }
        assert(row_of(part_in, b, n_in) =~= row_of(full_in, d * rpd + b, n_in));
    }
}

/// Draining the sticky error state restores success for an in-place
/// transform: after a failure left a stale status on a device,
/// `clear_error_state` followed by a call whose device, geometry and
/// tables were already acceptable is accepted — no error leaks across the
/// clear boundary.
pub proof fn lemma_clear_error_state_restores(
    c0: Context,
    c1: Context,
    buf: Buffer,
    device_id: int,
    lg: int,
    cfg: NTTConfig,
)
    requires
        c1.devices@.len() == c0.devices@.len(),
        forall|d: int|
            0 <= d < c0.devices@.len() ==> crate::context::device_with_sticky(
                c0.devices@[d],
                c1.devices@[d],
                0,
            ),
        c0.device_ok(device_id),
        inplace_geometry_ok(buf, device_id, lg, cfg),
        c0.table_ready(device_id, lg),
    ensures
        inplace_err(c1, buf, device_id, lg, cfg) is None,
{
    assert(crate::context::device_with_sticky(
        c0.devices@[device_id],
        c1.devices@[device_id],
        0,
    ));
}

} // verus!
