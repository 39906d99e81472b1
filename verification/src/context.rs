//! The device manager and memory mediator: enumerated accelerators,
//! per-device transform tables, coset generators, sticky error state, and
//! accounting of mediator-owned device memory.

use vstd::prelude::*;
use vstd::arithmetic::power2::pow2;
use vstd::bits::lemma_u64_shr_is_div;
use crate::field::{pow_f, pow_mod, GROUP_GENERATOR, MODULUS};
use crate::error::Error;
use crate::buffer::Buffer;

verus! {

/// Largest supported log2 domain size: the field's multiplicative group has
/// 2^32 as its largest power-of-two subgroup order.
pub const MAX_LOG_DOMAIN_SIZE: usize = 32;

/// The root of unity for the domain of size `2^lg`: the group generator
/// raised to `(MODULUS - 1) / 2^lg`.
pub open spec fn domain_root(lg: nat) -> u64 {
    pow_f(GROUP_GENERATOR, ((MODULUS - 1) as nat / pow2(lg)) as nat)
}

/// Per-device state. Tables and the sticky status word persist until
/// explicitly reset; they are only meaningful on the device that owns them.
pub struct Device {
    /// `tables[lg]` records that transform tables for size `2^lg` exist.
    pub tables: Vec<bool>,
    /// `roots[lg]` caches the domain root once `tables[lg]` is set.
    pub roots: Vec<u64>,
    /// `cosets[lg]` records that a coset generator for size `2^lg` exists.
    pub cosets: Vec<bool>,
    /// `coset_gens[lg]` caches that generator.
    pub coset_gens: Vec<u64>,
    /// Last undrained nonzero native status; zero when clear.
    pub sticky: u64,
    /// Device memory, in words.
    pub capacity: usize,
    /// Words currently held by mediator allocations.
    pub used: usize,
}

/// Table vectors span every supported size, accounting never exceeds
/// capacity, and a set table slot caches exactly the domain root.
pub open spec fn device_wf(d: Device) -> bool {
    &&& d.tables@.len() == MAX_LOG_DOMAIN_SIZE + 1
    &&& d.roots@.len() == MAX_LOG_DOMAIN_SIZE + 1
    &&& d.cosets@.len() == MAX_LOG_DOMAIN_SIZE + 1
    &&& d.coset_gens@.len() == MAX_LOG_DOMAIN_SIZE + 1
    &&& d.used <= d.capacity
    &&& forall|lg: int|
        0 <= lg <= MAX_LOG_DOMAIN_SIZE && #[trigger] d.tables@[lg] ==> d.roots@[lg]
            == domain_root(lg as nat)
}

/// The fields of `b` other than the table slots for size `2^lg` agree
/// with those of `a`.
pub open spec fn device_same_but_tables(a: Device, b: Device, lg: int) -> bool {
    &&& b.tables@ == a.tables@.update(lg, true)
    &&& b.roots@.len() == a.roots@.len()
    &&& forall|j: int| 0 <= j < a.roots@.len() && j != lg ==> b.roots@[j] == a.roots@[j]
    &&& b.cosets == a.cosets
    &&& b.coset_gens == a.coset_gens
    &&& b.sticky == a.sticky
    &&& b.capacity == a.capacity
    &&& b.used == a.used
}

/// The fields of `b` other than the coset slots for size `2^lg` agree
/// with those of `a`.
pub open spec fn device_same_but_cosets(a: Device, b: Device, lg: int) -> bool {
    &&& b.cosets@ == a.cosets@.update(lg, true)
    &&& b.coset_gens@ == a.coset_gens@.update(lg, b.coset_gens@[lg])
    &&& b.tables == a.tables
    &&& b.roots == a.roots
    &&& b.sticky == a.sticky
    &&& b.capacity == a.capacity
    &&& b.used == a.used
}

/// `b` is `a` with the sticky status word replaced.
pub open spec fn device_with_sticky(a: Device, b: Device, code: u64) -> bool {
    &&& b.tables == a.tables
    &&& b.roots == a.roots
    &&& b.cosets == a.cosets
    &&& b.coset_gens == a.coset_gens
    &&& b.sticky == code
    &&& b.capacity == a.capacity
    &&& b.used == a.used
}

/// `b` is `a` with the memory accounting replaced.
pub open spec fn device_with_used(a: Device, b: Device, used: int) -> bool {
    &&& b.tables == a.tables
    &&& b.roots == a.roots
    &&& b.cosets == a.cosets
    &&& b.coset_gens == a.coset_gens
    &&& b.sticky == a.sticky
    &&& b.capacity == a.capacity
    &&& b.used == used
}

/// The process-wide view of every visible accelerator.
pub struct Context {
    /// One entry per enumerated device.
    pub devices: Vec<Device>,
}

impl Context {
    /// Every device's state is well formed.
    pub open spec fn wf(self) -> bool {
        forall|i: int| 0 <= i < self.devices@.len() ==> device_wf(#[trigger] self.devices@[i])
    }

    /// `d` names an enumerated device.
    pub open spec fn device_ok(self, d: int) -> bool {
        0 <= d < self.devices@.len()
    }

    /// Transform tables for size `2^lg` exist on device `d`.
    pub open spec fn table_ready(self, d: int, lg: int) -> bool {
        self.device_ok(d) && 0 <= lg <= MAX_LOG_DOMAIN_SIZE && self.devices@[d].tables@[lg]
    }

    /// A coset generator for size `2^lg` exists on device `d`.
    pub open spec fn coset_ready(self, d: int, lg: int) -> bool {
        self.device_ok(d) && 0 <= lg <= MAX_LOG_DOMAIN_SIZE && self.devices@[d].cosets@[lg]
    }

    /// The cached coset generator.
    pub open spec fn coset_gen_of(self, d: int, lg: int) -> u64 {
        self.devices@[d].coset_gens@[lg]
    }

    /// The sticky native status of device `d`; zero means drained.
    pub open spec fn sticky_of(self, d: int) -> u64 {
        self.devices@[d].sticky
    }

    /// Devices other than `d` are unchanged between `self` and `c2`.
    pub open spec fn same_but_device(self, c2: Context, d: int) -> bool {
        &&& c2.devices@.len() == self.devices@.len()
        &&& forall|i: int|
            0 <= i < self.devices@.len() && i != d ==> c2.devices@[i] == self.devices@[i]
    }

    /// Enumerates `device_count` fresh accelerators, each with `capacity`
    /// words of memory, no tables, and a drained status word.
    pub fn new(device_count: usize, capacity: usize) -> (c: Context)
        ensures
            c.wf(),
            c.devices@.len() == device_count,
            forall|d: int| 0 <= d < device_count ==> (#[trigger] c.devices@[d]).sticky == 0,
            forall|d: int| 0 <= d < device_count ==> (#[trigger] c.devices@[d]).used == 0,
            forall|d: int| 0 <= d < device_count ==> (#[trigger] c.devices@[d]).capacity
                == capacity,
            forall|d: int, lg: int|
                0 <= d < device_count && 0 <= lg <= MAX_LOG_DOMAIN_SIZE ==> !(
                #[trigger] c.devices@[d].tables@[lg]),
            forall|d: int, lg: int|
                0 <= d < device_count && 0 <= lg <= MAX_LOG_DOMAIN_SIZE ==> !(
                #[trigger] c.devices@[d].cosets@[lg]),
    {
        let mut devices: Vec<Device> = Vec::new();
        let mut i: usize = 0;
        while i < device_count
            invariant
                i <= device_count,
                devices@.len() == i,
                forall|d: int| 0 <= d < i ==> device_wf(#[trigger] devices@[d]),
                forall|d: int| 0 <= d < i ==> (#[trigger] devices@[d]).sticky == 0,
                forall|d: int| 0 <= d < i ==> (#[trigger] devices@[d]).used == 0,
                forall|d: int| 0 <= d < i ==> (#[trigger] devices@[d]).capacity == capacity,
                forall|d: int, lg: int|
                    0 <= d < i && 0 <= lg <= MAX_LOG_DOMAIN_SIZE ==> !(
                    #[trigger] devices@[d].tables@[lg]),
                forall|d: int, lg: int|
                    0 <= d < i && 0 <= lg <= MAX_LOG_DOMAIN_SIZE ==> !(
                    #[trigger] devices@[d].cosets@[lg]),
            decreases device_count - i,
        {
            let dev = Device {
                tables: vec![false; MAX_LOG_DOMAIN_SIZE + 1],
                roots: vec![0u64; MAX_LOG_DOMAIN_SIZE + 1],
                cosets: vec![false; MAX_LOG_DOMAIN_SIZE + 1],
                coset_gens: vec![0u64; MAX_LOG_DOMAIN_SIZE + 1],
                sticky: 0,
                capacity,
                used: 0,
            };
            devices.push(dev);
            i = i + 1;
        }
        Context { devices }
    }

    /// Number of enumerated accelerators; no mutation.
    pub fn device_count(&self) -> (n: usize)
        ensures
            n == self.devices@.len(),
    {
        self.devices.len()
    }

    /// Precomputes and caches the transform tables required by any
    /// transform of size `2^lg` on device `device_id`. Must precede such a
    /// transform there, which otherwise fails with `UninitializedState`.
    pub fn init_transform_tables(&mut self, device_id: usize, lg: usize) -> (r: Result<
        (),
        Error,
    >)
        requires
            old(self).wf(),
        ensures
            final(self).wf(),
            r is Ok <==> old(self).device_ok(device_id as int) && lg <= MAX_LOG_DOMAIN_SIZE,
            r is Err ==> *final(self) == *old(self),
            r matches Err(e) ==> e == (if !old(self).device_ok(device_id as int) {
                Error::InvalidDevice
            } else {
                Error::ConfigurationError
            }),
            r is Ok ==> old(self).same_but_device(*final(self), device_id as int),
            r is Ok ==> device_same_but_tables(
                old(self).devices@[device_id as int],
                final(self).devices@[device_id as int],
                lg as int,
            ),
            r is Ok ==> final(self).table_ready(device_id as int, lg as int),
    {
        if device_id >= self.devices.len() {
            return Err(Error::InvalidDevice);
        }
        if lg > MAX_LOG_DOMAIN_SIZE {
            return Err(Error::ConfigurationError);
        }
        let exponent: u64 = (MODULUS - 1) >> (lg as u64);
        proof {
            lemma_u64_shr_is_div((MODULUS - 1) as u64, lg as u64);
        }
        let root: u64 = pow_mod(GROUP_GENERATOR, exponent);
        assert(root == domain_root(lg as nat));
        let dev = &mut self.devices[device_id];
        assert(device_wf(*dev));
        dev.tables[lg] = true;
        dev.roots[lg] = root;
        assert(device_wf(self.devices@[device_id as int]));
        Ok(())
    }

    /// Registers a coset generator for size `2^lg` on device `device_id`,
    /// enabling coset evaluation for transforms of that size there.
    pub fn init_coset(&mut self, device_id: usize, lg: usize, coset_gen: u64) -> (r: Result<
        (),
        Error,
    >)
        requires
            old(self).wf(),
        ensures
            final(self).wf(),
            r is Ok <==> old(self).device_ok(device_id as int) && lg <= MAX_LOG_DOMAIN_SIZE,
            r is Err ==> *final(self) == *old(self),
            r matches Err(e) ==> e == (if !old(self).device_ok(device_id as int) {
                Error::InvalidDevice
            } else {
                Error::ConfigurationError
            }),
            r is Ok ==> old(self).same_but_device(*final(self), device_id as int),
            r is Ok ==> device_same_but_cosets(
                old(self).devices@[device_id as int],
                final(self).devices@[device_id as int],
                lg as int,
            ),
            r is Ok ==> final(self).coset_ready(device_id as int, lg as int),
            r is Ok ==> final(self).coset_gen_of(device_id as int, lg as int) == coset_gen,
    {
        if device_id >= self.devices.len() {
            return Err(Error::InvalidDevice);
        }
        if lg > MAX_LOG_DOMAIN_SIZE {
            return Err(Error::ConfigurationError);
        }
        let dev = &mut self.devices[device_id];
        assert(device_wf(*dev));
        dev.cosets[lg] = true;
        dev.coset_gens[lg] = coset_gen;
        assert(device_wf(self.devices@[device_id as int]));
        Ok(())
    }

    /// Records a nonzero native status on a device; the flag is sticky and
    /// misattributes itself to any later call there until drained.
    pub fn record_native_status(&mut self, device_id: usize, code: u64)
        requires
            old(self).wf(),
            old(self).device_ok(device_id as int),
        ensures
            final(self).wf(),
            old(self).same_but_device(*final(self), device_id as int),
            device_with_sticky(
                old(self).devices@[device_id as int],
                final(self).devices@[device_id as int],
                code,
            ),
    {
        let dev = &mut self.devices[device_id];
        assert(device_wf(*dev));
        dev.sticky = code;
        assert(device_wf(self.devices@[device_id as int]));
    }

    /// Drains every device's sticky error flag. Must be invoked between
    /// independent logical jobs: the flag persists until explicitly cleared
    /// and would misattribute a stale failure to an unrelated later call.
    /// Pending stream work completes at each stream's own `synchronize`.
    pub fn clear_error_state(&mut self)
        requires
            old(self).wf(),
        ensures
            final(self).wf(),
            final(self).devices@.len() == old(self).devices@.len(),
            forall|d: int|
                0 <= d < old(self).devices@.len() ==> device_with_sticky(
                    old(self).devices@[d],
                    final(self).devices@[d],
                    0,
                ),
    {
        let n = self.devices.len();
        let mut i: usize = 0;
        while i < n
            invariant
                i <= n,
                self.devices@.len() == n,
                old(self).devices@.len() == n,
                old(self).wf(),
                forall|d: int|
                    0 <= d < i ==> device_with_sticky(
                        old(self).devices@[d],
                        #[trigger] self.devices@[d],
                        0,
                    ),
                forall|d: int| i <= d < n ==> #[trigger] self.devices@[d]
                    == old(self).devices@[d],
            decreases n - i,
        {
            let dev = &mut self.devices[i];
            dev.sticky = 0;
            i = i + 1;
        }
        assert forall|d: int| 0 <= d < n implies device_wf(#[trigger] self.devices@[d]) by {
            assert(device_wf(old(self).devices@[d]));
        }
    }

    /// Allocates `elem_count` elements of `elem_size` words on a device.
    /// The mediator owns the region until `free` returns it.
    pub fn allocate(&mut self, device_id: usize, elem_count: usize, elem_size: usize) -> (r:
        Result<Buffer, Error>)
        requires
            old(self).wf(),
        ensures
            final(self).wf(),
            r is Ok <==> old(self).device_ok(device_id as int) && elem_size >= 1 && elem_count
                * elem_size + old(self).devices@[device_id as int].used <= old(
                self,
            ).devices@[device_id as int].capacity,
            r is Err ==> *final(self) == *old(self),
            r matches Err(e) ==> e == (if !old(self).device_ok(device_id as int) {
                Error::InvalidDevice
            } else if elem_size < 1 {
                Error::ConfigurationError
            } else {
                Error::AllocationFailure
            }),
            r matches Ok(b) ==> {
                &&& b.on_device
                &&& b.device_id == device_id
                &&& b.elem_size == elem_size
                &&& b.data@.len() == elem_count * elem_size
                &&& forall|i: int| 0 <= i < b.data@.len() ==> b.data@[i] == 0
                &&& old(self).same_but_device(*final(self), device_id as int)
                &&& device_with_used(
                    old(self).devices@[device_id as int],
                    final(self).devices@[device_id as int],
                    old(self).devices@[device_id as int].used + elem_count * elem_size,
                )
            },
    {
        if device_id >= self.devices.len() {
            return Err(Error::InvalidDevice);
        }
        if elem_size < 1 {
            return Err(Error::ConfigurationError);
        }
        proof {
            assert(elem_count as int <= u64::MAX as int);
            assert(elem_size as int <= u64::MAX as int);
            assert((elem_count as int) * (elem_size as int) <= (u64::MAX as int) * (
            u64::MAX as int)) by (nonlinear_arith)
                requires
                    elem_count as int <= u64::MAX as int,
                    elem_size as int <= u64::MAX as int,
            ;
        }
        let words128: u128 = (elem_count as u128) * (elem_size as u128);
        let dev_capacity = self.devices[device_id].capacity;
        let dev_used = self.devices[device_id].used;
        let room: u128 = (dev_capacity - dev_used) as u128;
        if words128 > room {
            proof {
                assert(elem_count * elem_size + self.devices@[device_id as int].used > self
                    .devices@[device_id as int].capacity);
            }
            return Err(Error::AllocationFailure);
        }
        let words: usize = words128 as usize;
        let data: Vec<u64> = vec![0u64; words];
        let dev = &mut self.devices[device_id];
        assert(device_wf(*dev));
        dev.used = dev.used + words;
        assert(device_wf(self.devices@[device_id as int]));
        Ok(Buffer { on_device: true, device_id, elem_size, data })
    }

    /// Returns a mediator allocation to its device. Ownership moves into
    /// the call, so a region can be released at most once.
    pub fn free(&mut self, buf: Buffer) -> (r: Result<(), Error>)
        requires
            old(self).wf(),
        ensures
            final(self).wf(),
            r is Ok <==> buf.on_device && old(self).device_ok(buf.device_id as int)
                && buf.data@.len() <= old(self).devices@[buf.device_id as int].used,
            r is Err ==> *final(self) == *old(self),
            r matches Err(e) ==> e == (if !buf.on_device {
                Error::ConfigurationError
            } else if !old(self).device_ok(buf.device_id as int) {
                Error::InvalidDevice
            } else {
                Error::ConfigurationError
            }),
            r is Ok ==> old(self).same_but_device(*final(self), buf.device_id as int),
            r is Ok ==> device_with_used(
                old(self).devices@[buf.device_id as int],
                final(self).devices@[buf.device_id as int],
                old(self).devices@[buf.device_id as int].used - buf.data@.len(),
            ),
    {
        if !buf.on_device {
            return Err(Error::ConfigurationError);
        }
        if buf.device_id >= self.devices.len() {
            return Err(Error::InvalidDevice);
        }
        let len = buf.data.len();
        if len > self.devices[buf.device_id].used {
            return Err(Error::ConfigurationError);
        }
        let dev = &mut self.devices[buf.device_id];
        assert(device_wf(*dev));
        dev.used = dev.used - len;
        assert(device_wf(self.devices@[buf.device_id as int]));
        Ok(())
    }
}

} // verus!
