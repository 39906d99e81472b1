//! Capability-tagged buffers and the synchronous mediator copy.
//!
//! A buffer carries its location, owning device, element geometry and
//! contents; every entry point validates these tags before touching the
//! data, so location and size mismatches surface as configuration errors
//! instead of corrupting memory.

use vstd::prelude::*;
use crate::error::Error;

verus! {

/// A memory region described by (location, device id, element count,
/// element size). Device-resident buffers are valid only on the device
/// that created them.
#[derive(Debug)]
pub struct Buffer {
    /// Device-resident when set; host-resident otherwise.
    pub on_device: bool,
    /// The owning accelerator when device-resident.
    pub device_id: usize,
    /// Words per element.
    pub elem_size: usize,
    /// The contents, element-major.
    pub data: Vec<u64>,
}

impl Buffer {
    /// Geometry is consistent: a positive element size dividing the word count.
    pub open spec fn wf(self) -> bool {
        self.elem_size >= 1 && self.data@.len() as int % self.elem_size as int == 0
    }

    /// Number of whole elements held.
    pub open spec fn elem_count(self) -> int {
        self.data@.len() as int / self.elem_size as int
    }

    /// A host-resident buffer over caller-provided contents.
    pub fn host(elem_size: usize, data: Vec<u64>) -> (b: Buffer)
        ensures
            !b.on_device,
            b.device_id == 0,
            b.elem_size == elem_size,
            b.data == data,
    {
        Buffer { on_device: false, device_id: 0, elem_size, data }
    }

    /// Runtime validation of the geometry tags.
    pub fn check_wf(&self) -> (r: bool)
        ensures
            r == self.wf(),
    {
        self.elem_size >= 1 && self.data.len() % self.elem_size == 0
    }
}

/// Direction of a mediator copy, validated against the buffers' tags.
#[derive(Clone, Copy, Debug, PartialEq, Eq, Structural)]
pub enum CopyDirection {
    HostToDevice,
    DeviceToHost,
    DeviceToDevice,
}

/// The direction names the locations the two buffers actually have.
pub open spec fn direction_matches(dir: CopyDirection, dst: Buffer, src: Buffer) -> bool {
    match dir {
        CopyDirection::HostToDevice => !src.on_device && dst.on_device,
        CopyDirection::DeviceToHost => src.on_device && !dst.on_device,
        CopyDirection::DeviceToDevice => src.on_device && dst.on_device,
    }
}

/// A copy is admissible when the direction matches the tags and the two
/// regions have identical geometry.
pub open spec fn copy_ok(dst: Buffer, src: Buffer, dir: CopyDirection) -> bool {
    &&& direction_matches(dir, dst, src)
    &&& dst.elem_size == src.elem_size
    &&& dst.data@.len() == src.data@.len()
}

/// Synchronous whole-buffer copy. The destination's contents become the
/// source's; its tags are untouched. On any validation failure the
/// destination is left exactly as it was.
pub fn copy(dst: &mut Buffer, src: &Buffer, dir: CopyDirection) -> (r: Result<(), Error>)
    ensures
        r is Ok <==> copy_ok(*old(dst), *src, dir),
        r is Ok ==> final(dst).data@ == src.data@,
        r is Err ==> *final(dst) == *old(dst),
        r is Err ==> r == Result::<(), Error>::Err(Error::ConfigurationError),
        final(dst).on_device == old(dst).on_device,
        final(dst).device_id == old(dst).device_id,
        final(dst).elem_size == old(dst).elem_size,
{
    let dir_ok = match dir {
        CopyDirection::HostToDevice => !src.on_device && dst.on_device,
        CopyDirection::DeviceToHost => src.on_device && !dst.on_device,
        CopyDirection::DeviceToDevice => src.on_device && dst.on_device,
    };
    if !dir_ok || dst.elem_size != src.elem_size || dst.data.len() != src.data.len() {
        return Err(Error::ConfigurationError);
    }
    let copied = clone_words(&src.data);
    dst.data = copied;
    Ok(())
}

/// Duplicates a word vector; the copy holds exactly the same words.
pub fn clone_words(v: &Vec<u64>) -> (r: Vec<u64>)
    ensures
        r@ == v@,
{
    let mut r: Vec<u64> = Vec::new();
    let mut i: usize = 0;
    while i < v.len()
        invariant
            i <= v.len(),
            r@ == v@.subrange(0, i as int),
        decreases v.len() - i,
    {
        r.push(v[i]);
        proof {
            assert(r@ =~= v@.subrange(0, i + 1));
        }
        i = i + 1;
    }
    proof {
        assert(r@ =~= v@);
    }
    r
}

} // verus!
