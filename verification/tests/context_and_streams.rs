use zeknox::buffer::{copy, Buffer, CopyDirection};
use zeknox::context::Context;
use zeknox::error::{translate_status, Error};
use zeknox::stream::Stream;

#[test]
fn test_device_enumeration_and_table_init() {
    let mut ctx = Context::new(2, 1024);
    assert_eq!(ctx.device_count(), 2);
    assert_eq!(ctx.init_transform_tables(0, 4), Ok(()));
    assert_eq!(ctx.init_transform_tables(2, 4), Err(Error::InvalidDevice));
    assert_eq!(ctx.init_transform_tables(0, 33), Err(Error::ConfigurationError));
    assert_eq!(ctx.init_coset(1, 4, 7), Ok(()));
    assert_eq!(ctx.init_coset(5, 4, 7), Err(Error::InvalidDevice));
}

#[test]
fn test_translate_status_and_describe() {
    assert_eq!(translate_status(0), None);
    assert_eq!(translate_status(5), Some(Error::ComputeFailure(5)));
    assert_eq!(Error::InvalidDevice.describe(), "invalid or unavailable device id");
    assert_eq!(Error::AllocationFailure.describe(), "device memory exhausted");
    assert_eq!(
        Error::ComputeFailure(3).describe(),
        "native kernel reported a nonzero status"
    );
}

#[test]
fn test_allocate_free_accounting() {
    let mut ctx = Context::new(1, 16);
    let b1 = ctx.allocate(0, 2, 4).unwrap();
    assert!(b1.on_device);
    assert_eq!(b1.data.len(), 8);
    assert!(b1.data.iter().all(|&w| w == 0));
    let b2 = ctx.allocate(0, 2, 4).unwrap();
    // Device memory is exhausted now.
    assert_eq!(ctx.allocate(0, 1, 4).unwrap_err(), Error::AllocationFailure);
    // Releasing a region makes room again.
    ctx.free(b2).unwrap();
    let b3 = ctx.allocate(0, 2, 4).unwrap();
    ctx.free(b1).unwrap();
    ctx.free(b3).unwrap();
    assert_eq!(ctx.allocate(9, 1, 4).unwrap_err(), Error::InvalidDevice);
}

#[test]
fn test_copy_validates_direction_and_geometry() {
    let mut ctx = Context::new(1, 64);
    let host = Buffer::host(1, vec![1, 2, 3, 4]);
    let mut dev = ctx.allocate(0, 4, 1).unwrap();
    assert_eq!(copy(&mut dev, &host, CopyDirection::HostToDevice), Ok(()));
    assert_eq!(dev.data, vec![1, 2, 3, 4]);
    // Wrong direction for these locations.
    assert_eq!(
        copy(&mut dev, &host, CopyDirection::DeviceToHost),
        Err(Error::ConfigurationError)
    );
    // Mismatched lengths.
    let short = Buffer::host(1, vec![9]);
    assert_eq!(
        copy(&mut dev, &short, CopyDirection::HostToDevice),
        Err(Error::ConfigurationError)
    );
    let mut back = Buffer::host(1, vec![0; 4]);
    assert_eq!(copy(&mut back, &dev, CopyDirection::DeviceToHost), Ok(()));
    assert_eq!(back.data, vec![1, 2, 3, 4]);
    ctx.free(dev).unwrap();
}

#[test]
fn test_two_streams_do_not_block_each_other() {
    // Interleaved enqueues on two unrelated streams are both accepted,
    // and each reports completion only after its own synchronize.
    let mut ctx = Context::new(2, 64);
    let src_a = ctx.allocate(0, 2, 1).unwrap();
    let src_b = ctx.allocate(1, 2, 1).unwrap();
    let mut s1 = Stream::create(&ctx, 0).unwrap();
    let mut s2 = Stream::create(&ctx, 1).unwrap();

    assert_eq!(s1.enqueue_copy_to_host(&src_a), Ok(()));
    assert_eq!(s2.enqueue_copy_to_host(&src_b), Ok(()));
    // Nothing is complete before a synchronize.
    assert!(s1.take_completed().is_none());
    assert!(s2.take_completed().is_none());

    s1.synchronize().unwrap();
    // Only the synchronized stream reports completion.
    assert!(s1.take_completed().is_some());
    assert!(s2.take_completed().is_none());
    s2.synchronize().unwrap();
    assert!(s2.take_completed().is_some());
}

#[test]
fn test_stream_fifo_order_and_destroy() {
    let mut ctx = Context::new(1, 64);
    let mut a = ctx.allocate(0, 1, 1).unwrap();
    a.data[0] = 41;
    let mut b = ctx.allocate(0, 1, 1).unwrap();
    b.data[0] = 42;
    let mut s = Stream::create(&ctx, 0).unwrap();
    s.enqueue_copy_to_host(&a).unwrap();
    s.enqueue_copy_to_host(&b).unwrap();
    s.synchronize().unwrap();
    // Completions come back in submission order.
    assert_eq!(s.take_completed().unwrap(), vec![41]);
    assert_eq!(s.take_completed().unwrap(), vec![42]);
    assert!(s.take_completed().is_none());
    // Destruction is terminal.
    s.destroy().unwrap();
    assert_eq!(s.enqueue_copy_to_host(&a), Err(Error::ConfigurationError));
    assert_eq!(s.synchronize(), Err(Error::ConfigurationError));
    assert_eq!(s.destroy(), Err(Error::ConfigurationError));
    // A stream cannot be created on an unknown device.
    assert!(Stream::create(&ctx, 7).is_err());
    // A stream only accepts sources resident on its own device.
    let mut s0 = Stream::create(&ctx, 0).unwrap();
    let host = Buffer::host(1, vec![1]);
    assert_eq!(s0.enqueue_copy_to_host(&host), Err(Error::ConfigurationError));
}
