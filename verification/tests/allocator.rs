use squishy_volumes_gpu::allocator::{flags_from_counts, GpuAllocator, GpuAllocatorError, GpuBuffer};

const MIN_STORAGE_BUFFER_OFFSET_ALIGNMENT: u64 = 256;
const MAX_STORAGE_BUFFER_BINDING_SIZE: u64 = 1 << 27;
const MAX_BUFFER_SIZE: u64 = 1 << 28;

fn allocator(size: u64) -> GpuAllocator<()> {
    let buffers = GpuAllocator::<()>::buffer_sizes(size, MAX_BUFFER_SIZE)
        .into_iter()
        .map(|size| GpuBuffer::new((), size, MIN_STORAGE_BUFFER_OFFSET_ALIGNMENT))
        .collect();
    GpuAllocator::new(
        "allocation",
        size,
        MAX_BUFFER_SIZE,
        MAX_STORAGE_BUFFER_BINDING_SIZE,
        buffers,
    )
}

#[test]
fn allocator_test_simple() {
    let aligned = 256u64;
    let binding_size = aligned * 4;
    let size = binding_size * 4;

    let mut allocator = allocator(size);

    let _a = allocator.allocate::<u32>("a", aligned).unwrap();
    let _b = allocator.allocate::<u32>("b", aligned).unwrap();
    let _c = allocator.allocate::<u32>("c", aligned).unwrap();
    let _d = allocator.allocate::<u32>("d", aligned).unwrap();

    allocator.fix();
    assert_eq!(allocator.total_free(), 0);
    assert_eq!(allocator.biggest_free(), 0);

    drop(_a);
    allocator.fix();
    assert_eq!(allocator.total_free(), binding_size);
    assert_eq!(allocator.biggest_free(), binding_size);

    drop(_c);
    allocator.fix();
    assert_eq!(allocator.total_free(), binding_size * 2);
    assert_eq!(allocator.biggest_free(), binding_size);

    drop(_d);
    allocator.fix();
    assert_eq!(allocator.total_free(), binding_size * 3);
    assert_eq!(allocator.biggest_free(), binding_size * 2);
}

#[test]
fn test_buffer_binding_too_large() {
    let mut allocator = allocator(42);
    assert!(matches!(
        allocator.allocate_raw("too large", u64::MAX, 4),
        Err(GpuAllocatorError::ExceedingMaxBufferBindingSize { .. })
    ));
}

#[test]
fn test_no_space() {
    let aligned = 256u64;
    let double_aligned = 256 * 2;
    let binding_size = aligned * 4;
    let size = binding_size * 4;

    let mut allocator = allocator(size);

    let _a = allocator.allocate::<u32>("a", aligned).unwrap();
    let _b = allocator.allocate::<u32>("b", aligned).unwrap();
    let _c = allocator.allocate::<u32>("c", aligned).unwrap();

    drop(_b);

    assert!(matches!(
        allocator.allocate::<u32>("no space", double_aligned),
        Err(GpuAllocatorError::FailedToFindSpace { .. }),
    ));
}

#[test]
fn allocations_are_aligned_and_disjoint() {
    let mut allocator = allocator(10_000);
    let a = allocator.allocate_raw("a", 10, 4).unwrap();
    let b = allocator.allocate_raw("b", 10, 4).unwrap();
    assert_eq!(a.offset(), 0);
    assert_eq!(a.size(), 10);
    assert_eq!(b.offset(), 256);
    assert_eq!(b.label(), "b");
    assert!(allocator.check_overlap());
    // the padding between them and the rest are free
    assert_eq!(allocator.total_free(), 10_000 - 20);
    assert_eq!(allocator.biggest_free(), 10_000 - 266);
    let c = allocator.allocate_raw("c", 300, 512).unwrap();
    assert_eq!(c.offset(), 512);
}

#[test]
fn freed_space_is_reused_after_merging() {
    let mut allocator = allocator(1024);
    let a = allocator.allocate_raw("a", 512, 256).unwrap();
    let b = allocator.allocate_raw("b", 512, 256).unwrap();
    assert!(allocator.allocate_raw("c", 256, 256).is_err());
    drop(a);
    drop(b);
    let c = allocator.allocate_raw("c", 1024, 256).unwrap();
    assert_eq!(c.offset(), 0);
    assert_eq!(c.size(), 1024);
}

#[test]
fn clones_keep_the_range_reserved() {
    let mut allocator = allocator(512);
    let a = allocator.allocate_raw("a", 512, 256).unwrap();
    let a2 = a.clone();
    drop(a);
    assert!(matches!(
        allocator.allocate_raw("b", 256, 256),
        Err(GpuAllocatorError::FailedToFindSpace {
            label: "b",
            requested: 256,
            continuous_free: 0,
            total_free: 0
        })
    ));
    drop(a2);
    assert!(allocator.allocate_raw("b", 256, 256).is_ok());
}

#[test]
fn buffers_are_split_by_the_maximum_size() {
    assert_eq!(GpuAllocator::<()>::buffer_sizes(10, 4), vec![4, 4, 2]);
    assert_eq!(GpuAllocator::<()>::buffer_sizes(8, 4), vec![4, 4]);
    assert_eq!(GpuAllocator::<()>::buffer_sizes(0, 4), Vec::<u64>::new());
}

#[test]
fn resizing_replaces_the_last_buffer() {
    let mut allocator = allocator(100);
    assert_eq!(allocator.resize_to(50), Ok(vec![]));
    assert_eq!(allocator.resize_to(1000), Ok(vec![1000]));
    assert!(allocator.push_buffer(GpuBuffer::new((), 1000, MIN_STORAGE_BUFFER_OFFSET_ALIGNMENT)));
    assert_eq!(allocator.buffer_count(), 1);
    assert_eq!(allocator.total_size(), 1000);
    let a = allocator.allocate_raw("a", 1000, 4).unwrap();
    assert_eq!(a.size(), 1000);
    assert_eq!(
        allocator.resize_to(2000),
        Err(GpuAllocatorError::ResizingWhileInUse { label: Some("a") })
    );
}

#[test]
fn allocation_of_a_whole_buffer() {
    let a = squishy_volumes_gpu::allocator::Allocation::whole("status", 7u8, 16).unwrap();
    assert_eq!(a.offset(), 0);
    assert_eq!(a.size(), 16);
    assert_eq!(*a.buffer(), 7);
    assert_eq!(a.len::<u32>(), 4);
    assert!(matches!(
        squishy_volumes_gpu::allocator::Allocation::whole("empty", 7u8, 0),
        Err(GpuAllocatorError::AllocationEmpty { label: "empty" })
    ));
}

#[test]
fn a_fresh_allocator_is_all_free() {
    let size = 3 * 1024;
    let allocator = allocator(size);
    assert_eq!(allocator.total_free(), size);
    assert_eq!(allocator.biggest_free(), size);
}

#[test]
fn no_space_reports_the_free_space_left() {
    let mut allocator = allocator(4096);
    let _a = allocator.allocate::<u32>("a", 256).unwrap();
    let _b = allocator.allocate::<u32>("b", 256).unwrap();
    let _c = allocator.allocate::<u32>("c", 256).unwrap();
    drop(_b);
    match allocator.allocate::<u32>("no space", 512) {
        Err(GpuAllocatorError::FailedToFindSpace {
            label,
            requested,
            continuous_free,
            total_free,
        }) => {
            assert_eq!(label, "no space");
            assert_eq!(requested, 2048);
            assert_eq!(continuous_free, 1024);
            assert_eq!(total_free, 2048);
        }
        _ => panic!("expected no space"),
    }
}

#[test]
fn allocations_have_the_requested_length() {
    let mut allocator = allocator(4096);
    let a = allocator.allocate::<u32>("a", 100).unwrap();
    assert_eq!(a.len::<u32>(), 100);
    assert_eq!(a.size(), 400);
    assert_eq!(a.label(), "a");
}

#[test]
fn usage_comes_from_token_counts() {
    assert_eq!(
        flags_from_counts(&vec![0, 1, 2, 5]),
        vec![false, false, true, true]
    );
}

#[test]
fn placing_takes_its_size_from_the_free_space() {
    let mut allocator = allocator(4096);
    let _a = allocator.allocate::<u32>("a", 100).unwrap();
    assert_eq!(allocator.total_free(), 4096 - 400);
    assert!(allocator.check_overlap());
}
