use kernel_core::memory::bump_alloc::BumpAlloc;
use kernel_core::memory::freelist_alloc::{FreeListAlloc, ListNode, SpinLockFreelist};
use kernel_core::spinlock::InterruptFlag;

const HEAP_START: usize = 4096;
const HEAP_SIZE: usize = 65536;

fn fresh_heap() -> FreeListAlloc {
    let mut a = FreeListAlloc::empty();
    a.init(HEAP_START, HEAP_SIZE);
    a
}

#[test]
fn empty_allocator_has_nothing() {
    let mut a = FreeListAlloc::empty();
    let st = a.stats();
    assert_eq!(st.free_regions, 0);
    assert_eq!(st.free_memory, 0);
    assert_eq!(st.total, 0);
    assert_eq!(a.allocate(16, 8), None);
}

#[test]
fn init_registers_single_region() {
    let a = fresh_heap();
    let st = a.stats();
    assert_eq!(st.free_regions, 1);
    assert_eq!(st.free_memory, HEAP_SIZE);
    assert_eq!(st.total, HEAP_SIZE);
    assert_eq!(st.used, 0);
}

#[test]
fn first_fit_starts_at_heap_start() {
    let mut a = fresh_heap();
    let p = a.allocate(100, 8).unwrap();
    assert_eq!(p, HEAP_START);
    // 100 bytes at alignment 8 normalize to 112 bytes at alignment 16.
    let st = a.stats();
    assert_eq!(st.free_memory, HEAP_SIZE - 112);
    assert_eq!(st.used, 112);
    assert_eq!(st.free_regions, 1);
}

#[test]
fn allocation_is_aligned() {
    // Every returned pointer satisfies pointer % align == 0.
    let mut a = fresh_heap();
    let p1 = a.allocate(100, 8).unwrap();
    let p2 = a.allocate(50, 64).unwrap();
    let p3 = a.allocate(3, 512).unwrap();
    assert_eq!(p1 % 8, 0);
    assert_eq!(p2 % 64, 0);
    assert_eq!(p3 % 512, 0);
}

#[test]
fn round_trip_restores_single_block() {
    // After freeing everything ever allocated, the free list
    // coalesces back into one block spanning the whole heap.
    let mut a = fresh_heap();
    let p1 = a.allocate(100, 8).unwrap();
    let p2 = a.allocate(200, 16).unwrap();
    let p3 = a.allocate(300, 32).unwrap();
    a.deallocate(p2, 200, 16);
    a.deallocate(p1, 100, 8);
    a.deallocate(p3, 300, 32);
    let st = a.stats();
    assert_eq!(st.free_regions, 1);
    assert_eq!(st.free_memory, HEAP_SIZE);
    assert_eq!(st.used, 0);
}

#[test]
fn adjacent_frees_coalesce() {
    // Freeing two neighbouring allocations leaves one fused region,
    // never two adjacent ones.
    let mut a = fresh_heap();
    let p1 = a.allocate(64, 16).unwrap();
    let p2 = a.allocate(64, 16).unwrap();
    let _p3 = a.allocate(64, 16).unwrap();
    a.deallocate(p1, 64, 16);
    assert_eq!(a.stats().free_regions, 2);
    a.deallocate(p2, 64, 16);
    // p1 and p2 were adjacent: their regions must have fused.
    assert_eq!(a.stats().free_regions, 2);
}

#[test]
fn allocated_bytes_never_exceed_heap() {
    // Outstanding bytes stay within the registered total.
    let mut a = fresh_heap();
    let mut live: Vec<(usize, usize, usize)> = Vec::new();
    for i in 0..10 {
        let size = 100 + i * 37;
        if let Some(p) = a.allocate(size, 16) {
            live.push((p, size, 16));
        }
        let st = a.stats();
        assert!(st.used <= st.total);
        assert!(st.free_memory <= st.total);
    }
    for (p, size, align) in live {
        a.deallocate(p, size, align);
    }
    assert_eq!(a.stats().free_memory, HEAP_SIZE);
}

#[test]
fn exhaustion_returns_none() {
    let mut a = fresh_heap();
    assert_eq!(a.allocate(HEAP_SIZE + 1, 8), None);
    let p = a.allocate(HEAP_SIZE, 8).unwrap();
    assert_eq!(p, HEAP_START);
    assert_eq!(a.allocate(16, 8), None);
    a.deallocate(p, HEAP_SIZE, 8);
    assert!(a.allocate(16, 8).is_some());
}

#[test]
fn too_small_leftovers_are_rejected() {
    // A block that cannot hold the allocation plus a minimal tail node is
    // passed over.
    let region = ListNode::new(4096, 160);
    let split = FreeListAlloc::alloc_in_region(&region, 64, 16).unwrap();
    assert_eq!(split.addr, 4096);
    assert_eq!(split.start_node, None);
    assert_eq!(split.end_node, Some((4160, 96)));
    // 152 bytes would leave an 8-byte tail: too small to split off.
    assert!(FreeListAlloc::alloc_in_region(&region, 152, 8).is_err());
    // 160 bytes consume the region exactly.
    let full = FreeListAlloc::alloc_in_region(&region, 160, 8).unwrap();
    assert_eq!(full.addr, 4096);
    assert_eq!(full.end_node, None);
}

#[test]
fn alignment_padding_becomes_free_node() {
    let region = ListNode::new(4104, 1024);
    // The region start is not 64-aligned, so the allocation is pushed to
    // the next aligned address past a node header.
    let split = FreeListAlloc::alloc_in_region(&region, 64, 64).unwrap();
    assert_eq!(split.addr % 64, 0);
    let (sn_addr, sn_len) = split.start_node.unwrap();
    assert_eq!(sn_addr, 4104);
    assert_eq!(sn_addr + sn_len, split.addr);
    assert!(sn_len >= 16);
}

#[test]
fn prepare_layout_normalizes() {
    assert_eq!(FreeListAlloc::prepare_layout(100, 8), (112, 16));
    assert_eq!(FreeListAlloc::prepare_layout(1, 1), (16, 16));
    assert_eq!(FreeListAlloc::prepare_layout(64, 64), (64, 64));
    assert_eq!(FreeListAlloc::prepare_layout(65, 64), (128, 64));
    assert_eq!(FreeListAlloc::prepare_layout(16, 16), (16, 16));
}

#[test]
fn list_node_addresses() {
    let n = ListNode::new(4096, 64);
    assert_eq!(n.start_addr(), 4096);
    assert_eq!(n.end_addr(), 4160);
}

#[test]
fn locked_allocator_restores_interrupts() {
    let mut cpu = InterruptFlag::new(true);
    let mut heap = SpinLockFreelist::new(fresh_heap());
    let p = heap.allocate(&mut cpu, 100, 8).unwrap();
    assert!(cpu.enabled);
    assert_eq!(p % 8, 0);
    heap.deallocate(&mut cpu, p, 100, 8);
    assert!(cpu.enabled);
    let st = heap.stats(&mut cpu);
    assert_eq!(st.free_regions, 1);
    assert_eq!(st.free_memory, HEAP_SIZE);
    // Exhaustion surfaces through the hook as None, like the inner
    // allocator's.
    assert_eq!(heap.allocate(&mut cpu, HEAP_SIZE + 1, 8), None);
    assert!(cpu.enabled);
    // The same holds when interrupts were already off.
    let mut cpu_off = InterruptFlag::new(false);
    let q = heap.allocate(&mut cpu_off, 8, 8).unwrap();
    assert!(!cpu_off.enabled);
    heap.deallocate(&mut cpu_off, q, 8, 8);
    assert!(!cpu_off.enabled);
}

#[test]
fn bump_allocates_forward_and_rewinds() {
    let mut b = BumpAlloc::init(4096, 100);
    let p1 = b.allocate(10, 4).unwrap();
    assert_eq!(p1, 4096);
    let p2 = b.allocate(10, 4).unwrap();
    assert_eq!(p2, 4096 + 12);
    assert_eq!(b.allocate(1000, 4), None);
    b.dealloc();
    // One allocation still outstanding: the cursor must not rewind.
    let p3 = b.allocate(4, 4).unwrap();
    assert_eq!(p3, 4096 + 24);
    b.dealloc();
    b.dealloc();
    // Everything returned: the next allocation starts over.
    let p4 = b.allocate(8, 8).unwrap();
    assert_eq!(p4, 4096);
}

#[test]
fn bump_zero_sized_allocation_is_dangling() {
    let mut b = BumpAlloc::empty();
    assert_eq!(b.allocate(0, 8), Some(8));
    assert_eq!(b.allocate(1, 1), None);
}
