use axramfs::allocator::{AllocError, EarlyAllocator};
use axramfs::hashmap::{AxRandomState, HashMap, SimpleHasher};
use axramfs::mmap::{
    alloc_user_vaddr, decode_syscall, mmap_dest_vaddr, page_copy_span, page_count, MappingFlags,
    SyscallKind, PROT_EXEC, PROT_READ, PROT_WRITE,
};

#[test]
fn hasher_is_deterministic_and_seed_sensitive() {
    let mut h1 = SimpleHasher::new(0);
    h1.write(&[1, 2, 3]);
    let mut h2 = SimpleHasher::new(0);
    h2.write(&[1, 2, 3]);
    assert_eq!(h1.finish(), h2.finish());
    let mut h3 = SimpleHasher::new(7);
    h3.write(&[1, 2, 3]);
    assert_ne!(h1.finish(), h3.finish());
    let mut h4 = SimpleHasher::new(0);
    h4.write(&[1, 2, 4]);
    assert_ne!(h1.finish(), h4.finish());
}

#[test]
fn hasher_builder_repeats_its_seed() {
    let b = AxRandomState::new();
    assert_eq!(b.build_hasher().finish(), b.build_hasher().finish());
    let c = AxRandomState::with_seed(99);
    let mut x = c.build_hasher();
    x.write(&[5]);
    let mut y = c.build_hasher();
    y.write(&[5]);
    assert_eq!(x.finish(), y.finish());
}

#[test]
fn map_insert_get_len() {
    let mut m: HashMap<u64> = HashMap::new();
    assert!(m.is_empty());
    assert_eq!(m.len(), 0);
    assert_eq!(m.insert(1, 10), None);
    assert_eq!(m.insert(2, 20), None);
    assert_eq!(m.len(), 2);
    assert!(!m.is_empty());
    assert_eq!(m.get(1), Some(&10));
    assert_eq!(m.get(2), Some(&20));
    assert_eq!(m.get(3), None);
}

#[test]
fn map_insert_replaces_and_returns_old() {
    let mut m: HashMap<&'static str> = HashMap::new();
    assert_eq!(m.insert(5, "old"), None);
    assert_eq!(m.insert(5, "new"), Some("old"));
    assert_eq!(m.len(), 1);
    assert_eq!(m.get(5), Some(&"new"));
}

#[test]
fn map_survives_growth() {
    let mut m: HashMap<u64> = HashMap::new();
    for k in 0..100u64 {
        assert_eq!(m.insert(k, k * k), None);
    }
    assert_eq!(m.len(), 100);
    for k in 0..100u64 {
        assert_eq!(m.get(k), Some(&(k * k)));
    }
    assert_eq!(m.get(100), None);
}

#[test]
fn map_iter_yields_every_entry() {
    let mut m: HashMap<u64> = HashMap::new();
    for k in 0..20u64 {
        m.insert(k, k + 100);
    }
    let mut seen = vec![false; 20];
    let mut it = m.iter();
    let mut count = 0;
    while let Some((k, v)) = it.next() {
        assert_eq!(*v, k + 100);
        assert!(!seen[k as usize]);
        seen[k as usize] = true;
        count += 1;
    }
    assert_eq!(count, 20);
}

#[test]
fn allocator_starts_uninitialised() {
    let mut a: EarlyAllocator<4096> = EarlyAllocator::new();
    assert_eq!(a.alloc_bytes(8, 8), Err(AllocError::NoMemory));
    assert_eq!(a.alloc_pages(1, 1), Err(AllocError::NoMemory));
    assert_eq!(a.add_memory(0x1000, 0x1000), Err(AllocError::InvalidParam));
}

#[test]
fn allocator_bytes_bump_forward() {
    let mut a: EarlyAllocator<4096> = EarlyAllocator::new();
    a.init(0x1000, 0x10000);
    assert_eq!(a.total_bytes(), 0x10000);
    assert_eq!(a.alloc_bytes(10, 1), Ok(0x1000));
    assert_eq!(a.used_bytes(), 10);
    // The next allocation is aligned up from 0x100a to 16 bytes.
    assert_eq!(a.alloc_bytes(16, 16), Ok(0x1010));
    assert_eq!(a.used_bytes(), 26);
    assert_eq!(a.available_bytes(), 0x10000 - 0x20);
    a.dealloc(0x1000, 10);
    assert_eq!(a.used_bytes(), 16);
    a.dealloc(0x1010, 1000);
    assert_eq!(a.used_bytes(), 0);
}

#[test]
fn allocator_pages_bump_backward() {
    let mut a: EarlyAllocator<4096> = EarlyAllocator::new();
    a.init(0, 0x100000);
    assert_eq!(a.total_pages(), 256);
    assert_eq!(a.alloc_pages(1, 1), Ok(0x100000 - 4096));
    assert_eq!(a.used_pages(), 1);
    assert_eq!(a.alloc_pages(2, 1), Ok(0x100000 - 3 * 4096));
    assert_eq!(a.used_pages(), 3);
    assert_eq!(a.available_pages(), 253);
    a.dealloc_pages(0, 2);
    assert_eq!(a.used_pages(), 1);
}

#[test]
fn allocator_exhaustion_is_no_memory() {
    let mut a: EarlyAllocator<4096> = EarlyAllocator::new();
    a.init(0, 8192);
    assert_eq!(a.alloc_bytes(8192, 1), Ok(0));
    assert_eq!(a.alloc_bytes(1, 1), Err(AllocError::NoMemory));
    let mut b: EarlyAllocator<4096> = EarlyAllocator::new();
    b.init(0, 8192);
    assert_eq!(b.alloc_pages(3, 1), Err(AllocError::NoMemory));
    assert_eq!(b.alloc_pages(2, 1), Ok(0));
}

#[test]
fn mapping_flags_mirror_prot_bits() {
    let f = MappingFlags::from_prot(PROT_READ | PROT_WRITE);
    assert!(f.user && f.read && f.write && !f.execute);
    let g = MappingFlags::from_prot(PROT_EXEC);
    assert!(g.user && !g.read && !g.write && g.execute);
    let h = MappingFlags::from_prot(0);
    assert!(h.user && !h.read && !h.write && !h.execute);
}

#[test]
fn syscall_numbers_decode() {
    assert_eq!(decode_syscall(29), SyscallKind::Ioctl);
    assert_eq!(decode_syscall(56), SyscallKind::Openat);
    assert_eq!(decode_syscall(57), SyscallKind::Close);
    assert_eq!(decode_syscall(63), SyscallKind::Read);
    assert_eq!(decode_syscall(64), SyscallKind::Write);
    assert_eq!(decode_syscall(66), SyscallKind::Writev);
    assert_eq!(decode_syscall(93), SyscallKind::Exit);
    assert_eq!(decode_syscall(94), SyscallKind::ExitGroup);
    assert_eq!(decode_syscall(96), SyscallKind::SetTidAddress);
    assert_eq!(decode_syscall(222), SyscallKind::Mmap);
    assert_eq!(decode_syscall(1234), SyscallKind::Unknown);
}

#[test]
fn mmap_address_and_page_math() {
    assert_eq!(alloc_user_vaddr(4096), 0x8000_0000);
    assert_eq!(mmap_dest_vaddr(0, 4096), 0x8000_0000);
    assert_eq!(mmap_dest_vaddr(0x4000, 4096), 0x4000);
    assert_eq!(page_count(0), 0);
    assert_eq!(page_count(1), 1);
    assert_eq!(page_count(4096), 1);
    assert_eq!(page_count(4097), 2);
    assert_eq!(page_copy_span(0, 10000), (0, 4096));
    assert_eq!(page_copy_span(1, 10000), (4096, 8192));
    assert_eq!(page_copy_span(2, 10000), (8192, 10000));
}
