//! The computational side of the memory-mapping system call: decoding the
//! call number, turning protection bits into mapping flags, choosing the
//! destination address, and sizing the page-by-page copy. The call itself —
//! reading the file, touching the page table — stays outside the library.
use vstd::prelude::*;

verus! {

/// Page can be read.
pub const PROT_READ: i32 = 1;

/// Page can be written.
pub const PROT_WRITE: i32 = 2;

/// Page can be executed.
pub const PROT_EXEC: i32 = 4;

/// The page size the mapping works in.
pub const PAGE_SIZE_4K: usize = 4096;

/// The fallback address user mappings are placed at when the caller leaves
/// the choice open.
pub const USER_MMAP_BASE: usize = 0x8000_0000;

/// The mapping permissions a page is installed with. User access is always
/// granted for a user mapping; the rest mirrors the protection bits.
#[derive(Clone, Copy, Debug, PartialEq, Eq, Structural)]
pub struct MappingFlags {
    pub read: bool,
    pub write: bool,
    pub execute: bool,
    pub user: bool,
}

impl MappingFlags {
    /// The mapping flags for the given protection bits: user access plus
    /// whatever of read, write and execute the bits request.
    pub fn from_prot(prot: i32) -> (r: MappingFlags)
        ensures
            r.user,
            r.read == ((prot & PROT_READ) != 0),
            r.write == ((prot & PROT_WRITE) != 0),
            r.execute == ((prot & PROT_EXEC) != 0),
    {
        MappingFlags {
            read: (prot & PROT_READ) != 0,
            write: (prot & PROT_WRITE) != 0,
            execute: (prot & PROT_EXEC) != 0,
            user: true,
        }
    }
}

/// The system calls this kernel build answers.
#[derive(Clone, Copy, Debug, PartialEq, Eq, Structural)]
pub enum SyscallKind {
    Ioctl,
    Openat,
    Close,
    Read,
    Write,
    Writev,
    Exit,
    ExitGroup,
    SetTidAddress,
    Mmap,
    Unknown,
}

/// Which call a raw system-call number selects.
pub fn decode_syscall(num: usize) -> (r: SyscallKind)
    ensures
        r == (match num {
            29usize => SyscallKind::Ioctl,
            56usize => SyscallKind::Openat,
            57usize => SyscallKind::Close,
            63usize => SyscallKind::Read,
            64usize => SyscallKind::Write,
            66usize => SyscallKind::Writev,
            93usize => SyscallKind::Exit,
            94usize => SyscallKind::ExitGroup,
            96usize => SyscallKind::SetTidAddress,
            222usize => SyscallKind::Mmap,
            _ => SyscallKind::Unknown,
        }),
{
    match num {
        29 => SyscallKind::Ioctl,
        56 => SyscallKind::Openat,
        57 => SyscallKind::Close,
        63 => SyscallKind::Read,
        64 => SyscallKind::Write,
        66 => SyscallKind::Writev,
        93 => SyscallKind::Exit,
        94 => SyscallKind::ExitGroup,
        96 => SyscallKind::SetTidAddress,
        222 => SyscallKind::Mmap,
        _ => SyscallKind::Unknown,
    }
}

/// Picks a fresh user virtual address for a mapping of the given length.
pub fn alloc_user_vaddr(_length: usize) -> (r: usize)
    ensures
        r == USER_MMAP_BASE,
{
    USER_MMAP_BASE
}

/// Where a mapping goes: the caller's address if one was given, otherwise
/// a freshly chosen user address.
pub fn mmap_dest_vaddr(addr: usize, length: usize) -> (r: usize)
    ensures
        r == if addr == 0 {
            USER_MMAP_BASE as int
        } else {
            addr as int
        },
{
    if addr == 0 {
        alloc_user_vaddr(length)
    } else {
        addr
    }
}

/// How many whole pages cover `length` bytes.
pub fn page_count(length: usize) -> (r: usize)
    requires
        length + PAGE_SIZE_4K - 1 <= usize::MAX,
    ensures
        r == (length + PAGE_SIZE_4K - 1) / (PAGE_SIZE_4K as int),
{
    (length + (PAGE_SIZE_4K - 1)) / PAGE_SIZE_4K
}

/// The byte span of page `i` of a mapping of `length` bytes: a full page,
/// or whatever of the final page the length still covers.
pub fn page_copy_span(i: usize, length: usize) -> (r: (usize, usize))
    requires
        (i + 1) * PAGE_SIZE_4K <= usize::MAX,
    ensures
        r.0 == i * PAGE_SIZE_4K,
        r.1 == if (i + 1) * PAGE_SIZE_4K < length {
            (i + 1) * PAGE_SIZE_4K
        } else {
            length as int
        },
{
    proof {
        assert(i * PAGE_SIZE_4K <= (i + 1) * PAGE_SIZE_4K) by (nonlinear_arith);
        assert(i * PAGE_SIZE_4K + PAGE_SIZE_4K == (i + 1) * PAGE_SIZE_4K) by (nonlinear_arith);
    }
    let start = i * PAGE_SIZE_4K;
    let next = start + PAGE_SIZE_4K;
    let end = if next < length {
        next
    } else {
        length
    };
    (start, end)
}

} // verus!
