//! Loading user programs: the ELF64 file header and program headers, the
//! initial user stack, and the address space of a new program.
use vstd::prelude::*;
use crate::fs::disk::{u16_at, u32_at, le32, u32_bytes};
use crate::error::{Error, ProcError};
use crate::constants::{USER_STACK_LOWER_BOUND, USER_STACK_SIZE, USER_STACK_TOP};
use crate::mem::addr::{PhysicalAddr, VirtualAddr};
use crate::mem::allocators::{alloc_frame, dealloc_frame};
use crate::mem::frame::{Frame, FrameAllocator, FRAME_SIZE, MAX_PHYS, spec_block_size};
use crate::mem::page_table::{MemError, PageTableEntryFlags, PageTableManager, spec_satp, satp_value, R_BIT, W_BIT, X_BIT, U_BIT, A_BIT, D_BIT};
use crate::mm::memory_map::{ms_wf, mapping_ok, page_floor, lemma_floor, give_back, pending_ok, kept_in};
use crate::task::{std_fds, MemorySet, TrapContext, UserMapping, Tid, Tasks, TidAllocator, TaskControlBlock, TaskStatus, TID_MAX,
    tids_sorted, has_tid, tcb_of, index_of, lemma_index_of};

verus! {

/// Little-endian `u64` stored at `off`.
pub open spec fn u64_at(d: Seq<u8>, off: int) -> u64 {
    (u32_at(d, off) as int + u32_at(d, off + 4) as int * 0x1_0000_0000) as u64
}

/// The eight little-endian bytes of `v`.
pub open spec fn le64(v: u64) -> Seq<u8> {
    le32((v % 0x1_0000_0000) as u32) + le32((v / 0x1_0000_0000) as u32)
}

/// Size of the ELF64 file header.
pub const EHDR_SIZE: u64 = 64;

/// Size of an ELF64 program header.
pub const PHDR_SIZE: u64 = 56;

/// `e_machine` of RISC-V.
pub const EM_RISCV: u16 = 0xf3;

/// Program header type of a loadable segment.
pub const PT_LOAD: u32 = 1;

/// Segment permission bits of `p_flags`.
pub const PF_X: u32 = 1;
pub const PF_W: u32 = 2;
pub const PF_R: u32 = 4;

/// The fields of the ELF64 file header the loader uses.
#[derive(Clone, Copy, Debug, PartialEq, Eq, Structural)]
pub struct ElfHeader {
    pub e_entry: u64,
    pub e_phoff: u64,
    pub e_phentsize: u16,
    pub e_phnum: u16,
}

/// An ELF64 program header.
#[derive(Clone, Copy, Debug, PartialEq, Eq, Structural)]
pub struct ProgramHeader {
    pub p_type: u32,
    pub p_flags: u32,
    pub p_offset: u64,
    pub p_vaddr: u64,
    pub p_paddr: u64,
    pub p_filesz: u64,
    pub p_memsz: u64,
    pub p_align: u64,
}

/// `d` starts with an ELF64 little-endian RISC-V file header.
pub open spec fn elf_ok(d: Seq<u8>) -> bool {
    &&& d.len() >= EHDR_SIZE
    &&& d[0] == 0x7f && d[1] == 0x45 && d[2] == 0x4c && d[3] == 0x46
    &&& d[4] == 2
    &&& d[5] == 1
    &&& u16_at(d, 18) == EM_RISCV
}

/// The file header of `d`.
pub open spec fn header_of(d: Seq<u8>) -> ElfHeader {
    ElfHeader { e_entry: u64_at(d, 24), e_phoff: u64_at(d, 32), e_phentsize: u16_at(d, 54), e_phnum: u16_at(d, 56) }
}

/// The program header stored at `off` in `d`.
pub open spec fn phdr_at(d: Seq<u8>, off: int) -> ProgramHeader {
    ProgramHeader {
        p_type: u32_at(d, off),
        p_flags: u32_at(d, off + 4),
        p_offset: u64_at(d, off + 8),
        p_vaddr: u64_at(d, off + 16),
        p_paddr: u64_at(d, off + 24),
        p_filesz: u64_at(d, off + 32),
        p_memsz: u64_at(d, off + 40),
        p_align: u64_at(d, off + 48),
    }
}

/// Reads the little-endian `u16` at `off`.
pub fn read_u16(d: &[u8], off: usize) -> (r: u16)
    requires
        off + 2 <= d@.len(),
    ensures
        r == u16_at(d@, off as int),
{
    let n = d.len();
    (d[off] as u16) + (d[off + 1] as u16) * 256
}

/// Reads the little-endian `u32` at `off`.
pub fn read_u32(d: &[u8], off: usize) -> (r: u32)
    requires
        off + 4 <= d@.len(),
    ensures
        r == u32_at(d@, off as int),
{
    let n = d.len();
    let lo = read_u16(d, off) as u32;
    let hi = read_u16(d, off + 2) as u32;
    assert(hi * 65536 <= 65535 * 65536) by (nonlinear_arith) requires hi <= 65535;
    lo + hi * 65536
}

/// Reads the little-endian `u64` at `off`.
pub fn read_u64(d: &[u8], off: usize) -> (r: u64)
    requires
        off + 8 <= d@.len(),
    ensures
        r == u64_at(d@, off as int),
{
    let n = d.len();
    let lo = read_u32(d, off) as u64;
    let hi = read_u32(d, off + 4) as u64;
    assert(hi * 0x1_0000_0000 <= 0xffff_ffff * 0x1_0000_0000) by (nonlinear_arith) requires hi <= 0xffff_ffff;
    lo + hi * 0x1_0000_0000
}

/// The file header of an ELF64 little-endian RISC-V image; `None` for
/// anything else.
pub fn parse_header(d: &[u8]) -> (r: Option<ElfHeader>)
    ensures
        r == (if elf_ok(d@) { Some(header_of(d@)) } else { None::<ElfHeader> }),
{
    if d.len() < 64 {
        return None;
    }
    if d[0] != 0x7f || d[1] != 0x45 || d[2] != 0x4c || d[3] != 0x46 || d[4] != 2 || d[5] != 1 {
        return None;
    }
    if read_u16(d, 18) != EM_RISCV {
        return None;
    }
    Some(ElfHeader {
        e_entry: read_u64(d, 24),
        e_phoff: read_u64(d, 32),
        e_phentsize: read_u16(d, 54),
        e_phnum: read_u16(d, 56),
    })
}

/// Program header `i` of the image: the one stored `i` headers after
/// `e_phoff`; `None` when it does not lie within the image.
pub fn program_header(d: &[u8], h: &ElfHeader, i: u16) -> (r: Option<ProgramHeader>)
    ensures
        match r {
            Some(p) => h.e_phoff + (i + 1) * PHDR_SIZE <= d@.len() && p == phdr_at(d@, h.e_phoff + i * PHDR_SIZE),
            None => h.e_phoff + (i + 1) * PHDR_SIZE > d@.len(),
        },
{
    let end = (i as u64 + 1) * PHDR_SIZE;
    let n = d.len();
    if h.e_phoff > u64::MAX - end || h.e_phoff + end > n as u64 {
        return None;
    }
    let off = (h.e_phoff + i as u64 * PHDR_SIZE) as usize;
    Some(ProgramHeader {
        p_type: read_u32(d, off),
        p_flags: read_u32(d, off + 4),
        p_offset: read_u64(d, off + 8),
        p_vaddr: read_u64(d, off + 16),
        p_paddr: read_u64(d, off + 24),
        p_filesz: read_u64(d, off + 32),
        p_memsz: read_u64(d, off + 40),
        p_align: read_u64(d, off + 48),
    })
}


/// Stack pointer alignment at program entry (RISC-V psABI).
pub const STACK_ALIGN: u64 = 16;

/// The strings of `v`, each followed by a NUL byte, in order.
pub open spec fn cstrs(v: Seq<Vec<u8>>) -> Seq<u8>
    decreases v.len(),
{
    if v.len() == 0 {
        Seq::<u8>::empty()
    } else {
        cstrs(v.drop_last()) + v.last()@ + seq![0u8]
    }
}

/// The auxiliary vector as a sequence of words: type, value, type, ...
pub open spec fn aux_words(auxv: Seq<(u64, u64)>) -> Seq<u64> {
    Seq::new((2 * auxv.len()) as nat, |k: int| if k % 2 == 0 { auxv[k / 2].0 } else { auxv[k / 2].1 })
}

/// The addresses of the strings of `v` laid out from `start`.
pub open spec fn str_addrs(v: Seq<Vec<u8>>, start: int) -> Seq<u64> {
    Seq::new(v.len(), |i: int| (start + cstrs(v.take(i)).len()) as u64)
}

/// The words below the strings: `argc`, the `argv` pointers and a null,
/// the `envp` pointers and a null, then the auxiliary vector.
pub open spec fn stack_words(argv: Seq<Vec<u8>>, envp: Seq<Vec<u8>>, auxv: Seq<(u64, u64)>, arg_start: int, env_start: int) -> Seq<u64> {
    seq![argv.len() as u64] + str_addrs(argv, arg_start) + seq![0u64] + str_addrs(envp, env_start) + seq![0u64]
        + aux_words(auxv)
}

/// The little-endian bytes of the words of `w`.
pub open spec fn words_bytes(w: Seq<u64>) -> Seq<u8>
    decreases w.len(),
{
    if w.len() == 0 { Seq::<u8>::empty() } else { words_bytes(w.drop_last()) + le64(w.last()) }
}

/// Bytes the initial stack needs, rounded up to the stack alignment.
pub open spec fn stack_required(argv: Seq<Vec<u8>>, envp: Seq<Vec<u8>>, auxv: Seq<(u64, u64)>) -> int {
    let words = 1 + argv.len() as int + 1 + envp.len() as int + 1 + 2 * auxv.len() as int;
    let total = words * 8 + cstrs(argv).len() as int + cstrs(envp).len() as int;
    ((total + 15) / 16) * 16
}

/// The initial stack of a program whose stack ends at `top`: the entry
/// stack pointer and the bytes from it up to `top`.  The `envp` strings
/// sit at the top, the `argv` strings below them, and below those, from
/// the 16-byte aligned stack pointer up, the words of [`stack_words`].
pub open spec fn initial_stack(argv: Seq<Vec<u8>>, envp: Seq<Vec<u8>>, auxv: Seq<(u64, u64)>, top: int) -> (int, Seq<u8>) {
    let env_start = top - cstrs(envp).len();
    let arg_start = env_start - cstrs(argv).len();
    let w = stack_words(argv, envp, auxv, arg_start, env_start);
    let sp = ((arg_start - w.len() * 8) / 16) * 16;
    (sp, words_bytes(w) + Seq::new((arg_start - sp - w.len() * 8) as nat, |i: int| 0u8) + cstrs(argv) + cstrs(envp))
}

/// The little-endian bytes of `v`.
pub fn u64_bytes(v: u64) -> (r: Vec<u8>)
    ensures
        r@ == le64(v),
{
    let mut r = u32_bytes((v % 0x1_0000_0000) as u32);
    let mut hi = u32_bytes((v / 0x1_0000_0000) as u32);
    r.append(&mut hi);
    r
}

/// Total bytes of the strings of `v` with their NUL bytes; `None` once it
/// passes `limit`.
fn cstrs_len(v: &Vec<Vec<u8>>, limit: u64) -> (r: Option<u64>)
    ensures
        match r {
            Some(n) => n == cstrs(v@).len() && n <= limit,
            None => cstrs(v@).len() > limit,
        },
{
    let mut n: u64 = 0;
    let mut i: usize = 0;
    while i < v.len()
        invariant
            i <= v@.len(),
            n == cstrs(v@.take(i as int)).len(),
            n <= limit,
        decreases v@.len() - i,
    {
        proof {
            assert(v@.take(i + 1).drop_last() =~= v@.take(i as int));
            assert(v@.take(i + 1).last() == v@[i as int]);
        }
        let l = v[i].len() as u64;
        if l >= limit || n > limit - l - 1 {
            proof {
                lemma_cstrs_prefix(v@, i + 1);
            }
            return None;
        }
        n = n + l + 1;
        i = i + 1;
    }
    proof {
        assert(v@.take(v@.len() as int) =~= v@);
    }
    Some(n)
}

/// The strings of a prefix take no more room than all of them.
proof fn lemma_cstrs_prefix(v: Seq<Vec<u8>>, k: int)
    requires
        0 <= k <= v.len(),
    ensures
        cstrs(v.take(k)).len() <= cstrs(v).len(),
    decreases v.len() - k,
{
    if k < v.len() {
        lemma_cstrs_prefix(v, k + 1);
        assert(v.take(k + 1).drop_last() =~= v.take(k));
    } else {
        assert(v.take(k) =~= v);
    }
}


/// Appends the little-endian bytes of `v`.
fn push_word(img: &mut Vec<u8>, v: u64, Ghost(w): Ghost<Seq<u64>>, Ghost(k): Ghost<int>)
    requires
        0 <= k < w.len(),
        w[k] == v,
        old(img)@ == words_bytes(w.take(k)),
    ensures
        final(img)@ == words_bytes(w.take(k + 1)),
{
    let mut b = u64_bytes(v);
    img.append(&mut b);
    proof {
        assert(w.take(k + 1).drop_last() =~= w.take(k));
    }
}

/// Appends the strings of `v`, each with a NUL byte.
fn push_strings(img: &mut Vec<u8>, v: &Vec<Vec<u8>>)
    ensures
        final(img)@ == old(img)@ + cstrs(v@),
{
    let ghost base = img@;
    let mut i: usize = 0;
    assert(v@.take(0) =~= Seq::<Vec<u8>>::empty());
    assert(base + cstrs(v@.take(0)) =~= base);
    while i < v.len()
        invariant
            i <= v@.len(),
            img@ == base + cstrs(v@.take(i as int)),
        decreases v@.len() - i,
    {
        let mut j: usize = 0;
        let ghost before = img@;
        while j < v[i].len()
            invariant
                j <= v@[i as int]@.len(),
                i < v@.len(),
                img@ == before + v@[i as int]@.take(j as int),
            decreases v@[i as int]@.len() - j,
        {
            img.push(v[i][j]);
            proof {
                assert(v@[i as int]@.take(j + 1) =~= v@[i as int]@.take(j as int).push(v@[i as int]@[j as int]));
            }
            j = j + 1;
        }
        img.push(0u8);
        proof {
            assert(v@[i as int]@.take(j as int) =~= v@[i as int]@);
            assert(v@.take(i + 1).drop_last() =~= v@.take(i as int));
            assert(v@.take(i + 1).last() == v@[i as int]);
            assert(img@ =~= base + cstrs(v@.take(i + 1)));
        }
        i = i + 1;
    }
    proof {
        assert(v@.take(v@.len() as int) =~= v@);
    }
}

/// Appends the words `start + cstrs(v[..i]).len()` for each string `i`
/// of `v`: entries `k0..` of `w`.
fn push_str_addrs(img: &mut Vec<u8>, v: &Vec<Vec<u8>>, start: u64, Ghost(w): Ghost<Seq<u64>>, Ghost(k0): Ghost<int>)
    requires
        0 <= k0,
        k0 + v@.len() <= w.len(),
        forall|i: int| 0 <= i < v@.len() ==> #[trigger] w[k0 + i] == str_addrs(v@, start as int)[i],
        start + cstrs(v@).len() <= u64::MAX,
        old(img)@ == words_bytes(w.take(k0)),
    ensures
        final(img)@ == words_bytes(w.take(k0 + v@.len())),
{
    let mut addr = start;
    let mut i: usize = 0;
    while i < v.len()
        invariant
            i <= v@.len(),
            0 <= k0,
            k0 + v@.len() <= w.len(),
            forall|i: int| 0 <= i < v@.len() ==> #[trigger] w[k0 + i] == str_addrs(v@, start as int)[i],
            img@ == words_bytes(w.take(k0 + i)),
            addr == start + cstrs(v@.take(i as int)).len(),
            start + cstrs(v@).len() <= u64::MAX,
        decreases v@.len() - i,
    {
        proof {
            lemma_cstrs_prefix(v@, i + 1);
            assert(v@.take(i + 1).drop_last() =~= v@.take(i as int));
            assert(v@.take(i + 1).last() == v@[i as int]);
            assert(w[k0 + i] == str_addrs(v@, start as int)[i as int]);
        }
        push_word(img, addr, Ghost(w), Ghost(k0 + i));
        addr = addr + v[i].len() as u64 + 1;
        i = i + 1;
    }
}

/// Appends the auxiliary vector: entries `k0..` of `w`.
fn push_aux(img: &mut Vec<u8>, auxv: &Vec<(u64, u64)>, Ghost(w): Ghost<Seq<u64>>, Ghost(k0): Ghost<int>)
    requires
        0 <= k0,
        k0 + 2 * auxv@.len() <= w.len(),
        forall|i: int| 0 <= i < 2 * auxv@.len() ==> #[trigger] w[k0 + i] == aux_words(auxv@)[i],
        old(img)@ == words_bytes(w.take(k0)),
    ensures
        final(img)@ == words_bytes(w.take(k0 + 2 * auxv@.len())),
{
    let mut k: usize = 0;
    while k < auxv.len()
        invariant
            k <= auxv@.len(),
            0 <= k0,
            k0 + 2 * auxv@.len() <= w.len(),
            forall|i: int| 0 <= i < 2 * auxv@.len() ==> #[trigger] w[k0 + i] == aux_words(auxv@)[i],
            img@ == words_bytes(w.take(k0 + 2 * k)),
        decreases auxv@.len() - k,
    {
        let (t, v) = auxv[k];
        proof {
            assert((2 * k) % 2 == 0 && (2 * k) / 2 == k) by (nonlinear_arith);
            assert((2 * k + 1) % 2 == 1 && (2 * k + 1) / 2 == k) by (nonlinear_arith);
            assert(w[k0 + 2 * k] == aux_words(auxv@)[2 * k as int]);
            assert(w[k0 + (2 * k + 1)] == aux_words(auxv@)[2 * k + 1]);
        }
        push_word(img, t, Ghost(w), Ghost(k0 + 2 * k));
        push_word(img, v, Ghost(w), Ghost(k0 + 2 * k + 1));
        k = k + 1;
    }
}

/// Where each part of the word list sits.
proof fn lemma_stack_words(argv: Seq<Vec<u8>>, envp: Seq<Vec<u8>>, auxv: Seq<(u64, u64)>, arg_start: int, env_start: int)
    ensures
        ({
            let w = stack_words(argv, envp, auxv, arg_start, env_start);
            let ac = argv.len() as int;
            let ec = envp.len() as int;
            &&& w.len() == 3 + ac + ec + 2 * auxv.len()
            &&& w[0] == argv.len() as u64
            &&& forall|i: int| 0 <= i < ac ==> #[trigger] w[1 + i] == str_addrs(argv, arg_start)[i]
            &&& w[1 + ac] == 0
            &&& forall|i: int| 0 <= i < ec ==> #[trigger] w[2 + ac + i] == str_addrs(envp, env_start)[i]
            &&& w[2 + ac + ec] == 0
            &&& forall|i: int| 0 <= i < 2 * auxv.len() ==> #[trigger] w[3 + ac + ec + i] == aux_words(auxv)[i]
        }),
{
}

/// Appends `n` zero bytes.
fn push_zeros(img: &mut Vec<u8>, n: u64)
    ensures
        final(img)@ == old(img)@ + Seq::new(n as nat, |i: int| 0u8),
{
    let ghost base = img@;
    let mut p: u64 = 0;
    assert(base + Seq::new(0 as nat, |i: int| 0u8) =~= base);
    while p < n
        invariant
            p <= n,
            img@ == base + Seq::new(p as nat, |i: int| 0u8),
        decreases n - p,
    {
        img.push(0u8);
        proof {
            assert(img@ =~= base + Seq::new((p + 1) as nat, |i: int| 0u8));
        }
        p = p + 1;
    }
}

/// Where the parts of the initial stack go: `(arg_start, env_start, sp)`
/// for `nwords` words and string areas of `a` and `e` bytes in a stack of
/// `stack_size` bytes from `stack_start`; `None` when the 16-byte rounded
/// total does not fit.
fn stack_layout(nwords: u64, a: u64, e: u64, stack_start: u64, stack_size: u64) -> (r: Option<(u64, u64, u64)>)
    requires
        stack_start + stack_size <= u64::MAX,
        (stack_start + stack_size) % 16 == 0,
        stack_size <= 0x1_0000_0000_0000,
        nwords * 8 <= stack_size,
        a <= stack_size,
        e <= stack_size,
    ensures
        ({
            let top = stack_start + stack_size;
            let total = nwords * 8 + a + e;
            match r {
                Some((arg_start, env_start, sp)) => {
                    &&& ((total + 15) / 16) * 16 <= stack_size
                    &&& env_start == top - e
                    &&& arg_start == env_start - a
                    &&& sp == ((arg_start - nwords * 8) / 16) * 16
                    &&& stack_start <= sp
                    &&& sp % 16 == 0
                    &&& sp + nwords * 8 <= arg_start
                },
                None => ((total + 15) / 16) * 16 > stack_size,
            }
        }),
{
    let total = nwords * 8 + a + e;
    let required = (total + 15) / 16 * 16;
    if required > stack_size {
        return None;
    }
    let top = stack_start + stack_size;
    let env_start = top - e;
    let arg_start = env_start - a;
    let low = arg_start - nwords * 8;
    let sp = low & !15u64;
    proof {
        assert(low & !15u64 == (low - low % 16) as u64) by (bit_vector);
        assert(((low as int) / 16) * 16 == low - low % 16) by (nonlinear_arith);
        assert(total + 15 - (total + 15) % 16 == ((total + 15) / 16) * 16) by (nonlinear_arith);
        assert(required >= total);
        assert(top % 16 == 0);
        assert((top - required) % 16 == 0) by (nonlinear_arith)
            requires top % 16 == 0, required == ((total + 15) / 16) * 16;
        assert(low >= top - required);
        assert(sp >= top - required) by (nonlinear_arith)
            requires sp == low - low % 16, low >= top - required, (top - required) % 16 == 0, top >= required;
        assert(sp % 16 == 0) by (nonlinear_arith)
            requires sp == low - low % 16;
    }
    Some((arg_start, env_start, sp))
}

/// The image of the initial stack is its words, the padding and the
/// strings.
proof fn lemma_image(argv: Seq<Vec<u8>>, envp: Seq<Vec<u8>>, auxv: Seq<(u64, u64)>, top: int, arg_start: int, env_start: int,
    sp: int, img: Seq<u8>)
    requires
        env_start == top - cstrs(envp).len(),
        arg_start == env_start - cstrs(argv).len(),
        sp == ((arg_start - stack_words(argv, envp, auxv, arg_start, env_start).len() * 8) / 16) * 16,
        img == words_bytes(stack_words(argv, envp, auxv, arg_start, env_start))
            + Seq::new((arg_start - sp - stack_words(argv, envp, auxv, arg_start, env_start).len() * 8) as nat, |i: int| 0u8)
            + cstrs(argv) + cstrs(envp),
    ensures
        initial_stack(argv, envp, auxv, top) == (sp, img),
{
}

/// Builds the initial stack of a program whose stack occupies
/// `stack_size` bytes from `stack_start` (see [`initial_stack`]):
/// returns the entry stack pointer and the bytes from it to the top of
/// the stack; `ArgsTooLong` when the arguments do not fit.
pub fn build_initial_stack(
    argv: &Vec<Vec<u8>>,
    envp: &Vec<Vec<u8>>,
    auxv: &Vec<(u64, u64)>,
    stack_start: u64,
    stack_size: u64,
) -> (r: Result<(u64, Vec<u8>), Error>)
    requires
        stack_start + stack_size <= u64::MAX,
        (stack_start + stack_size) % 16 == 0,
        stack_size <= 0x1_0000_0000_0000,
    ensures
        match r {
            Ok((sp, img)) => {
                &&& stack_required(argv@, envp@, auxv@) <= stack_size
                &&& sp as int == initial_stack(argv@, envp@, auxv@, stack_start + stack_size).0
                &&& img@ == initial_stack(argv@, envp@, auxv@, stack_start + stack_size).1
                &&& stack_start <= sp
                &&& sp % STACK_ALIGN == 0
            },
            Err(e) => e == Error::Proc(ProcError::ArgsTooLong) && stack_required(argv@, envp@, auxv@) > stack_size,
        },
{
    let argc = argv.len() as u64;
    let envc = envp.len() as u64;
    let auxc = auxv.len() as u64;
    if argc > stack_size || envc > stack_size || auxc > stack_size {
        return Err(Error::Proc(ProcError::ArgsTooLong));
    }
    let nwords = 3 + argc + envc + 2 * auxc;
    if nwords > stack_size / 8 {
        return Err(Error::Proc(ProcError::ArgsTooLong));
    }
    let a = match cstrs_len(argv, stack_size) {
        Some(n) => n,
        None => return Err(Error::Proc(ProcError::ArgsTooLong)),
    };
    let e = match cstrs_len(envp, stack_size) {
        Some(n) => n,
        None => return Err(Error::Proc(ProcError::ArgsTooLong)),
    };
    let (arg_start, env_start, sp) = match stack_layout(nwords, a, e, stack_start, stack_size) {
        Some(l) => l,
        None => return Err(Error::Proc(ProcError::ArgsTooLong)),
    };
    let ghost w = stack_words(argv@, envp@, auxv@, arg_start as int, env_start as int);
    proof {
        lemma_stack_words(argv@, envp@, auxv@, arg_start as int, env_start as int);
    }
    let mut img: Vec<u8> = Vec::new();
    assert(w.take(0) =~= Seq::<u64>::empty());
    push_word(&mut img, argc, Ghost(w), Ghost(0));
    push_str_addrs(&mut img, argv, arg_start, Ghost(w), Ghost(1));
    push_word(&mut img, 0, Ghost(w), Ghost(1 + argc));
    push_str_addrs(&mut img, envp, env_start, Ghost(w), Ghost(2 + argc));
    push_word(&mut img, 0, Ghost(w), Ghost(2 + argc + envc));
    push_aux(&mut img, auxv, Ghost(w), Ghost(3 + argc + envc));
    proof {
        assert(w.take(w.len() as int) =~= w);
    }
    let pad = arg_start - sp - nwords * 8;
    push_zeros(&mut img, pad);
    push_strings(&mut img, argv);
    push_strings(&mut img, envp);
    proof {
        lemma_image(argv@, envp@, auxv@, stack_start + stack_size, arg_start as int, env_start as int, sp as int, img@);
    }
    Ok((sp, img))
}


/// The loadable segments among the first `n` program headers, in order.
pub open spec fn loads(d: Seq<u8>, h: ElfHeader, n: int) -> Seq<ProgramHeader>
    decreases n,
{
    if n <= 0 {
        Seq::<ProgramHeader>::empty()
    } else {
        let p = phdr_at(d, h.e_phoff + (n - 1) * PHDR_SIZE);
        loads(d, h, n - 1) + if p.p_type == PT_LOAD { seq![p] } else { Seq::<ProgramHeader>::empty() }
    }
}

/// The address of the program headers in the new program: taken from the
/// last loadable segment among the first `n` whose file range holds them.
pub open spec fn phdr_va(d: Seq<u8>, h: ElfHeader, n: int) -> u64
    decreases n,
{
    if n <= 0 {
        0
    } else {
        let p = phdr_at(d, h.e_phoff + (n - 1) * PHDR_SIZE);
        if p.p_type == PT_LOAD && h.e_phoff >= p.p_offset && h.e_phoff - p.p_offset < p.p_filesz {
((p.p_vaddr + (h.e_phoff - p.p_offset)) % 0x1_0000_0000_0000_0000) as u64
        } else {
            phdr_va(d, h, n - 1)
        }
    }
}

/// The bytes of segment `p` in memory: its file bytes from offset
/// `p_vaddr % p_align`, zeros elsewhere.
pub open spec fn seg_image(d: Seq<u8>, p: ProgramHeader) -> Seq<u8> {
    let inside = (p.p_vaddr % p.p_align) as int;
    let len = if p.p_memsz >= inside + p.p_filesz { p.p_memsz as int } else { inside + p.p_filesz };
    Seq::new(len as nat, |k: int| if inside <= k < inside + p.p_filesz { d[p.p_offset + k - inside] } else { 0u8 })
}

/// Every segment's file bytes lie within the image and its alignment is
/// not zero.
pub open spec fn segments_ok(d: Seq<u8>, h: ElfHeader) -> bool {
    &&& h.e_phnum > 0 ==> h.e_phoff + h.e_phnum * PHDR_SIZE <= d.len()
    &&& forall|k: int| 0 <= k < loads(d, h, h.e_phnum as int).len() ==> {
        let p = #[trigger] loads(d, h, h.e_phnum as int)[k];
        &&& p.p_align != 0
        &&& p.p_offset + p.p_filesz <= d.len()
    }
}

/// The page-table flags of a segment with permissions `p_flags`.
pub open spec fn seg_flags(f: PageTableEntryFlags, p_flags: u32) -> bool {
    &&& f.flag(U_BIT) && f.flag(A_BIT) && f.flag(D_BIT)
    &&& f.flag(R_BIT) == (p_flags & PF_R != 0)
    &&& f.flag(W_BIT) == (p_flags & PF_W != 0)
    &&& f.flag(X_BIT) == (p_flags & PF_X != 0)
}

/// The page-table flags of the user stack: readable, writable, user,
/// accessed, dirty; not executable.
pub open spec fn stack_flags(f: PageTableEntryFlags) -> bool {
    &&& f.flag(U_BIT) && f.flag(A_BIT) && f.flag(D_BIT) && f.flag(R_BIT) && f.flag(W_BIT)
    &&& !f.flag(X_BIT)
}

/// The `sstatus` a new program starts with: previous mode user (SPP
/// clear), interrupts enabled on return (SPIE set).
pub open spec fn user_sstatus(s: u64) -> u64 {
    (s & !0x100u64) | 0x20u64
}

/// A loaded program: its memory, its entry registers, and the bytes to
/// store at physical addresses before it runs (segment contents and the
/// initial stack).
pub struct Load {
    pub memory_set: MemorySet,
    pub trap_context: TrapContext,
    pub writes: Vec<(u64, Vec<u8>)>,
}

/// Maps the pages of `frame` at `va` in `tid`'s page table.
fn map_pages(tid: Tid, va: u64, frame: Frame, flags: PageTableEntryFlags, pt: &mut PageTableManager,
    frames: &mut FrameAllocator) -> (r: Result<(), MemError>)
    requires
        old(pt).wf(old(frames)),
        old(frames).wf(),
        va + frame.size <= u64::MAX,
        frame.start + frame.size <= u64::MAX,
        frame.size % 4096 == 0,
    ensures
        final(frames).wf(),
        final(pt).wf(final(frames)),
        kept_in(old(pt), old(frames), final(pt), final(frames), Set::<u64>::empty()),
        spaces_kept(final(pt), old(pt), tid),
        final(pt).has_space(tid) == old(pt).has_space(tid),
        old(pt).has_space(tid) ==> final(pt).user_space(tid).root_addr() == old(pt).user_space(tid).root_addr(),
        frame.size == 0 ==> r is Ok,
        frame.size > 0 ==> ((r == Err::<(), MemError>(MemError::AddressSpaceNotFound)) == !old(pt).has_space(tid)),
{
    let mut step: u64 = 0;
    while step < frame.size
        invariant
            frames.wf(),
            pt.wf(frames),
            kept_in(old(pt), old(frames), pt, frames, Set::<u64>::empty()),
            spaces_kept(pt, old(pt), tid),
            pt.has_space(tid) == old(pt).has_space(tid),
            old(pt).has_space(tid) ==> pt.user_space(tid).root_addr() == old(pt).user_space(tid).root_addr(),
            step % 4096 == 0,
            va + frame.size <= u64::MAX,
            frame.start + frame.size <= u64::MAX,
            frame.size % 4096 == 0,
            step > 0 ==> old(pt).has_space(tid),
        ensures
            frames.wf(),
            pt.wf(frames),
            kept_in(old(pt), old(frames), pt, frames, Set::<u64>::empty()),
            spaces_kept(pt, old(pt), tid),
            pt.has_space(tid) == old(pt).has_space(tid),
            old(pt).has_space(tid) ==> pt.user_space(tid).root_addr() == old(pt).user_space(tid).root_addr(),
            frame.size > 0 ==> old(pt).has_space(tid),
        decreases frame.size - step,
    {
        let ghost pt1 = *pt;
        let ghost f1 = *frames;
        let r = pt.user_map(tid, VirtualAddr(va + step), PhysicalAddr(frame.start + step), flags, frames);
        proof {
            assert forall|a: u64| #[trigger] old(frames).used().contains(a) && !Set::<u64>::empty().contains(a)
                implies frames.used().contains(a) by {
                assert(f1.used().contains(a));
            }
            assert forall|a: u64| #[trigger] pt.holds_page(a) implies old(pt).holds_page(a) || !old(frames).used().contains(a)
                || Set::<u64>::empty().contains(a) by {
                if !pt1.holds_page(a) {
                    assert(!f1.used().contains(a));
                }
            }
            lemma_users_spaces(pt, &pt1, tid);
            lemma_spaces_kept(pt, &pt1, old(pt), tid);
            assert(pt.has_space(tid) == pt1.has_space(tid));
            assert(kept_in(old(pt), old(frames), pt, frames, Set::<u64>::empty()));
        }
        match r {
            Ok(()) => {},
            Err(e) => return Err(e),
        }
        if frame.size - step <= 4096 {
            break;
        }
        step = step + 4096;
    }
    Ok(())
}


/// Auxiliary-vector types.
pub const AT_NULL: u64 = 0;
pub const AT_PHDR: u64 = 3;
pub const AT_PHENT: u64 = 4;
pub const AT_PHNUM: u64 = 5;
pub const AT_PAGESZ: u64 = 6;
pub const AT_ENTRY: u64 = 9;

/// The auxiliary vector of a program with header `h` whose program
/// headers are at `phdr`.
pub open spec fn auxv_of(h: ElfHeader, phdr: u64) -> Seq<(u64, u64)> {
    seq![(AT_PHDR, phdr), (AT_PHENT, h.e_phentsize as u64), (AT_PHNUM, h.e_phnum as u64), (AT_PAGESZ, 4096u64),
        (AT_ENTRY, h.e_entry), (AT_NULL, 0u64)]
}

/// The bytes of segment `p` of `d` (see [`seg_image`]).
fn segment_image(d: &[u8], p: &ProgramHeader, len: u64) -> (r: Vec<u8>)
    requires
        p.p_align != 0,
        p.p_offset + p.p_filesz <= d@.len(),
        len == (if p.p_memsz >= (p.p_vaddr % p.p_align) + p.p_filesz { p.p_memsz as int }
            else { (p.p_vaddr % p.p_align) + p.p_filesz }),
    ensures
        r@ == seg_image(d@, *p),
{
    let inside = p.p_vaddr % p.p_align;
    let n = d.len();
    let mut img: Vec<u8> = Vec::new();
    let mut k: u64 = 0;
    while k < len
        invariant
            k <= len,
            inside == p.p_vaddr % p.p_align,
            p.p_offset + p.p_filesz <= d@.len(),
            n == d@.len(),
            img@.len() == k,
            forall|j: int| 0 <= j < k ==> #[trigger] img@[j] == seg_image(d@, *p)[j],
            len == seg_image(d@, *p).len(),
        decreases len - k,
    {
        let b = if inside <= k && k - inside < p.p_filesz { d[(p.p_offset + (k - inside)) as usize] } else { 0u8 };
        img.push(b);
        k = k + 1;
    }
    proof {
        assert(img@ =~= seg_image(d@, *p));
    }
    img
}

/// The page-table flags of a segment with permissions `p_flags`.
fn segment_flags(p_flags: u32) -> (r: PageTableEntryFlags)
    ensures
        seg_flags(r, p_flags),
{
    let mut f = PageTableEntryFlags::new();
    f.set_bit(U_BIT, true);
    f.set_bit(W_BIT, p_flags & PF_W != 0);
    f.set_bit(X_BIT, p_flags & PF_X != 0);
    f.set_bit(R_BIT, p_flags & PF_R != 0);
    f.set_bit(A_BIT, true);
    f.set_bit(D_BIT, true);
    f
}

/// The page-table flags of the user stack.
fn user_stack_flags() -> (r: PageTableEntryFlags)
    ensures
        stack_flags(r),
{
    let mut f = PageTableEntryFlags::new();
    f.set_bit(R_BIT, true);
    f.set_bit(W_BIT, true);
    f.set_bit(U_BIT, true);
    f.set_bit(A_BIT, true);
    f.set_bit(D_BIT, true);
    f
}


/// The loaded mappings and stores correspond to the loadable segments
/// `ls`: same order, address, flags, a block of the segment's size, and
/// the segment's bytes stored at the block.
pub open spec fn loaded_as(d: Seq<u8>, ls: Seq<ProgramHeader>, ms: Seq<UserMapping>, writes: Seq<(u64, Vec<u8>)>) -> bool {
    &&& ms.len() >= ls.len()
    &&& writes.len() >= ls.len()
    &&& forall|k: int| 0 <= k < ls.len() ==> {
        let m = #[trigger] ms[k];
        &&& m.va.0 == ls[k].p_vaddr
        &&& seg_flags(m.flags, ls[k].p_flags)
        &&& spec_block_size(ls[k].p_memsz as nat, m.frame.size as nat)
        &&& writes[k].0 == m.frame.start
        &&& writes[k].1@ == seg_image(d, ls[k])
    }
}

/// Loading places each segment's file bytes at the segment's offset within
/// its alignment: byte `k` of the file range lands at byte
/// `p_vaddr % p_align + k` of the bytes stored into the segment's block,
/// and the bytes before that offset are zero.
pub proof fn lemma_segment_layout(d: Seq<u8>, ls: Seq<ProgramHeader>, ms: Seq<UserMapping>,
    writes: Seq<(u64, Vec<u8>)>, k: int)
    requires
        loaded_as(d, ls, ms, writes),
        0 <= k < ls.len(),
        ls[k].p_align != 0,
    ensures
        writes[k].0 == ms[k].frame.start,
        writes[k].1@.len() >= (ls[k].p_vaddr % ls[k].p_align) + ls[k].p_filesz,
        writes[k].1@.len() >= ls[k].p_memsz,
        forall|j: int| 0 <= j < ls[k].p_filesz ==>
            #[trigger] writes[k].1@[(ls[k].p_vaddr % ls[k].p_align) + j] == d[ls[k].p_offset + j],
        forall|j: int| 0 <= j < ls[k].p_vaddr % ls[k].p_align ==> #[trigger] writes[k].1@[j] == 0u8,
        forall|j: int| (ls[k].p_vaddr % ls[k].p_align) + ls[k].p_filesz <= j < writes[k].1@.len()
            ==> #[trigger] writes[k].1@[j] == 0u8,
{
    let p = ls[k];
    let img = seg_image(d, p);
    let inside = (p.p_vaddr % p.p_align) as int;
    assert(ms[k].va.0 == p.p_vaddr);
    assert(writes[k].1@ == img);
    assert forall|j: int| 0 <= j < p.p_filesz implies #[trigger] writes[k].1@[(p.p_vaddr % p.p_align) + j]
        == d[p.p_offset + j] by {
        let len = if p.p_memsz >= inside + p.p_filesz { p.p_memsz as int } else { inside + p.p_filesz };
        assert(img.len() == len);
        assert(0 <= inside + j < len);
        assert(img[inside + j] == d[p.p_offset + (inside + j) - inside]);
    }
    assert forall|j: int| 0 <= j < p.p_vaddr % p.p_align implies #[trigger] writes[k].1@[j] == 0u8 by {
        assert(img[j] == 0u8);
    }
    assert forall|j: int| (p.p_vaddr % p.p_align) + p.p_filesz <= j < writes[k].1@.len()
        implies #[trigger] writes[k].1@[j] == 0u8 by {
        assert(img[j] == 0u8);
    }
}

/// `ms`, `tc` and the stores `w` are what loading the image `d` as the
/// program of `tid` gives: the mappings of the loadable segments in order
/// (see [`loaded_as`]), then the user stack at [`USER_STACK_LOWER_BOUND`]
/// holding the initial stack of `argv`, `envp` and the auxiliary vector;
/// the entry registers start at `e_entry` with `sp` at the initial stack.
pub open spec fn loaded(d: Seq<u8>, argv: Seq<Vec<u8>>, envp: Seq<Vec<u8>>, tid: Tid, sstatus: u64, ms: MemorySet,
    tc: TrapContext, w: Seq<(u64, Vec<u8>)>, pt: &PageTableManager, frames: &FrameAllocator) -> bool {
    let h = header_of(d);
    let ls = loads(d, h, h.e_phnum as int);
    let m = ms.mappings@;
    let st = m[ls.len() as int];
    let (sp, img) = initial_stack(argv, envp, auxv_of(h, phdr_va(d, h, h.e_phnum as int)),
        USER_STACK_LOWER_BOUND + st.frame.size);
    &&& elf_ok(d)
    &&& segments_ok(d, h)
    &&& pt.has_space(tid)
    &&& ms.user_root_page_table.0 == pt.user_space(tid).root_addr()
    &&& ms_wf(m, pt, frames)
    &&& m.len() == ls.len() + 1
    &&& w.len() == ls.len() + 1
    &&& loaded_as(d, ls, m, w)
    &&& st.va.0 == USER_STACK_LOWER_BOUND
    &&& stack_flags(st.flags)
    &&& spec_block_size(USER_STACK_SIZE as nat, st.frame.size as nat)
    &&& w[ls.len() as int].0 == st.frame.start + (sp - USER_STACK_LOWER_BOUND)
    &&& w[ls.len() as int].1@ == img
    &&& tc.sepc == h.e_entry
    &&& tc.satp == spec_satp(ms.user_root_page_table.0)
    &&& tc.sstatus == user_sstatus(sstatus)
    &&& tc.context@ == Seq::new(32, |i: int| if i == 2 { sp as u64 } else { 0u64 })
}

/// A loaded program holds each loadable segment's file bytes in the block
/// mapped at the segment's virtual address, at the segment's offset within
/// its alignment, with zeros before them.
pub proof fn lemma_loaded_segment_layout(d: Seq<u8>, argv: Seq<Vec<u8>>, envp: Seq<Vec<u8>>, tid: Tid, sstatus: u64,
    ms: MemorySet, tc: TrapContext, w: Seq<(u64, Vec<u8>)>, pt: &PageTableManager, frames: &FrameAllocator, k: int)
    requires
        loaded(d, argv, envp, tid, sstatus, ms, tc, w, pt, frames),
        0 <= k < loads(d, header_of(d), header_of(d).e_phnum as int).len(),
    ensures ({
        let p = loads(d, header_of(d), header_of(d).e_phnum as int)[k];
        &&& ms.mappings@[k].va.0 == p.p_vaddr
        &&& w[k].0 == ms.mappings@[k].frame.start
        &&& forall|j: int| 0 <= j < p.p_filesz ==> #[trigger] w[k].1@[(p.p_vaddr % p.p_align) + j] == d[p.p_offset + j]
        &&& forall|j: int| 0 <= j < p.p_vaddr % p.p_align ==> #[trigger] w[k].1@[j] == 0u8
    }),
{
    let h = header_of(d);
    let ls = loads(d, h, h.e_phnum as int);
    assert(ls[k].p_align != 0);
    assert(ms.mappings@[k].va.0 == ls[k].p_vaddr);
    lemma_segment_layout(d, ls, ms.mappings@, w, k);
}

/// The task's page table after loading: it exists and has its root at
/// `root`.
spec fn space_at(pt: &PageTableManager, tid: Tid, root: PhysicalAddr) -> bool {
    pt.has_space(tid) && pt.user_space(tid).root_addr() == root.0
}

/// `pt` keeps from `pt0`, for every task but `tid`, whether it has a user
/// space and which.
pub open spec fn spaces_kept(pt: &PageTableManager, pt0: &PageTableManager, tid: Tid) -> bool {
    forall|t: Tid| t != tid ==> #[trigger] pt.has_space(t) == pt0.has_space(t)
        && (pt0.has_space(t) ==> pt.user_space(t) == pt0.user_space(t))
}

/// Keeping the user spaces of all tasks but `tid` composes.
proof fn lemma_spaces_kept(a: &PageTableManager, b: &PageTableManager, c: &PageTableManager, tid: Tid)
    requires
        spaces_kept(a, b, tid),
        spaces_kept(b, c, tid),
    ensures
        spaces_kept(a, c, tid),
{
    assert forall|t: Tid| t != tid implies #[trigger] a.has_space(t) == c.has_space(t)
        && (c.has_space(t) ==> a.user_space(t) == c.user_space(t)) by {
        assert(a.has_space(t) == b.has_space(t));
        assert(b.has_space(t) == c.has_space(t));
    }
}

/// What [`PageTableManager::users_kept`] states for all tasks but `tid`.
proof fn lemma_users_spaces(a: &PageTableManager, b: &PageTableManager, tid: Tid)
    requires
        a.users_kept(b, Some(tid)),
    ensures
        spaces_kept(a, b, tid),
{
    assert forall|t: Tid| t != tid implies #[trigger] a.has_space(t) == b.has_space(t)
        && (b.has_space(t) ==> a.user_space(t) == b.user_space(t)) by {
        assert(a.has_space(t) == b.has_space(t));
    }
}

/// Takes a block for the loadable segment `ph`, maps it at the segment's
/// address with the segment's permissions and gives the segment's bytes;
/// the block is appended to `bufs`.  On a failure every block of `bufs` is
/// given back.
fn load_one(buffer: &[u8], ph: &ProgramHeader, tid: Tid, root: PhysicalAddr, bufs: &mut Vec<Frame>,
    pt: &mut PageTableManager, frames: &mut FrameAllocator, Ghost(before): Ghost<Set<u64>>)
    -> (r: Result<(UserMapping, Vec<u8>), Error>)
    requires
        ph.p_align != 0,
        ph.p_offset + ph.p_filesz <= buffer@.len(),
        old(frames).wf(),
        old(pt).wf(old(frames)),
        space_at(old(pt), tid, root),
        pending_ok(old(bufs)@, 0, old(pt), old(frames), before),
        forall|b: int| 0 <= b < old(bufs)@.len() ==> (#[trigger] old(bufs)@[b]).start % FRAME_SIZE == 0,
        forall|a: u64| before.contains(a) ==> #[trigger] old(frames).used().contains(a),
    ensures
        final(frames).wf(),
        final(pt).wf(final(frames)),
        forall|a: u64| #[trigger] final(pt).holds_page(a) ==> old(pt).holds_page(a) || !old(frames).used().contains(a),
        spaces_kept(final(pt), old(pt), tid),
        match r {
            Ok((m, img)) => {
                &&& final(bufs)@ == old(bufs)@.push(m.frame)
                &&& space_at(final(pt), tid, root)
                &&& pending_ok(final(bufs)@, 0, final(pt), final(frames), before)
                &&& forall|b: int| 0 <= b < final(bufs)@.len() ==> (#[trigger] final(bufs)@[b]).start % FRAME_SIZE == 0
                &&& forall|a: u64| old(frames).used().contains(a) ==> #[trigger] final(frames).used().contains(a)
                &&& m.va.0 == ph.p_vaddr
                &&& seg_flags(m.flags, ph.p_flags)
                &&& spec_block_size(ph.p_memsz as nat, m.frame.size as nat)
                &&& mapping_ok(m)
                &&& img@ == seg_image(buffer@, *ph)
            },
            Err(e) => {
                &&& e == Error::Proc(ProcError::BadImage) || e == Error::Mem(MemError::OutOfMemory)
                    || e == Error::Mem(MemError::PageTableMissing) || e == Error::Mem(MemError::AddressSpaceNotFound)
                &&& forall|a: u64| old(frames).used().contains(a)
                    && !(exists|b: int| 0 <= b < old(bufs)@.len() && (#[trigger] old(bufs)@[b]).start == a)
                    ==> #[trigger] final(frames).used().contains(a)
            },
        },
{
    let ghost f1 = *frames;
    let frame = match alloc_frame(Some(ph.p_memsz), frames) {
        Some(f) => f,
        None => {
            proof {
                assert forall|a: u64| #[trigger] pt.holds_page(a) implies frames.used().contains(a) by {
                    pt.lemma_holds_used(&f1, a);
                }
                pt.lemma_wf_keep(&f1, frames);
            }
            let ghost f5 = *frames;
            give_back(&bufs, 0, pt, frames, Ghost(Seq::<UserMapping>::empty()), Ghost(before));
        proof {
            assert forall|a: u64| old(frames).used().contains(a)
                && !(exists|b: int| 0 <= b < old(bufs)@.len() && (#[trigger] old(bufs)@[b]).start == a)
                implies #[trigger] frames.used().contains(a) by {
                    assert(f5.used().contains(a));
                if !before.contains(a) {
                    assert forall|b: int| 0 <= b < bufs@.len() implies (#[trigger] bufs@[b]).start != a by {
                        if b < old(bufs)@.len() {
                            assert(bufs@[b] == old(bufs)@[b]);
                        }
                    }
                }
            }
        }
            return Err(Error::Mem(MemError::OutOfMemory));
        },
    };
    proof {
        assert(!pt.holds_page(frame.start)) by {
            if pt.holds_page(frame.start) {
                pt.lemma_holds_used(&f1, frame.start);
            }
        }
        assert forall|a: u64| #[trigger] pt.holds_page(a) implies frames.used().contains(a) by {
            pt.lemma_holds_used(&f1, a);
        }
        pt.lemma_wf_keep(&f1, frames);
        vstd::arithmetic::div_mod::lemma_mod_equivalence(frame.start as int, 0, 4096);
    }
    let inside = ph.p_vaddr % ph.p_align;
    let ghost b0 = bufs@;
        bufs.push(frame);
    proof {
        assert forall|b: int| 0 <= b < bufs@.len() implies frames.used().contains(#[trigger] bufs@[b].start)
            && !pt.holds_page(bufs@[b].start) && !before.contains(bufs@[b].start) by {
            if b < b0.len() {
                assert(bufs@[b] == b0[b]);
                assert(f1.used().contains(b0[b].start));
            }
        }
        assert forall|b: int, c: int| 0 <= b < c < bufs@.len() implies (#[trigger] bufs@[b]).start != (#[trigger] bufs@[c]).start by {
            if c == b0.len() {
                assert(f1.used().contains(b0[b].start));
            } else {
                assert(bufs@[b] == b0[b] && bufs@[c] == b0[c]);
            }
        }
        assert forall|b: int| 0 <= b < bufs@.len() implies (#[trigger] bufs@[b]).start % FRAME_SIZE == 0 by {
            if b < b0.len() {
                assert(bufs@[b] == b0[b]);
            }
        }
    }
    if inside > frame.size || ph.p_filesz > frame.size - inside || ph.p_vaddr > u64::MAX - frame.size {
        let ghost f5 = *frames;
        give_back(&bufs, 0, pt, frames, Ghost(Seq::<UserMapping>::empty()), Ghost(before));
        proof {
            assert forall|a: u64| old(frames).used().contains(a)
                && !(exists|b: int| 0 <= b < old(bufs)@.len() && (#[trigger] old(bufs)@[b]).start == a)
                implies #[trigger] frames.used().contains(a) by {
                    assert(f5.used().contains(a));
                if !before.contains(a) {
                    assert forall|b: int| 0 <= b < bufs@.len() implies (#[trigger] bufs@[b]).start != a by {
                        if b < old(bufs)@.len() {
                            assert(bufs@[b] == old(bufs)@[b]);
                        }
                    }
                }
            }
        }
        return Err(Error::Proc(ProcError::BadImage));
    }
    let flags = segment_flags(ph.p_flags);
    let ghost pt2 = *pt;
    let ghost f2 = *frames;
    match map_pages(tid, ph.p_vaddr, frame, flags, pt, frames) {
        Ok(()) => {},
        Err(e) => {
            proof {
                lemma_pending_keep(bufs@, &pt2, &f2, pt, frames, before);
            }
            let ghost f5 = *frames;
            give_back(&bufs, 0, pt, frames, Ghost(Seq::<UserMapping>::empty()), Ghost(before));
        proof {
            assert forall|a: u64| old(frames).used().contains(a)
                && !(exists|b: int| 0 <= b < old(bufs)@.len() && (#[trigger] old(bufs)@[b]).start == a)
                implies #[trigger] frames.used().contains(a) by {
                    assert(f2.used().contains(a));
                    assert(f5.used().contains(a));
                if !before.contains(a) {
                    assert forall|b: int| 0 <= b < bufs@.len() implies (#[trigger] bufs@[b]).start != a by {
                        if b < old(bufs)@.len() {
                            assert(bufs@[b] == old(bufs)@[b]);
                        }
                    }
                }
            }
        }
            proof {
                assert forall|a: u64| #[trigger] pt.holds_page(a) implies old(pt).holds_page(a) || !old(frames).used().contains(a) by {
                    if !pt2.holds_page(a) && old(frames).used().contains(a) {
                        assert(f2.used().contains(a));
                    }
                }
            }
            return Err(Error::Mem(e));
        },
    }
    proof {
        lemma_pending_keep(bufs@, &pt2, &f2, pt, frames, before);
        assert forall|a: u64| before.contains(a) implies #[trigger] frames.used().contains(a) by {
            assert(f1.used().contains(a));
            assert(f2.used().contains(a));
        }
    }
    let len = if ph.p_memsz >= inside + ph.p_filesz { ph.p_memsz } else { inside + ph.p_filesz };
    let image = segment_image(buffer, ph, len);
    proof {
        lemma_floor(ph.p_vaddr);
        assert forall|a: u64| old(frames).used().contains(a) implies #[trigger] frames.used().contains(a) by {
            assert(f2.used().contains(a));
        }
        assert forall|a: u64| #[trigger] pt.holds_page(a) implies old(pt).holds_page(a) || !old(frames).used().contains(a) by {
            if !pt2.holds_page(a) && old(frames).used().contains(a) {
                assert(f2.used().contains(a));
            }
        }
    }
    Ok((UserMapping { va: VirtualAddr(ph.p_vaddr), frame, flags }, image))
}

/// What header `i` of `d`, `ph`, adds: its segment when it is loadable,
/// and the address of the program headers when its file range holds
/// them.
proof fn lemma_header_step(d: Seq<u8>, h: ElfHeader, i: int, ph: ProgramHeader)
    requires
        0 <= i,
        ph == phdr_at(d, h.e_phoff + i * PHDR_SIZE),
    ensures
        ph.p_type == PT_LOAD ==> loads(d, h, i + 1) == loads(d, h, i) + seq![ph],
        ph.p_type != PT_LOAD ==> loads(d, h, i + 1) == loads(d, h, i),
        phdr_va(d, h, i + 1) == (if ph.p_type == PT_LOAD && h.e_phoff >= ph.p_offset && h.e_phoff - ph.p_offset < ph.p_filesz {
            ((ph.p_vaddr + (h.e_phoff - ph.p_offset)) % 0x1_0000_0000_0000_0000) as u64
        } else {
            phdr_va(d, h, i)
        }),
{
    assert(loads(d, h, i + 1) == loads(d, h, i) + if ph.p_type == PT_LOAD { seq![ph] } else { Seq::<ProgramHeader>::empty() });
    if ph.p_type != PT_LOAD {
        assert(loads(d, h, i + 1) =~= loads(d, h, i));
    }
}

/// The address of the program headers after header `ph`: inside `ph`'s
/// segment when it is loadable and its file range holds them, else
/// `phdr`.
fn next_phdr(h: &ElfHeader, ph: &ProgramHeader, phdr: u64) -> (r: u64)
    ensures
        r == (if ph.p_type == PT_LOAD && h.e_phoff >= ph.p_offset && h.e_phoff - ph.p_offset < ph.p_filesz {
            ((ph.p_vaddr + (h.e_phoff - ph.p_offset)) % 0x1_0000_0000_0000_0000) as u64
        } else {
            phdr
        }),
{
    if ph.p_type == PT_LOAD && h.e_phoff >= ph.p_offset && h.e_phoff - ph.p_offset < ph.p_filesz {
        let off = h.e_phoff - ph.p_offset;
        if ph.p_vaddr <= u64::MAX - off { ph.p_vaddr + off } else { off - (u64::MAX - ph.p_vaddr) - 1 }
    } else {
        phdr
    }
}

/// The segments among the first `i` program headers of `d` were loaded as
/// `ms`, `ws` and `bs`: in order, one block each (see [`loaded_as`]).
#[verifier::opaque]
pub open spec fn segs_loaded(d: Seq<u8>, h: ElfHeader, i: int, ms: Seq<UserMapping>, ws: Seq<(u64, Vec<u8>)>,
    bs: Seq<Frame>) -> bool {
    &&& ms.len() == loads(d, h, i).len()
    &&& bs.len() == ms.len()
    &&& ws.len() == ms.len()
    &&& forall|k: int| 0 <= k < bs.len() ==> (#[trigger] ms[k]).frame == bs[k]
    &&& forall|k: int| 0 <= k < ms.len() ==> mapping_ok(#[trigger] ms[k])
    &&& loaded_as(d, loads(d, h, i), ms, ws)
    &&& forall|k: int| 0 <= k < loads(d, h, i).len() ==> {
        let p = #[trigger] loads(d, h, i)[k];
        p.p_align != 0 && p.p_offset + p.p_filesz <= d.len()
    }
}

/// Nothing is loaded before the first header.
proof fn lemma_segs_start(d: Seq<u8>, h: ElfHeader)
    ensures
        segs_loaded(d, h, 0, Seq::empty(), Seq::empty(), Seq::empty()),
{
    reveal(segs_loaded);
}

/// A header that is not loadable changes nothing.
proof fn lemma_segs_skip(d: Seq<u8>, h: ElfHeader, i: int, ms: Seq<UserMapping>, ws: Seq<(u64, Vec<u8>)>, bs: Seq<Frame>)
    requires
        0 <= i,
        loads(d, h, i + 1) == loads(d, h, i),
        segs_loaded(d, h, i, ms, ws, bs),
    ensures
        segs_loaded(d, h, i + 1, ms, ws, bs),
{
    reveal(segs_loaded);
}

/// Header `i`, a loadable segment `ph`, loaded as mapping `m` with store
/// `wi` on block `m.frame`.
proof fn lemma_segs_push(d: Seq<u8>, h: ElfHeader, i: int, ph: ProgramHeader, m0: Seq<UserMapping>,
    w0: Seq<(u64, Vec<u8>)>, b0: Seq<Frame>, m: UserMapping, wi: (u64, Vec<u8>))
    requires
        0 <= i,
        loads(d, h, i + 1) == loads(d, h, i) + seq![ph],
        ph.p_align != 0,
        ph.p_offset + ph.p_filesz <= d.len(),
        segs_loaded(d, h, i, m0, w0, b0),
        wi.0 == m.frame.start,
        m.va.0 == ph.p_vaddr,
        seg_flags(m.flags, ph.p_flags),
        spec_block_size(ph.p_memsz as nat, m.frame.size as nat),
        mapping_ok(m),
        wi.1@ == seg_image(d, ph),
    ensures
        segs_loaded(d, h, i + 1, m0.push(m), w0.push(wi), b0.push(m.frame)),
{
    reveal(segs_loaded);
    let ls = loads(d, h, i + 1);
    let ms = m0.push(m);
    let ws = w0.push(wi);
    let bs = b0.push(m.frame);
    let n = m0.len();
    assert(ls[n as int] == ph);
    assert forall|k: int| 0 <= k < n implies ms[k] == m0[k] && ws[k] == w0[k] && ls[k] == loads(d, h, i)[k] by {}
    assert forall|k: int| 0 <= k < bs.len() implies (#[trigger] ms[k]).frame == bs[k] by {
        if k < n {
            assert(bs[k] == b0[k]);
        }
    }
    assert forall|k: int| 0 <= k < ms.len() implies mapping_ok(#[trigger] ms[k]) by {}
    assert forall|k: int| 0 <= k < ls.len() implies {
        let p = #[trigger] ls[k];
        p.p_align != 0 && p.p_offset + p.p_filesz <= d.len()
    } by {
        if k < n {
            assert(ls[k] == loads(d, h, i)[k]);
        }
    }
    assert forall|k: int| 0 <= k < ls.len() implies {
        let mm = #[trigger] ms[k];
        &&& mm.va.0 == ls[k].p_vaddr
        &&& seg_flags(mm.flags, ls[k].p_flags)
        &&& spec_block_size(ls[k].p_memsz as nat, mm.frame.size as nat)
        &&& ws[k].0 == mm.frame.start
        &&& ws[k].1@ == seg_image(d, ls[k])
    } by {
        if k < n {
            assert(ls[k] == loads(d, h, i)[k]);
        }
    }
}

/// The mappings of loaded segments whose blocks are pending are well
/// formed.
proof fn lemma_segs_wf(d: Seq<u8>, h: ElfHeader, i: int, ms: Seq<UserMapping>, ws: Seq<(u64, Vec<u8>)>, bs: Seq<Frame>,
    pt: &PageTableManager, frames: &FrameAllocator, before: Set<u64>)
    requires
        segs_loaded(d, h, i, ms, ws, bs),
        pending_ok(bs, 0, pt, frames, before),
    ensures
        ms_wf(ms, pt, frames),
        ms.len() == loads(d, h, i).len(),
        bs.len() == ms.len(),
        ws.len() == ms.len(),
        forall|k: int| 0 <= k < bs.len() ==> (#[trigger] ms[k]).frame == bs[k],
        loaded_as(d, loads(d, h, i), ms, ws),
        forall|k: int| 0 <= k < loads(d, h, i).len() ==> {
            let p = #[trigger] loads(d, h, i)[k];
            p.p_align != 0 && p.p_offset + p.p_filesz <= d.len()
        },
{
    reveal(segs_loaded);
    assert forall|k: int| 0 <= k < ms.len() implies mapping_ok(#[trigger] ms[k])
        && frames.used().contains(ms[k].frame.start) && !pt.holds_page(ms[k].frame.start) by {
        assert(ms[k].frame == bs[k]);
    }
    assert forall|a: int, b: int| 0 <= a < b < ms.len() implies
        (#[trigger] ms[a]).frame.start != (#[trigger] ms[b]).frame.start by {
        assert(ms[a].frame == bs[a] && ms[b].frame == bs[b]);
    }
}

/// Maps each loadable segment of `buffer` on a fresh block at its address
/// in `tid`'s page table (see [`loaded_as`]); returns the mappings, the
/// stores of the segments' bytes, the blocks, and the address of the
/// program headers in the new program.  On a failure the blocks taken are
/// given back.
fn load_segments(buffer: &[u8], h: ElfHeader, tid: Tid, root: PhysicalAddr, pt: &mut PageTableManager,
    frames: &mut FrameAllocator) -> (r: Result<(Vec<UserMapping>, Vec<(u64, Vec<u8>)>, Vec<Frame>, u64), Error>)
    requires
        elf_ok(buffer@),
        h == header_of(buffer@),
        old(frames).wf(),
        old(pt).wf(old(frames)),
        space_at(old(pt), tid, root),
    ensures
        final(frames).wf(),
        final(pt).wf(final(frames)),
        match r {
            Ok((mappings, writes, bufs, phdr)) => {
                let d = buffer@;
                let ls = loads(d, h, h.e_phnum as int);
                &&& space_at(final(pt), tid, root)
                &&& phdr == phdr_va(d, h, h.e_phnum as int)
                &&& mappings@.len() == ls.len()
                &&& bufs@.len() == ls.len()
                &&& writes@.len() == ls.len()
                &&& forall|k: int| 0 <= k < bufs@.len() ==> (#[trigger] mappings@[k]).frame == bufs@[k]
                &&& loaded_as(d, ls, mappings@, writes@)
                &&& segments_ok(d, h)
                &&& ms_wf(mappings@, final(pt), final(frames))
                &&& pending_ok(bufs@, 0, final(pt), final(frames), old(frames).used())
                &&& forall|b: int| 0 <= b < bufs@.len() ==> (#[trigger] bufs@[b]).start % FRAME_SIZE == 0
            },
            Err(e) => e == Error::Proc(ProcError::BadImage) || e == Error::Mem(MemError::OutOfMemory)
                || e == Error::Mem(MemError::PageTableMissing) || e == Error::Mem(MemError::AddressSpaceNotFound),
        },
        forall|a: u64| old(frames).used().contains(a) ==> #[trigger] final(frames).used().contains(a),
        forall|a: u64| #[trigger] final(pt).holds_page(a) ==> old(pt).holds_page(a) || !old(frames).used().contains(a),
        spaces_kept(final(pt), old(pt), tid),
{
    let ghost before = frames.used();
    let ghost d = buffer@;
    let mut mappings: Vec<UserMapping> = Vec::new();
    let mut writes: Vec<(u64, Vec<u8>)> = Vec::new();
    let mut bufs: Vec<Frame> = Vec::new();
    let mut phdr: u64 = 0;
    let mut i: u16 = 0;
    proof {
        lemma_segs_start(d, h);
        assert(mappings@ =~= Seq::<UserMapping>::empty());
        assert(writes@ =~= Seq::<(u64, Vec<u8>)>::empty());
        assert(bufs@ =~= Seq::<Frame>::empty());
    }
    while i < h.e_phnum
        invariant
            d == buffer@,
            h == header_of(d),
            elf_ok(d),
            i <= h.e_phnum,
            i > 0 ==> h.e_phoff + i * PHDR_SIZE <= d.len(),
            forall|a: u64| before.contains(a) ==> #[trigger] frames.used().contains(a),
            forall|a: u64| #[trigger] pt.holds_page(a) ==> old(pt).holds_page(a) || !before.contains(a),
            forall|a: u64| old(frames).used().contains(a) ==> #[trigger] before.contains(a),
            spaces_kept(pt, old(pt), tid),
            frames.wf(),
            pt.wf(frames),
            space_at(pt, tid, root),
            phdr == phdr_va(d, h, i as int),
            segs_loaded(d, h, i as int, mappings@, writes@, bufs@),
            pending_ok(bufs@, 0, pt, frames, before),
            forall|b: int| 0 <= b < bufs@.len() ==> (#[trigger] bufs@[b]).start % FRAME_SIZE == 0,
        decreases h.e_phnum - i,
    {
        let ph = match program_header(buffer, &h, i) {
            Some(p) => p,
            None => {
                let ghost fm = *frames;
                give_back(&bufs, 0, pt, frames, Ghost(Seq::<UserMapping>::empty()), Ghost(before));
                proof {
                    assert forall|a: u64| old(frames).used().contains(a) implies #[trigger] frames.used().contains(a) by {
                        assert(before.contains(a));
                        assert(fm.used().contains(a));
                    }
                    assert forall|a: u64| #[trigger] pt.holds_page(a) implies old(pt).holds_page(a) || !old(frames).used().contains(a) by {
                        if old(frames).used().contains(a) {
                            assert(before.contains(a));
                        }
                    }
                }
                return Err(Error::Proc(ProcError::BadImage));
            },
        };
        proof {
            lemma_header_step(d, h, i as int, ph);
        }
        phdr = next_phdr(&h, &ph, phdr);
        if ph.p_type != PT_LOAD {
            proof {
                lemma_segs_skip(d, h, i as int, mappings@, writes@, bufs@);
            }
            i = i + 1;
            continue;
        }
        if ph.p_align == 0 || ph.p_offset > u64::MAX - ph.p_filesz || ph.p_offset + ph.p_filesz > buffer.len() as u64 {
            let ghost fm = *frames;
            give_back(&bufs, 0, pt, frames, Ghost(Seq::<UserMapping>::empty()), Ghost(before));
            proof {
                assert forall|a: u64| old(frames).used().contains(a) implies #[trigger] frames.used().contains(a) by {
                    assert(before.contains(a));
                    assert(fm.used().contains(a));
                }
                assert forall|a: u64| #[trigger] pt.holds_page(a) implies old(pt).holds_page(a) || !old(frames).used().contains(a) by {
                    if old(frames).used().contains(a) {
                        assert(before.contains(a));
                    }
                }
            }
            return Err(Error::Proc(ProcError::BadImage));
        }
        let ghost b0 = bufs@;
        let ghost m0 = mappings@;
        let ghost w0 = writes@;
        let ghost fm = *frames;
        let ghost ptm = *pt;
        let (m, image) = match load_one(buffer, &ph, tid, root, &mut bufs, pt, frames, Ghost(before)) {
            Ok(x) => x,
            Err(e) => {
                proof {
                    lemma_spaces_kept(pt, &ptm, old(pt), tid);
                    assert forall|a: u64| old(frames).used().contains(a) implies #[trigger] frames.used().contains(a) by {
                        assert(before.contains(a));
                        assert(fm.used().contains(a));
                        assert forall|c: int| 0 <= c < b0.len() implies (#[trigger] b0[c]).start != a by {
                            assert(!before.contains(b0[c].start));
                        }
                    }
                    assert forall|a: u64| #[trigger] pt.holds_page(a) implies old(pt).holds_page(a) || !old(frames).used().contains(a) by {
                        if old(frames).used().contains(a) {
                            assert(before.contains(a));
                            assert(fm.used().contains(a));
                            assert(ptm.holds_page(a));
                        }
                    }
                }
                return Err(e);
            },
        };
        let ghost mg = m;
        let wi = (m.frame.start, image);
        let ghost wg = wi;
        mappings.push(m);
        writes.push(wi);
        proof {
            lemma_segs_push(d, h, i as int, ph, m0, w0, b0, mg, wg);
            lemma_spaces_kept(pt, &ptm, old(pt), tid);
            assert forall|a: u64| #[trigger] pt.holds_page(a) implies old(pt).holds_page(a) || !before.contains(a) by {
                if before.contains(a) {
                    assert(fm.used().contains(a));
                    assert(ptm.holds_page(a));
                }
            }
        }
        i = i + 1;
    }
    proof {
        lemma_segs_wf(d, h, h.e_phnum as int, mappings@, writes@, bufs@, pt, frames, before);
        assert(segments_ok(d, h));
    }
    Ok((mappings, writes, bufs, phdr))
}

/// Takes a block for the user stack and maps it at
/// [`USER_STACK_LOWER_BOUND`] with the stack's flags; the block is appended
/// to `bufs`.  On a failure every block of `bufs` is given back.
fn map_user_stack(tid: Tid, root: PhysicalAddr, bufs: &mut Vec<Frame>, pt: &mut PageTableManager,
    frames: &mut FrameAllocator, Ghost(before): Ghost<Set<u64>>) -> (r: Result<(Frame, PageTableEntryFlags), Error>)
    requires
        old(frames).wf(),
        old(pt).wf(old(frames)),
        space_at(old(pt), tid, root),
        pending_ok(old(bufs)@, 0, old(pt), old(frames), before),
        forall|b: int| 0 <= b < old(bufs)@.len() ==> (#[trigger] old(bufs)@[b]).start % FRAME_SIZE == 0,
        forall|a: u64| before.contains(a) ==> #[trigger] old(frames).used().contains(a),
    ensures
        final(frames).wf(),
        final(pt).wf(final(frames)),
        match r {
            Ok((stack, flags)) => {
                &&& final(bufs)@ == old(bufs)@.push(stack)
                &&& space_at(final(pt), tid, root)
                &&& pending_ok(final(bufs)@, 0, final(pt), final(frames), before)
                &&& forall|b: int| 0 <= b < final(bufs)@.len() ==> (#[trigger] final(bufs)@[b]).start % FRAME_SIZE == 0
                &&& forall|a: u64| old(frames).used().contains(a) ==> #[trigger] final(frames).used().contains(a)
                &&& stack_flags(flags)
                &&& spec_block_size(USER_STACK_SIZE as nat, stack.size as nat)
                &&& mapping_ok((UserMapping { va: VirtualAddr(USER_STACK_LOWER_BOUND), frame: stack, flags }))
                &&& stack.size % 16 == 0
            },
            Err(e) => e == Error::Mem(MemError::OutOfMemory) || e == Error::Mem(MemError::PageTableMissing)
                || e == Error::Mem(MemError::AddressSpaceNotFound),
        },
        forall|a: u64| old(frames).used().contains(a) && !(exists|b: int| 0 <= b < old(bufs)@.len() && (#[trigger] old(bufs)@[b]).start == a)
            ==> #[trigger] final(frames).used().contains(a),
        forall|a: u64| #[trigger] final(pt).holds_page(a) ==> old(pt).holds_page(a) || !old(frames).used().contains(a),
        spaces_kept(final(pt), old(pt), tid),
{
    let ghost f3 = *frames;
    let stack = match alloc_frame(Some(USER_STACK_SIZE), frames) {
        Some(f) => f,
        None => {
            proof {
                assert forall|a: u64| #[trigger] pt.holds_page(a) implies frames.used().contains(a) by {
                    pt.lemma_holds_used(&f3, a);
                }
                pt.lemma_wf_keep(&f3, frames);
            }
            give_back(&bufs, 0, pt, frames, Ghost(Seq::<UserMapping>::empty()), Ghost(before));
            return Err(Error::Mem(MemError::OutOfMemory));
        },
    };
    proof {
        assert(!pt.holds_page(stack.start)) by {
            if pt.holds_page(stack.start) {
                pt.lemma_holds_used(&f3, stack.start);
            }
        }
        assert forall|a: u64| #[trigger] pt.holds_page(a) implies frames.used().contains(a) by {
            pt.lemma_holds_used(&f3, a);
        }
        pt.lemma_wf_keep(&f3, frames);
        vstd::arithmetic::div_mod::lemma_mod_equivalence(stack.start as int, 0, 4096);
    }
    let ghost b0 = bufs@;
    bufs.push(stack);
    proof {
        assert forall|b: int| 0 <= b < bufs@.len() implies frames.used().contains(#[trigger] bufs@[b].start)
            && !pt.holds_page(bufs@[b].start) && !before.contains(bufs@[b].start) by {
            if b < b0.len() {
                assert(bufs@[b] == b0[b]);
                assert(f3.used().contains(b0[b].start));
            }
        }
        assert forall|b: int, c: int| 0 <= b < c < bufs@.len() implies (#[trigger] bufs@[b]).start != (#[trigger] bufs@[c]).start by {
            if c == b0.len() {
                assert(f3.used().contains(b0[b].start));
            } else {
                assert(bufs@[b] == b0[b] && bufs@[c] == b0[c]);
            }
        }
        assert forall|b: int| 0 <= b < bufs@.len() implies (#[trigger] bufs@[b]).start % FRAME_SIZE == 0 by {
            if b < b0.len() {
                assert(bufs@[b] == b0[b]);
            }
        }
    }
    let sflags = user_stack_flags();
    let ghost pt4 = *pt;
    let ghost f4 = *frames;
    match map_pages(tid, USER_STACK_LOWER_BOUND, stack, sflags, pt, frames) {
        Ok(()) => {},
        Err(e) => {
            proof {
                lemma_pending_keep(bufs@, &pt4, &f4, pt, frames, before);
            }
            let ghost f5 = *frames;
            give_back(&bufs, 0, pt, frames, Ghost(Seq::<UserMapping>::empty()), Ghost(before));
            proof {
                assert forall|a: u64| old(frames).used().contains(a)
                    && !(exists|b: int| 0 <= b < old(bufs)@.len() && (#[trigger] old(bufs)@[b]).start == a)
                    implies #[trigger] frames.used().contains(a) by {
                    assert(f3.used().contains(a));
                    assert(f4.used().contains(a));
                    assert(f5.used().contains(a));
                    if !before.contains(a) {
                        assert forall|b: int| 0 <= b < bufs@.len() implies (#[trigger] bufs@[b]).start != a by {
                            if b < b0.len() {
                                assert(bufs@[b] == b0[b]);
                            }
                        }
                    }
                }
            }
            return Err(Error::Mem(e));
        },
    }
    proof {
        lemma_pending_keep(bufs@, &pt4, &f4, pt, frames, before);
    }
    proof {
        lemma_floor(USER_STACK_LOWER_BOUND);
        assert forall|a: u64| old(frames).used().contains(a) implies #[trigger] frames.used().contains(a) by {
            assert(f3.used().contains(a));
            assert(f4.used().contains(a));
        }
    }
    Ok((stack, sflags))
}

/// Creating `tid`'s address space (`pt0`, `f0` to `pc`, `fc`) and then
/// loading into it (to `pt1`, `f1`) keeps every frame in use that no
/// table held, takes for tables only frames that were free or tables, and
/// keeps the spaces of other tasks.
proof fn lemma_load_keep(pt0: &PageTableManager, f0: &FrameAllocator, pc: &PageTableManager, fc: &FrameAllocator,
    pt1: &PageTableManager, f1: &FrameAllocator, tid: Tid)
    requires
        forall|a: u64| #[trigger] pc.holds_page(a) ==> pt0.holds_page(a) || !f0.used().contains(a),
        forall|a: u64| #[trigger] f0.used().contains(a) && !pt0.holds_page(a) ==> fc.used().contains(a),
        spaces_kept(pc, pt0, tid),
        forall|a: u64| fc.used().contains(a) ==> #[trigger] f1.used().contains(a),
        forall|a: u64| #[trigger] pt1.holds_page(a) ==> pc.holds_page(a) || !fc.used().contains(a),
        spaces_kept(pt1, pc, tid),
    ensures
        forall|a: u64| #[trigger] f0.used().contains(a) && !pt0.holds_page(a) ==> f1.used().contains(a),
        forall|a: u64| #[trigger] pt1.holds_page(a) ==> pt0.holds_page(a) || !f0.used().contains(a),
        spaces_kept(pt1, pt0, tid),
{
    assert forall|a: u64| #[trigger] f0.used().contains(a) && !pt0.holds_page(a) implies f1.used().contains(a) by {
        assert(fc.used().contains(a));
    }
    assert forall|a: u64| #[trigger] pt1.holds_page(a) implies pt0.holds_page(a) || !f0.used().contains(a) by {
        if pc.holds_page(a) {
        } else if f0.used().contains(a) && !pt0.holds_page(a) {
            assert(fc.used().contains(a));
        }
    }
    lemma_spaces_kept(pt1, pc, pt0, tid);
}

/// Loads the ELF image `buffer` as the program of task `tid` with
/// arguments `argv` and environment `envp`: a new user address space;
/// each loadable segment on a fresh block mapped at its address with its
/// permissions; a user stack mapped at [`USER_STACK_LOWER_BOUND`] holding
/// the initial stack; entry registers with `sp` at the initial stack and
/// `sstatus` from `sstatus` with user mode and interrupts on return.
/// On a failure the blocks taken are given back.
pub fn load_elf(
    buffer: &[u8],
    argv: &Vec<Vec<u8>>,
    envp: &Vec<Vec<u8>>,
    tid: Tid,
    sstatus: u64,
    pt: &mut PageTableManager,
    frames: &mut FrameAllocator,
) -> (r: Result<Load, Error>)
    requires
        old(pt).wf(old(frames)),
        old(frames).wf(),
    ensures
        final(frames).wf(),
        final(pt).wf(final(frames)),
        !elf_ok(buffer@) ==> r == Err::<Load, Error>(Error::Proc(ProcError::BadImage)),
        match r {
            Ok(load) => loaded(buffer@, argv@, envp@, tid, sstatus, load.memory_set, load.trap_context, load.writes@,
                final(pt), final(frames)),
            Err(e) => e == Error::Proc(ProcError::BadImage) || e == Error::Proc(ProcError::ArgsTooLong)
                || e == Error::Mem(MemError::OutOfMemory) || e == Error::Mem(MemError::PageTableMissing)
                || e == Error::Mem(MemError::AddressSpaceNotFound),
        },
        forall|a: u64| #[trigger] old(frames).used().contains(a) && !old(pt).holds_page(a) ==> final(frames).used().contains(a),
        forall|a: u64| #[trigger] final(pt).holds_page(a) ==> old(pt).holds_page(a) || !old(frames).used().contains(a),
        spaces_kept(final(pt), old(pt), tid),
        r matches Ok(load) ==> forall|k: int| 0 <= k < load.memory_set.mappings@.len() ==>
            !(old(frames).used().contains(#[trigger] load.memory_set.mappings@[k].frame.start)
            && !old(pt).holds_page(load.memory_set.mappings@[k].frame.start)),
{
    let h = match parse_header(buffer) {
        Some(h) => h,
        None => return Err(Error::Proc(ProcError::BadImage)),
    };
    match pt.create_user_address_space(tid, frames) {
        Ok(()) => {},
        Err(e) => return Err(Error::Mem(e)),
    }
    proof {
        pt.lemma_wf_ids(frames);
        assert(spaces_kept(pt, old(pt), tid));
    }
    let ghost pc = *pt;
    let ghost fc = *frames;
    let root = match pt.user_root_addr(tid) {
        Ok(a) => a,
        Err(e) => return Err(Error::Mem(e)),
    };
    let ghost before = frames.used();
    let ghost d = buffer@;
    let (mut mappings, mut writes, mut bufs, phdr) = match load_segments(buffer, h, tid, root, pt, frames) {
        Ok(x) => x,
        Err(e) => {
            proof {
                lemma_load_keep(old(pt), old(frames), &pc, &fc, pt, frames, tid);
            }
            return Err(e);
        },
    };
    let ghost ps = *pt;
    let ghost fs = *frames;
    let ghost bs = bufs@;
    let (stack, sflags) = match map_user_stack(tid, root, &mut bufs, pt, frames, Ghost(before)) {
        Ok(x) => x,
        Err(e) => {
            proof {
                assert forall|a: u64| fc.used().contains(a) implies #[trigger] frames.used().contains(a) by {
                    assert(fs.used().contains(a));
                    assert forall|c: int| 0 <= c < bs.len() implies (#[trigger] bs[c]).start != a by {
                        assert(!before.contains(bs[c].start));
                    }
                }
                lemma_spaces_kept(pt, &ps, &pc, tid);
                lemma_load_keep(old(pt), old(frames), &pc, &fc, pt, frames, tid);
            }
            return Err(e);
        },
    };
    let ghost b0 = bufs@.drop_last();
    let auxv = vec![(AT_PHDR, phdr), (AT_PHENT, h.e_phentsize as u64), (AT_PHNUM, h.e_phnum as u64), (AT_PAGESZ, 4096u64),
        (AT_ENTRY, h.e_entry), (AT_NULL, 0u64)];
    proof {
        assert(auxv@ =~= auxv_of(h, phdr_va(d, h, h.e_phnum as int)));
        assert(stack.size % 16 == 0);
    }
    let (sp, img) = match build_initial_stack(argv, envp, &auxv, USER_STACK_LOWER_BOUND, stack.size) {
        Ok(x) => x,
        Err(e) => {
            let ghost fb = *frames;
            give_back(&bufs, 0, pt, frames, Ghost(Seq::<UserMapping>::empty()), Ghost(before));
            proof {
                assert forall|a: u64| fc.used().contains(a) implies #[trigger] frames.used().contains(a) by {
                    assert(fs.used().contains(a));
                    assert(fb.used().contains(a));
                }
                lemma_spaces_kept(pt, &ps, &pc, tid);
                lemma_load_keep(old(pt), old(frames), &pc, &fc, pt, frames, tid);
            }
            return Err(e);
        },
    };
    let ghost m0 = mappings@;
    let ghost w0 = writes@;
    mappings.push(UserMapping { va: VirtualAddr(USER_STACK_LOWER_BOUND), frame: stack, flags: sflags });
    writes.push((stack.start + (sp - USER_STACK_LOWER_BOUND), img));
    let satp = satp_value(root);
    let mut context: [u64; 32] = [0u64; 32];
    context[2] = sp;
    let trap_context = TrapContext { context, satp, sepc: h.e_entry, sstatus: (sstatus & !0x100u64) | 0x20u64 };
    let load = Load { memory_set: MemorySet { mappings, user_root_page_table: root }, trap_context, writes };
    proof {
        lemma_floor(USER_STACK_LOWER_BOUND);
        let m = load.memory_set.mappings@;
        let ls = loads(d, h, h.e_phnum as int);
        assert(m.len() == ls.len() + 1);
        assert forall|k: int| 0 <= k < m.len() implies mapping_ok(#[trigger] m[k])
            && frames.used().contains(m[k].frame.start) && !pt.holds_page(m[k].frame.start) by {
            if k < m0.len() {
                assert(m[k] == m0[k]);
                assert(m0[k].frame == b0[k]);
                assert(bufs@[k] == b0[k]);
            } else {
                assert(bufs@[b0.len() as int] == stack);
                assert(m[k].frame == stack);
                assert(frames.used().contains(stack.start));
                assert(!pt.holds_page(stack.start));
                assert(stack.size % 4096 == 0);
                assert(stack.start % 4096 == 0);
                assert(page_floor(m[k].va.0) + m[k].frame.size <= u64::MAX);
                assert(mapping_ok(m[k]));
            }
        }
        assert forall|a: int, b: int| 0 <= a < b < m.len() implies
            (#[trigger] m[a]).frame.start != (#[trigger] m[b]).frame.start by {
            if b < m0.len() {
                assert(m[a] == m0[a] && m[b] == m0[b]);
                assert(m0[a].frame == b0[a] && m0[b].frame == b0[b]);
            } else {
                assert(m[a] == m0[a]);
                assert(m0[a].frame == b0[a]);
                assert(bufs@[a] == b0[a]);
                assert(m[b].frame == stack);
                assert(bufs@[b0.len() as int] == stack);
            }
        }
        assert(loaded_as(d, ls, m, load.writes@)) by {
            assert forall|k: int| 0 <= k < ls.len() implies {
                let mm = #[trigger] m[k];
                &&& mm.va.0 == ls[k].p_vaddr
                &&& seg_flags(mm.flags, ls[k].p_flags)
                &&& spec_block_size(ls[k].p_memsz as nat, mm.frame.size as nat)
                &&& load.writes@[k].0 == mm.frame.start
                &&& load.writes@[k].1@ == seg_image(d, ls[k])
            } by {
                assert(m[k] == m0[k]);
                assert(load.writes@[k] == w0[k]);
            }
        }
        assert(load.trap_context.context@ =~= Seq::new(32, |i: int| if i == 2 { sp as u64 } else { 0u64 }));
    }
    proof {
        assert forall|a: u64| fc.used().contains(a) implies #[trigger] frames.used().contains(a) by {
            assert(fs.used().contains(a));
        }
        lemma_spaces_kept(pt, &ps, &pc, tid);
        lemma_load_keep(old(pt), old(frames), &pc, &fc, pt, frames, tid);
    }
    proof {
        let m = load.memory_set.mappings@;
        assert forall|k: int| 0 <= k < m.len() implies
            !(old(frames).used().contains(#[trigger] m[k].frame.start) && !old(pt).holds_page(m[k].frame.start)) by {
            if k < m0.len() {
                assert(m[k] == m0[k]);
                assert(m0[k].frame == b0[k]);
                assert(bufs@[k] == b0[k]);
            } else {
                assert(bufs@[b0.len() as int] == stack);
            }
            assert(!before.contains(bufs@[k].start));
        }
    }
    Ok(load)
}


/// `s1` is the task table `s0` with task `t` registered as a child of
/// task 1 (see [`Tasks::add`]): every other task keeps its entry, task 1
/// gains `t` as its last child.
pub open spec fn added_under_init(s0: Seq<(Tid, TaskControlBlock)>, s1: Seq<(Tid, TaskControlBlock)>, t: Tid) -> bool {
    &&& forall|u: Tid| #[trigger] has_tid(s1, u) == (has_tid(s0, u) || u == t)
    &&& forall|u: Tid| u != t && has_tid(s0, u) ==> {
        let a = tcb_of(s0, u);
        let b = #[trigger] tcb_of(s1, u);
        &&& b.children@ == (if u == Tid(1) { a.children@.push(t) } else { a.children@ })
        &&& b.parent == a.parent && b.status == a.status && b.exit_code == a.exit_code
        &&& b.priority == a.priority && b.trap_context == a.trap_context
        &&& b.memory_set.mappings@ == a.memory_set.mappings@
        &&& b.memory_set.user_root_page_table == a.memory_set.user_root_page_table
    }
}

/// A task just made from an image: no parent, no children, running, exit
/// code 0, priority `priority`.
pub open spec fn fresh_task(e: TaskControlBlock, priority: i8) -> bool {
    &&& e.parent == None::<Tid>
    &&& e.children@.len() == 0
    &&& e.status == TaskStatus::Running
    &&& e.exit_code == 0
    &&& e.priority == priority
}

/// What a call that takes a task id and then fails leaves in `ids`: no
/// id was free, or the id taken stays taken.
pub open spec fn id_after_failure(u0: Set<usize>, u1: Set<usize>, e: Error) -> bool {
    &&& (e == Error::NoTidAvailable) == (forall|t: usize| 1 <= t < TID_MAX ==> #[trigger] u0.contains(t))
    &&& e == Error::NoTidAvailable ==> u1 == u0
    &&& e != Error::NoTidAvailable ==> exists|t: usize| 1 <= t < TID_MAX && !u0.contains(t) && u1 == #[trigger] u0.insert(t)
}

/// Registers `tcb` as task `tid`, a child of task 1.
fn register(tasks: &mut Tasks, tid: Tid, tcb: TaskControlBlock)
    requires
        tids_sorted(old(tasks).entries()),
    ensures
        tids_sorted(final(tasks).entries()),
        added_under_init(old(tasks).entries(), final(tasks).entries(), tid),
        tcb_of(final(tasks).entries(), tid) == tcb,
{
    tasks.add(tid, None, tcb);
}

/// Loads the ELF image `buffer` as a new task with a fresh id, a child of
/// task 1, with arguments `argv` and environment `envp` (see
/// [`load_elf`]); returns its id and the stores that fill its memory.
/// The id stays taken when the image cannot be loaded.
pub fn exec_buffer(
    buffer: &[u8],
    argv: &Vec<Vec<u8>>,
    envp: &Vec<Vec<u8>>,
    sstatus: u64,
    tasks: &mut Tasks,
    ids: &mut TidAllocator,
    pt: &mut PageTableManager,
    frames: &mut FrameAllocator,
) -> (r: Result<(Tid, Vec<(u64, Vec<u8>)>), Error>)
    requires
        tids_sorted(old(tasks).entries()),
        old(pt).wf(old(frames)),
        old(frames).wf(),
        old(ids).wf(),
    ensures
        tids_sorted(final(tasks).entries()),
        final(frames).wf(),
        final(pt).wf(final(frames)),
        final(ids).wf(),
        match r {
            Ok((t, w)) => {
                let e = tcb_of(final(tasks).entries(), t);
                &&& 1 <= t.0 < TID_MAX
                &&& !old(ids).used().contains(t.0)
                &&& final(ids).used() == old(ids).used().insert(t.0)
                &&& added_under_init(old(tasks).entries(), final(tasks).entries(), t)
                &&& fresh_task(e, 0)
                &&& loaded(buffer@, argv@, envp@, t, sstatus, e.memory_set, e.trap_context, w@, final(pt), final(frames))
            },
            Err(e) => {
                &&& final(tasks).entries() == old(tasks).entries()
                &&& id_after_failure(old(ids).used(), final(ids).used(), e)
                &&& (e != Error::NoTidAvailable && !elf_ok(buffer@) ==> e == Error::Proc(ProcError::BadImage))
            },
        },
{
    let tid = match ids.allocate() {
        Some(t) => t,
        None => return Err(Error::NoTidAvailable),
    };
    let load = match load_elf(buffer, argv, envp, tid, sstatus, pt, frames) {
        Ok(l) => l,
        Err(e) => {
            proof {
                assert(ids.used() == old(ids).used().insert(tid.0));
            }
            return Err(e);
        },
    };
    let Load { memory_set, trap_context, writes } = load;
    let tcb = TaskControlBlock {
        parent: None,
        children: Vec::new(),
        status: TaskStatus::Running,
        memory_set,
        trap_context,
        exit_code: 0,
        priority: 0,
        fd_table: std_fds(),
    };
    register(tasks, tid, tcb);
    Ok((tid, writes))
}

/// `ms`, `tc` and the stores `w` are what [`spawn_buffer`] makes of the
/// image `d` for `tid`: the segment mappings (see [`loaded_as`]), then an
/// empty user stack at [`USER_STACK_LOWER_BOUND`]; the entry registers
/// start at `e_entry` with `sp` at [`USER_STACK_TOP`].
pub open spec fn spawned(d: Seq<u8>, tid: Tid, sstatus: u64, ms: MemorySet, tc: TrapContext, w: Seq<(u64, Vec<u8>)>,
    pt: &PageTableManager, frames: &FrameAllocator) -> bool {
    let h = header_of(d);
    let ls = loads(d, h, h.e_phnum as int);
    let m = ms.mappings@;
    let st = m[ls.len() as int];
    &&& elf_ok(d)
    &&& segments_ok(d, h)
    &&& pt.has_space(tid)
    &&& ms.user_root_page_table.0 == pt.user_space(tid).root_addr()
    &&& ms_wf(m, pt, frames)
    &&& m.len() == ls.len() + 1
    &&& w.len() == ls.len()
    &&& loaded_as(d, ls, m, w)
    &&& st.va.0 == USER_STACK_LOWER_BOUND
    &&& stack_flags(st.flags)
    &&& spec_block_size(USER_STACK_SIZE as nat, st.frame.size as nat)
    &&& tc.sepc == h.e_entry
    &&& tc.satp == spec_satp(ms.user_root_page_table.0)
    &&& tc.sstatus == user_sstatus(sstatus)
    &&& tc.context@ == Seq::new(32, |i: int| if i == 2 { USER_STACK_TOP } else { 0u64 })
}

/// Starts the ELF image `buffer` as a new task with a fresh id, a child of
/// task 1, with priority `priority` (0 when `None`): each loadable segment
/// on a fresh block mapped at its address, an empty user stack, entry
/// registers with `sp` at [`USER_STACK_TOP`].  Returns the id and the
/// stores of the segments' bytes.  The id stays taken when the image
/// cannot be loaded.
pub fn spawn_buffer(
    buffer: &[u8],
    priority: Option<i8>,
    sstatus: u64,
    tasks: &mut Tasks,
    ids: &mut TidAllocator,
    pt: &mut PageTableManager,
    frames: &mut FrameAllocator,
) -> (r: Result<(Tid, Vec<(u64, Vec<u8>)>), Error>)
    requires
        tids_sorted(old(tasks).entries()),
        old(pt).wf(old(frames)),
        old(frames).wf(),
        old(ids).wf(),
    ensures
        tids_sorted(final(tasks).entries()),
        final(frames).wf(),
        final(pt).wf(final(frames)),
        final(ids).wf(),
        !elf_ok(buffer@) ==> r == Err::<(Tid, Vec<(u64, Vec<u8>)>), Error>(Error::Proc(ProcError::BadImage))
            && final(ids).used() == old(ids).used(),
        match r {
            Ok((t, w)) => {
                let e = tcb_of(final(tasks).entries(), t);
                &&& 1 <= t.0 < TID_MAX
                &&& !old(ids).used().contains(t.0)
                &&& final(ids).used() == old(ids).used().insert(t.0)
                &&& added_under_init(old(tasks).entries(), final(tasks).entries(), t)
                &&& fresh_task(e, match priority { Some(p) => p, None => 0i8 })
                &&& spawned(buffer@, t, sstatus, e.memory_set, e.trap_context, w@, final(pt), final(frames))
            },
            Err(e) => {
                &&& final(tasks).entries() == old(tasks).entries()
                &&& (elf_ok(buffer@) ==> id_after_failure(old(ids).used(), final(ids).used(), e))
            },
        },
{
    let h = match parse_header(buffer) {
        Some(h) => h,
        None => return Err(Error::Proc(ProcError::BadImage)),
    };
    let tid = match ids.allocate() {
        Some(t) => t,
        None => return Err(Error::NoTidAvailable),
    };
    proof {
        assert(ids.used() == old(ids).used().insert(tid.0));
    }
    match pt.create_user_address_space(tid, frames) {
        Ok(()) => {},
        Err(e) => return Err(Error::Mem(e)),
    }
    proof {
        pt.lemma_wf_ids(frames);
    }
    let root = match pt.user_root_addr(tid) {
        Ok(a) => a,
        Err(e) => return Err(Error::Mem(e)),
    };
    let ghost before = frames.used();
    let ghost d = buffer@;
    let (mut mappings, writes, mut bufs, _phdr) = match load_segments(buffer, h, tid, root, pt, frames) {
        Ok(x) => x,
        Err(e) => return Err(e),
    };
    let (stack, sflags) = match map_user_stack(tid, root, &mut bufs, pt, frames, Ghost(before)) {
        Ok(x) => x,
        Err(e) => return Err(e),
    };
    let ghost b0 = bufs@.drop_last();
    let ghost m0 = mappings@;
    mappings.push(UserMapping { va: VirtualAddr(USER_STACK_LOWER_BOUND), frame: stack, flags: sflags });
    let satp = satp_value(root);
    let mut context: [u64; 32] = [0u64; 32];
    context[2] = USER_STACK_TOP;
    let trap_context = TrapContext { context, satp, sepc: h.e_entry, sstatus: (sstatus & !0x100u64) | 0x20u64 };
    let memory_set = MemorySet { mappings, user_root_page_table: root };
    proof {
        let m = memory_set.mappings@;
        let ls = loads(d, h, h.e_phnum as int);
        assert forall|k: int| 0 <= k < m.len() implies mapping_ok(#[trigger] m[k])
            && frames.used().contains(m[k].frame.start) && !pt.holds_page(m[k].frame.start) by {
            if k < m0.len() {
                assert(m[k] == m0[k]);
                assert(m0[k].frame == b0[k]);
                assert(bufs@[k] == b0[k]);
            } else {
                assert(bufs@[b0.len() as int] == stack);
                assert(m[k].frame == stack);
            }
        }
        assert forall|a: int, b: int| 0 <= a < b < m.len() implies
            (#[trigger] m[a]).frame.start != (#[trigger] m[b]).frame.start by {
            if b < m0.len() {
                assert(m[a] == m0[a] && m[b] == m0[b]);
                assert(m0[a].frame == b0[a] && m0[b].frame == b0[b]);
                assert(bufs@[a] == b0[a] && bufs@[b] == b0[b]);
            } else {
                assert(m[a] == m0[a]);
                assert(m0[a].frame == b0[a]);
                assert(bufs@[a] == b0[a]);
                assert(m[b].frame == stack);
                assert(bufs@[b0.len() as int] == stack);
            }
        }
        assert(loaded_as(d, ls, m, writes@)) by {
            assert forall|k: int| 0 <= k < ls.len() implies {
                let mm = #[trigger] m[k];
                &&& mm.va.0 == ls[k].p_vaddr
                &&& seg_flags(mm.flags, ls[k].p_flags)
                &&& spec_block_size(ls[k].p_memsz as nat, mm.frame.size as nat)
                &&& writes@[k].0 == mm.frame.start
                &&& writes@[k].1@ == seg_image(d, ls[k])
            } by {
                assert(m[k] == m0[k]);
            }
        }
        assert(trap_context.context@ =~= Seq::new(32, |i: int| if i == 2 { USER_STACK_TOP } else { 0u64 }));
    }
    let tcb = TaskControlBlock {
        parent: None,
        children: Vec::new(),
        status: TaskStatus::Running,
        memory_set,
        trap_context,
        exit_code: 0,
        priority: match priority {
            Some(p) => p,
            None => 0,
        },
        fd_table: std_fds(),
    };
    register(tasks, tid, tcb);
    Ok((tid, writes))
}


/// `b` is task `a` after it took up a new program with memory `ms` and
/// registers `tc`: running, everything else kept.
pub open spec fn exec_updated(a: TaskControlBlock, b: TaskControlBlock, ms: MemorySet, tc: TrapContext) -> bool {
    &&& b.status == TaskStatus::Running
    &&& b.memory_set.mappings@ == ms.mappings@
    &&& b.memory_set.user_root_page_table == ms.user_root_page_table
    &&& b.trap_context == tc
    &&& b.parent == a.parent
    &&& b.children@ == a.children@
    &&& b.exit_code == a.exit_code
    &&& b.priority == a.priority
}

/// Gives back the blocks of the mappings `ms`.
fn release_mappings(ms: &Vec<UserMapping>, pt: &PageTableManager, frames: &mut FrameAllocator)
    requires
        old(frames).wf(),
        pt.wf(old(frames)),
        ms_wf(ms@, pt, old(frames)),
    ensures
        final(frames).wf(),
        pt.wf(final(frames)),
        forall|a: u64| #[trigger] final(frames).used().contains(a)
            == (old(frames).used().contains(a) && !(exists|k: int| 0 <= k < ms@.len() && (#[trigger] ms@[k]).frame.start == a)),
{
    let mut k: usize = 0;
    while k < ms.len()
        invariant
            k <= ms@.len(),
            frames.wf(),
            pt.wf(frames),
            ms_wf(ms@, pt, old(frames)),
            forall|j: int| k <= j < ms@.len() ==> frames.used().contains(#[trigger] ms@[j].frame.start),
            forall|a: u64| #[trigger] frames.used().contains(a)
                == (old(frames).used().contains(a) && !(exists|j: int| 0 <= j < k && (#[trigger] ms@[j]).frame.start == a)),
        decreases ms@.len() - k,
    {
        let f = ms[k].frame;
        let ghost f0 = *frames;
        proof {
            assert(mapping_ok(ms@[k as int]));
        }
        dealloc_frame(f, frames);
        proof {
            assert forall|a: u64| #[trigger] pt.holds_page(a) implies frames.used().contains(a) by {
                pt.lemma_holds_used(&f0, a);
                assert(a != f.start);
            }
            pt.lemma_wf_keep(&f0, frames);
            assert forall|j: int| k + 1 <= j < ms@.len() implies frames.used().contains(#[trigger] ms@[j].frame.start) by {
                assert(ms@[j].frame.start != ms@[k as int].frame.start);
            }
            assert forall|a: u64| #[trigger] frames.used().contains(a)
                == (old(frames).used().contains(a) && !(exists|j: int| 0 <= j < k + 1 && (#[trigger] ms@[j]).frame.start == a)) by {
                if a == f.start {
                    assert(ms@[k as int].frame.start == a);
                } else if exists|j: int| 0 <= j < k + 1 && (#[trigger] ms@[j]).frame.start == a {
                    let j = choose|j: int| 0 <= j < k + 1 && (#[trigger] ms@[j]).frame.start == a;
                    assert(j < k);
                }
            }
        }
        k = k + 1;
    }
}

/// Replaces the program of task `tid` with the ELF image `buffer`, run
/// with arguments `argv` and environment `envp` (see [`load_elf`]): the
/// task gets the new memory and registers and is marked running; its
/// other fields stay.  Its old address space and the blocks of its old
/// mappings are given back.  Returns the stores that fill the new memory;
/// `None` when there is no such task or the image cannot be loaded, in
/// which case the old address space is put back.
pub fn execve_into(
    tid: Tid,
    buffer: &[u8],
    argv: &Vec<Vec<u8>>,
    envp: &Vec<Vec<u8>>,
    sstatus: u64,
    tasks: &mut Tasks,
    pt: &mut PageTableManager,
    frames: &mut FrameAllocator,
) -> (r: Option<Vec<(u64, Vec<u8>)>>)
    requires
        tids_sorted(old(tasks).entries()),
        old(pt).wf(old(frames)),
        old(frames).wf(),
        has_tid(old(tasks).entries(), tid) ==> ms_wf(tcb_of(old(tasks).entries(), tid).memory_set.mappings@, old(pt), old(frames)),
    ensures
        tids_sorted(final(tasks).entries()),
        final(frames).wf(),
        final(pt).wf(final(frames)),
        spaces_kept(final(pt), old(pt), tid),
        final(tasks).last() == old(tasks).last(),
        forall|t: Tid| #[trigger] has_tid(final(tasks).entries(), t) == has_tid(old(tasks).entries(), t),
        forall|t: Tid| t != tid && has_tid(old(tasks).entries(), t) ==> #[trigger] tcb_of(final(tasks).entries(), t)
            == tcb_of(old(tasks).entries(), t),
        !has_tid(old(tasks).entries(), tid) ==> r is None && *final(pt) == *old(pt) && *final(frames) == *old(frames),
        match r {
            Some(w) => {
                let a = tcb_of(old(tasks).entries(), tid);
                let b = tcb_of(final(tasks).entries(), tid);
                &&& has_tid(old(tasks).entries(), tid)
                &&& exec_updated(a, b, b.memory_set, b.trap_context)
                &&& loaded(buffer@, argv@, envp@, tid, sstatus, b.memory_set, b.trap_context, w@, final(pt), final(frames))
                &&& forall|k: int| 0 <= k < a.memory_set.mappings@.len()
                    ==> !final(frames).used().contains(#[trigger] a.memory_set.mappings@[k].frame.start)
                &&& old(pt).has_space(tid) ==> forall|p: u64| #[trigger] old(pt).user_space(tid).pages().contains(p)
                    ==> !final(frames).used().contains(p)
            },
            None => {
                &&& final(tasks).entries() == old(tasks).entries()
                &&& old(pt).has_space(tid) ==> final(pt).has_space(tid) && final(pt).user_space(tid) == old(pt).user_space(tid)
            },
        },
{
    let i = match tasks.find(tid) {
        Some(i) => i,
        None => return None,
    };
    let ghost s0 = tasks.entries();
    let ghost old_ms = s0[i as int].1.memory_set.mappings@;
    let ghost f0 = *frames;
    let old_space = pt.remove_user(tid, frames);
    let ghost p1 = *pt;
    proof {
        lemma_index_of(s0, i as int);
        assert(tcb_of(s0, tid) == s0[i as int].1);
        assert forall|k: int| 0 <= k < old_ms.len() implies !p1.holds_page(#[trigger] old_ms[k].frame.start) by {}
    }
    let load = match load_elf(buffer, argv, envp, tid, sstatus, pt, frames) {
        Ok(l) => l,
        Err(_) => {
            match old_space {
                Some(sp) => {
                    proof {
                        assert forall|p: u64| #[trigger] sp.pages().contains(p) implies frames.used().contains(p)
                            && !pt.holds_page(p) by {
                            assert(old(pt).holds_page(p));
                            old(pt).lemma_holds_used(old(frames), p);
                        }
                        sp.lemma_owned_by(frames);
                    }
                    pt.insert_user(tid, sp, frames);
                },
                None => {},
            }
            return None;
        },
    };
    let Load { memory_set, trap_context, writes } = load;
    let ghost new_ms = memory_set;
    let (t, mut tcb) = tasks.take_at(i);
    let mut old_set = memory_set;
    std::mem::swap(&mut tcb.memory_set, &mut old_set);
    tcb.trap_context = trap_context;
    tcb.spawn();
    tasks.put_at(i, (t, tcb));
    proof {
        assert(tasks.entries() =~= s0.update(i as int, (t, tcb)));
        assert forall|a: int, b: int| 0 <= a < b < tasks.entries().len() implies
            (#[trigger] tasks.entries()[a]).0.0 < (#[trigger] tasks.entries()[b]).0.0 by {
            assert(tasks.entries()[a].0 == s0[a].0 && tasks.entries()[b].0 == s0[b].0);
        }
        lemma_index_of(tasks.entries(), i as int);
        assert forall|u: Tid| #[trigger] has_tid(tasks.entries(), u) == has_tid(s0, u) by {
            if has_tid(s0, u) {
                let j = choose|j: int| 0 <= j < s0.len() && (#[trigger] s0[j]).0 == u;
                assert(tasks.entries()[j].0 == u);
            }
            if has_tid(tasks.entries(), u) {
                let j = choose|j: int| 0 <= j < tasks.entries().len() && (#[trigger] tasks.entries()[j]).0 == u;
                assert(s0[j].0 == u);
            }
        }
        assert forall|u: Tid| u != tid && has_tid(s0, u) implies #[trigger] tcb_of(tasks.entries(), u) == tcb_of(s0, u) by {
            let j = choose|j: int| 0 <= j < s0.len() && (#[trigger] s0[j]).0 == u;
            lemma_index_of(s0, j);
            assert(j != i);
            assert(tasks.entries()[j] == s0[j]);
            lemma_index_of(tasks.entries(), j);
        }
    }
    let ghost f2 = *frames;
    match old_space {
        Some(sp) => {
            proof {
                assert forall|p: u64| #[trigger] sp.pages().contains(p) implies frames.used().contains(p) by {
                    old(pt).lemma_holds_used(old(frames), p);
                }
                sp.lemma_owned_by(frames);
            }
            sp.release(frames);
            proof {
                assert forall|p: u64| #[trigger] pt.holds_page(p) implies frames.used().contains(p) by {
                    pt.lemma_holds_used(&f2, p);
                    if sp.pages().contains(p) {
                        old(pt).lemma_holds_used(old(frames), p);
                    }
                }
                pt.lemma_wf_keep(&f2, frames);
            }
        },
        None => {},
    }
    let ghost f3 = *frames;
    proof {
        assert forall|k: int| 0 <= k < old_set.mappings@.len() implies mapping_ok(#[trigger] old_set.mappings@[k])
            && frames.used().contains(old_set.mappings@[k].frame.start) && !pt.holds_page(old_set.mappings@[k].frame.start) by {
            let a = old_set.mappings@[k].frame.start;
            assert(old_ms[k] == old_set.mappings@[k]);
            assert(f0.used().contains(a) && !old(pt).holds_page(a));
            assert(!p1.holds_page(a));
            assert(f2.used().contains(a));
        }
    }
    release_mappings(&old_set.mappings, pt, frames);
    proof {
        let m = new_ms.mappings@;
        assert(ms_wf(m, pt, &f2));
        assert forall|k: int| 0 <= k < m.len() implies mapping_ok(#[trigger] m[k])
            && frames.used().contains(m[k].frame.start) && !pt.holds_page(m[k].frame.start) by {
            let a = m[k].frame.start;
            assert(f2.used().contains(a));
            assert(!(f0.used().contains(a) && !p1.holds_page(a)));
            match old_space {
                Some(sp) => {
                    if sp.pages().contains(a) {
                        old(pt).lemma_holds_used(old(frames), a);
                    }
                    assert(f3.used().contains(a));
                },
                None => {},
            }
            assert forall|j: int| 0 <= j < old_set.mappings@.len() implies (#[trigger] old_set.mappings@[j]).frame.start != a by {
                assert(old_ms[j] == old_set.mappings@[j]);
                assert(f0.used().contains(old_ms[j].frame.start));
            }
        }
    }
    Some(writes)
}

/// Blocks waiting to be mapped stay pending across page-table changes that
/// keep blocks in use and only take fresh frames for tables.
proof fn lemma_pending_keep(v: Seq<Frame>, pt0: &PageTableManager, f0: &FrameAllocator, pt1: &PageTableManager,
    f1: &FrameAllocator, before: Set<u64>)
    requires
        pending_ok(v, 0, pt0, f0, before),
        kept_in(pt0, f0, pt1, f1, Set::<u64>::empty()),
    ensures
        pending_ok(v, 0, pt1, f1, before),
{
    assert forall|b: int| 0 <= b < v.len() implies f1.used().contains(#[trigger] v[b].start) && !pt1.holds_page(v[b].start)
        && !before.contains(v[b].start) by {
        assert(f0.used().contains(v[b].start));
    }
}

} // verus!
