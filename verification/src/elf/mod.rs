pub mod symbol;

use vstd::prelude::*;

verus! {

pub type Elf64_Addr = u64;
pub type Elf64_Off = u64;
pub type Elf64_Half = u16;
pub type Elf64_Word = u32;
pub type Elf64_Sword = i32;
pub type Elf64_Xword = u64;
pub type Elf64_Sxword = i64;

/// `256` to the power `n`.
pub open spec fn pow256(n: nat) -> nat
    decreases n,
{
    if n == 0 { 1 } else { 256 * pow256((n - 1) as nat) }
}

/// The little-endian number in the `n` bytes of `b` from `off`.
pub open spec fn le_bytes(b: Seq<u8>, off: int, n: nat) -> nat
    decreases n,
{
    if n == 0 { 0 } else { b[off] as nat + 256 * le_bytes(b, off + 1, (n - 1) as nat) }
}

proof fn lemma_le_bytes_bound(b: Seq<u8>, off: int, n: nat)
    ensures
        le_bytes(b, off, n) < pow256(n),
    decreases n,
{
    if n > 0 {
        lemma_le_bytes_bound(b, off + 1, (n - 1) as nat);
        let x = le_bytes(b, off + 1, (n - 1) as nat);
        let p = pow256((n - 1) as nat);
        assert(b[off] as nat + 256 * x < 256 * p) by (nonlinear_arith)
            requires x < p, b[off] < 256;
    }
}

/// Reads the little-endian number in the `n` bytes of `b` from `off`.
pub fn read_le(b: &[u8], off: usize, n: usize) -> (r: u64)
    requires
        n <= 8,
        off + n <= b@.len(),
    ensures
        r == le_bytes(b@, off as int, n as nat),
{
    proof {
        lemma_pow256_values();
        lemma_pow256_mono(n as nat, 8);
    }
    let len = b.len();
    let mut r: u64 = 0;
    let mut k: usize = n;
    while k > 0
        invariant
            k <= n <= 8,
            off + n <= b@.len(),
            b@.len() == len,
            pow256(n as nat) <= pow256(8),
            pow256(8) == 0x1_0000_0000_0000_0000,
            r == le_bytes(b@, off + k, (n - k) as nat),
        decreases k,
    {
        k = k - 1;
        proof {
            lemma_le_bytes_bound(b@, off + k, (n - k) as nat);
            lemma_pow256_mono((n - k) as nat, n as nat);
            assert(le_bytes(b@, off + k, (n - k) as nat) == b@[off + k] as nat + 256 * le_bytes(b@, off + k + 1, (n - k - 1) as nat));
        }
        r = r * 256 + b[off + k] as u64;
    }
    r
}

/// Four little-endian bytes hold a `u32`.
pub proof fn lemma_le_u32_bound(b: Seq<u8>, off: int)
    ensures
        le_bytes(b, off, 4) <= u32::MAX,
{
    lemma_le_bytes_bound(b, off, 4);
    lemma_pow256_values();
}

/// Eight little-endian bytes hold a `u64`.
pub proof fn lemma_le_u64_bound(b: Seq<u8>, off: int)
    ensures
        le_bytes(b, off, 8) <= u64::MAX,
{
    lemma_le_bytes_bound(b, off, 8);
    lemma_pow256_values();
}

proof fn lemma_pow256_values()
    ensures
        pow256(2) == 0x1_0000,
        pow256(4) == 0x1_0000_0000,
        pow256(8) == 0x1_0000_0000_0000_0000,
{
    reveal_with_fuel(pow256, 9);
}

proof fn lemma_pow256_mono(a: nat, b: nat)
    requires
        a <= b,
    ensures
        pow256(a) <= pow256(b),
    decreases b,
{
    if a < b {
        lemma_pow256_mono(a, (b - 1) as nat);
    }
}

/// The ELF file header.
pub struct Elf64_Ehdr {
    pub e_ident: [u8; 16],
    pub e_type: Elf64_Half,
    pub e_machine: Elf64_Half,
    pub e_version: Elf64_Word,
    pub e_entry: Elf64_Addr,
    pub e_phoff: Elf64_Off,
    pub e_shoff: Elf64_Off,
    pub e_flags: Elf64_Word,
    pub e_ehsize: Elf64_Half,
    pub e_phentsize: Elf64_Half,
    pub e_phnum: Elf64_Half,
    pub e_shentsize: Elf64_Half,
    pub e_shnum: Elf64_Half,
    pub e_shstrndx: Elf64_Half,
}

/// A section header.
pub struct Elf64_Shdr {
    pub sh_name: Elf64_Word,
    pub sh_type: Elf64_Word,
    pub sh_flags: Elf64_Xword,
    pub sh_addr: Elf64_Addr,
    pub sh_offset: Elf64_Off,
    pub sh_size: Elf64_Xword,
    pub sh_link: Elf64_Word,
    pub sh_info: Elf64_Word,
    pub sh_addralign: Elf64_Xword,
    pub sh_entsize: Elf64_Xword,
}

/// A symbol-table entry.
pub struct Elf64_Sym {
    pub st_name: Elf64_Word,
    pub st_info: u8,
    pub st_other: u8,
    pub st_shnidx: Elf64_Half,
    pub st_value: Elf64_Addr,
    pub st_size: Elf64_Xword,
}

impl Elf64_Ehdr {
    /// The header at the start of `b`.
    pub fn read(b: &[u8]) -> (h: Elf64_Ehdr)
        requires
            64 <= b@.len(),
        ensures
            forall|i: int| 0 <= i < 16 ==> h.e_ident@[i] == b@[i],
            h.e_type == le_bytes(b@, 16, 2),
            h.e_machine == le_bytes(b@, 18, 2),
            h.e_version == le_bytes(b@, 20, 4),
            h.e_entry == le_bytes(b@, 24, 8),
            h.e_phoff == le_bytes(b@, 32, 8),
            h.e_shoff == le_bytes(b@, 40, 8),
            h.e_flags == le_bytes(b@, 48, 4),
            h.e_ehsize == le_bytes(b@, 52, 2),
            h.e_phentsize == le_bytes(b@, 54, 2),
            h.e_phnum == le_bytes(b@, 56, 2),
            h.e_shentsize == le_bytes(b@, 58, 2),
            h.e_shnum == le_bytes(b@, 60, 2),
            h.e_shstrndx == le_bytes(b@, 62, 2),
    {
        proof {
            lemma_le_bytes_bound(b@, 16, 2);
            lemma_le_bytes_bound(b@, 18, 2);
            lemma_le_bytes_bound(b@, 20, 4);
            lemma_le_bytes_bound(b@, 48, 4);
            lemma_le_bytes_bound(b@, 52, 2);
            lemma_le_bytes_bound(b@, 54, 2);
            lemma_le_bytes_bound(b@, 56, 2);
            lemma_le_bytes_bound(b@, 58, 2);
            lemma_le_bytes_bound(b@, 60, 2);
            lemma_le_bytes_bound(b@, 62, 2);
            lemma_pow256_values();
        }
        Elf64_Ehdr {
            e_ident: [
                b[0], b[1], b[2], b[3], b[4], b[5], b[6], b[7],
                b[8], b[9], b[10], b[11], b[12], b[13], b[14], b[15],
            ],
            e_type: read_le(b, 16, 2) as u16,
            e_machine: read_le(b, 18, 2) as u16,
            e_version: read_le(b, 20, 4) as u32,
            e_entry: read_le(b, 24, 8),
            e_phoff: read_le(b, 32, 8),
            e_shoff: read_le(b, 40, 8),
            e_flags: read_le(b, 48, 4) as u32,
            e_ehsize: read_le(b, 52, 2) as u16,
            e_phentsize: read_le(b, 54, 2) as u16,
            e_phnum: read_le(b, 56, 2) as u16,
            e_shentsize: read_le(b, 58, 2) as u16,
            e_shnum: read_le(b, 60, 2) as u16,
            e_shstrndx: read_le(b, 62, 2) as u16,
        }
    }
}

impl Elf64_Shdr {
    /// The section header at `off` in `b`.
    pub fn read(b: &[u8], off: usize) -> (h: Elf64_Shdr)
        requires
            off + 64 <= b@.len(),
        ensures
            h.sh_name == le_bytes(b@, off as int, 4),
            h.sh_type == le_bytes(b@, off + 4, 4),
            h.sh_flags == le_bytes(b@, off + 8, 8),
            h.sh_addr == le_bytes(b@, off + 16, 8),
            h.sh_offset == le_bytes(b@, off + 24, 8),
            h.sh_size == le_bytes(b@, off + 32, 8),
            h.sh_link == le_bytes(b@, off + 40, 4),
            h.sh_info == le_bytes(b@, off + 44, 4),
            h.sh_addralign == le_bytes(b@, off + 48, 8),
            h.sh_entsize == le_bytes(b@, off + 56, 8),
    {
        let len = b.len();
        proof {
            lemma_le_bytes_bound(b@, off as int, 4);
            lemma_le_bytes_bound(b@, off + 4, 4);
            lemma_le_bytes_bound(b@, off + 40, 4);
            lemma_le_bytes_bound(b@, off + 44, 4);
            lemma_pow256_values();
        }
        Elf64_Shdr {
            sh_name: read_le(b, off, 4) as u32,
            sh_type: read_le(b, off + 4, 4) as u32,
            sh_flags: read_le(b, off + 8, 8),
            sh_addr: read_le(b, off + 16, 8),
            sh_offset: read_le(b, off + 24, 8),
            sh_size: read_le(b, off + 32, 8),
            sh_link: read_le(b, off + 40, 4) as u32,
            sh_info: read_le(b, off + 44, 4) as u32,
            sh_addralign: read_le(b, off + 48, 8),
            sh_entsize: read_le(b, off + 56, 8),
        }
    }
}

impl Elf64_Sym {
    /// The symbol entry at `off` in `b`.
    pub fn read(b: &[u8], off: usize) -> (s: Elf64_Sym)
        requires
            off + 24 <= b@.len(),
        ensures
            s.st_name == le_bytes(b@, off as int, 4),
            s.st_info == b@[off + 4],
            s.st_other == b@[off + 5],
            s.st_shnidx == le_bytes(b@, off + 6, 2),
            s.st_value == le_bytes(b@, off + 8, 8),
            s.st_size == le_bytes(b@, off + 16, 8),
    {
        let len = b.len();
        proof {
            lemma_le_bytes_bound(b@, off as int, 4);
            lemma_le_bytes_bound(b@, off + 6, 2);
            lemma_pow256_values();
        }
        Elf64_Sym {
            st_name: read_le(b, off, 4) as u32,
            st_info: b[off + 4],
            st_other: b[off + 5],
            st_shnidx: read_le(b, off + 6, 2) as u16,
            st_value: read_le(b, off + 8, 8),
            st_size: read_le(b, off + 16, 8),
        }
    }
}

} // verus!
