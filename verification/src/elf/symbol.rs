use std::collections::BTreeMap;
use vstd::prelude::*;
use vstd::utf8::{decode_utf8, valid_utf8};

use super::{le_bytes, Elf64_Ehdr, Elf64_Shdr, Elf64_Sym};
use vstd::std_specs::cmp::OrdSpec;
use vstd::std_specs::iter::IteratorSpec;

verus! {

broadcast use {vstd::std_specs::btree::group_btree_axioms, vstd::laws_cmp::group_laws_cmp};

/// The greatest address below `rip` in `table` and its name.
pub fn get_formatted_string_from_rip(table: &BTreeMap<u64, String>, rip: u64) -> (r: Option<(u64, &String)>)
    ensures
        r is None ==> forall|k: u64| #[trigger] table@.contains_key(k) ==> k >= rip,
        r matches Some(p) ==> {
            &&& table@.contains_key(p.0)
            &&& p.0 < rip
            &&& *p.1 == table@[p.0]
            &&& forall|k: u64| #[trigger] table@.contains_key(k) && k < rip ==> k <= p.0
        },
{
    let mut best: Option<(u64, &String)> = None;
    let iter = table.iter();
    proof {
        let ks = iter.remaining().map_values(|kv: (&u64, &String)| *kv.0);
        assert(vstd::std_specs::btree::increasing_seq(ks));
        assert(vstd::laws_cmp::obeys_cmp::<u64>());
        assert forall|i: int, j: int| 0 <= i < j < iter.remaining().len() implies *(#[trigger] iter.remaining()[i]).0 < *(#[trigger] iter.remaining()[j]).0 by {
            assert(ks[i] == *iter.remaining()[i].0);
            assert(ks[j] == *iter.remaining()[j].0);
            assert(ks[i].cmp_spec(&ks[j]) is Less);
        }
    }
    for kv in it: iter
        invariant
            forall|j: int| 0 <= j < it.seq().len() ==> table@.contains_key(*(#[trigger] it.seq()[j]).0)
                && table@[*it.seq()[j].0] == *it.seq()[j].1,
            forall|i: int, j: int| 0 <= i < j < it.seq().len() ==> *(#[trigger] it.seq()[i]).0 < *(#[trigger] it.seq()[j]).0,
            best is None ==> forall|j: int| 0 <= j < it.index() ==> *(#[trigger] it.seq()[j]).0 >= rip,
            best matches Some(p) ==> {
                &&& table@.contains_key(p.0)
                &&& p.0 < rip
                &&& *p.1 == table@[p.0]
                &&& forall|j: int| 0 <= j < it.index() && *(#[trigger] it.seq()[j]).0 < rip ==> *it.seq()[j].0 <= p.0
            },
    {
        let (k, v) = kv;
        if *k < rip {
            best = Some((*k, v));
        }
    }
    best
}


/// What `rustc_demangle::demangle` makes of a symbol name.
pub uninterp spec fn demangled(name: Seq<char>) -> Seq<char>;

/// `rustc_demangle::demangle(s).to_string()`: the readable form of a Rust
/// symbol name, named by [`demangled`].
#[verifier::external_body]
fn demangle_name(s: &str) -> (r: String)
    ensures
        r@ == demangled(s@),
{
    rustc_demangle::demangle(s).to_string()
}

/// `core::str::from_utf8`: the text the bytes encode, or `None` when they are
/// not UTF-8.
#[verifier::external_body]
fn utf8_text(b: &[u8]) -> (r: Option<&str>)
    ensures
        r is Some <==> valid_utf8(b@),
        r matches Some(s) ==> s@ == decode_utf8(b@),
{
    core::str::from_utf8(b).ok()
}

/// Section types.
pub const SHT_SYMTAB: u32 = 2;
pub const SHT_STRTAB: u32 = 3;

pub open spec fn shoff(b: Seq<u8>) -> int {
    le_bytes(b, 40, 8) as int
}

pub open spec fn shentsize(b: Seq<u8>) -> int {
    le_bytes(b, 58, 2) as int
}

pub open spec fn shnum(b: Seq<u8>) -> int {
    le_bytes(b, 60, 2) as int
}

pub open spec fn shstrndx(b: Seq<u8>) -> int {
    le_bytes(b, 62, 2) as int
}

/// Where the section header `idx` starts.
pub open spec fn section_at(b: Seq<u8>, idx: int) -> int {
    shoff(b) + idx * shentsize(b)
}

pub open spec fn section_type(b: Seq<u8>, s: int) -> int {
    le_bytes(b, s + 4, 4) as int
}

/// The scan of the section headers from `idx` on: the last symbol table and
/// the last string table other than the section-name table seen before both
/// were found.
pub open spec fn scan(b: Seq<u8>, idx: int, found: Option<int>, strtab: Option<int>) -> (Option<int>, Option<int>)
    decreases shnum(b) - idx,
{
    if idx >= shnum(b) || (found is Some && strtab is Some) {
        (found, strtab)
    } else {
        let s = section_at(b, idx);
        if section_type(b, s) == 2 {
            scan(b, idx + 1, Some(s), strtab)
        } else if section_type(b, s) == 3 && idx != shstrndx(b) {
            scan(b, idx + 1, found, Some(s))
        } else {
            scan(b, idx + 1, found, strtab)
        }
    }
}

/// The scan from `idx` on reads only bytes of `b`.
pub open spec fn scan_in_bounds(b: Seq<u8>, idx: int, found: Option<int>, strtab: Option<int>) -> bool
    decreases shnum(b) - idx,
{
    if idx >= shnum(b) || (found is Some && strtab is Some) {
        true
    } else {
        let s = section_at(b, idx);
        &&& s + 64 <= b.len()
        &&& if section_type(b, s) == 2 {
            scan_in_bounds(b, idx + 1, Some(s), strtab)
        } else if section_type(b, s) == 3 && idx != shstrndx(b) {
            scan_in_bounds(b, idx + 1, found, Some(s))
        } else {
            scan_in_bounds(b, idx + 1, found, strtab)
        }
    }
}

pub open spec fn sh_offset(b: Seq<u8>, s: int) -> int {
    le_bytes(b, s + 24, 8) as int
}

pub open spec fn sh_size(b: Seq<u8>, s: int) -> int {
    le_bytes(b, s + 32, 8) as int
}

pub open spec fn sh_entsize(b: Seq<u8>, s: int) -> int {
    le_bytes(b, s + 56, 8) as int
}

/// Where symbol `idx` of the table whose header is at `sym` starts.
pub open spec fn symbol_at(b: Seq<u8>, sym: int, idx: int) -> int {
    sh_offset(b, sym) + idx * sh_entsize(b, sym)
}

/// Where the name of the symbol at `st` starts in the string table at `str`.
pub open spec fn name_at(b: Seq<u8>, str: int, st: int) -> int {
    sh_offset(b, str) + le_bytes(b, st, 4)
}

/// The first zero byte of `b` at or after `j`; `b.len()` when there is none.
pub open spec fn first_nul(b: Seq<u8>, j: int) -> int
    decreases b.len() - j,
{
    if j >= b.len() || j < 0 {
        b.len() as int
    } else if b[j] == 0 {
        j
    } else {
        first_nul(b, j + 1)
    }
}

/// The zero-terminated string at `off`.
pub open spec fn c_string(b: Seq<u8>, off: int) -> Seq<u8> {
    b.subrange(off, first_nul(b, off))
}

/// The symbols `1..n` of the table at `sym`, each address with the readable
/// form of its name; a later symbol replaces an earlier one of the same
/// address.
pub open spec fn symbol_map(b: Seq<u8>, sym: int, str: int, n: int) -> Map<u64, Seq<char>>
    decreases n,
{
    if n <= 1 {
        Map::empty()
    } else {
        let st = symbol_at(b, sym, n - 1);
        symbol_map(b, sym, str, n - 1).insert(
            le_bytes(b, st + 8, 8) as u64,
            demangled(decode_utf8(c_string(b, name_at(b, str, st)))),
        )
    }
}

/// Symbol `idx` and its name can be read: the entry lies in `b`, its name is
/// zero-terminated within `b` and is UTF-8.
pub open spec fn symbol_readable(b: Seq<u8>, sym: int, str: int, idx: int) -> bool {
    let st = symbol_at(b, sym, idx);
    let name = name_at(b, str, st);
    &&& st + 24 <= b.len()
    &&& 0 <= name < b.len()
    &&& first_nul(b, name) < b.len()
    &&& valid_utf8(c_string(b, name))
}

/// A kernel file whose symbols `load` can read: the header and the scanned
/// section headers lie in the file; if a symbol table is found, a string
/// table was found too, the table has a non-zero entry size and at least one
/// entry, and every symbol after the first can be read.
pub open spec fn loadable(b: Seq<u8>) -> bool {
    &&& 64 <= b.len()
    &&& scan_in_bounds(b, 0, None, None)
    &&& scan(b, 0, None, None).0 matches Some(sym) ==> {
        &&& scan(b, 0, None, None).1 is Some
        &&& sh_entsize(b, sym) != 0
        &&& sh_size(b, sym) / sh_entsize(b, sym) >= 1
        &&& forall|idx: int|
            1 <= idx < sh_size(b, sym) / sh_entsize(b, sym) ==> #[trigger] symbol_readable(
                b,
                sym,
                scan(b, 0, None, None).1->0,
                idx,
            )
    }
}

/// The symbol table of the kernel file: empty when it has no symbol table.
pub open spec fn kernel_symbols(b: Seq<u8>) -> Map<u64, Seq<char>> {
    match scan(b, 0, None, None).0 {
        None => Map::empty(),
        Some(sym) => {
            let str = scan(b, 0, None, None).1->0;
            symbol_map(b, sym, str, sh_size(b, sym) / sh_entsize(b, sym))
        },
    }
}

/// Symbol `idx` of the symbol table whose header is at `sym` has the address
/// `k` and, read from the string table whose header is at `str`, the name
/// `name`: the zero-terminated string at the string table's offset plus the
/// symbol's `st_name`, demangled.
pub open spec fn symbol_entry(b: Seq<u8>, sym: int, str: int, idx: int, k: u64, name: Seq<char>) -> bool {
    let st = sh_offset(b, sym) + idx * sh_entsize(b, sym);
    &&& le_bytes(b, st + 8, 8) == k
    &&& name == demangled(decode_utf8(c_string(b, sh_offset(b, str) + le_bytes(b, st, 4))))
}

/// The symbols of the kernel file are those of the symbol table at section
/// `ti` with names read from the string table at section `si`: every entry
/// is some symbol after the first with its name, and every such symbol's
/// address is an entry.
pub open spec fn symbols_read_from(b: Seq<u8>, ti: int, si: int) -> bool {
    let sym = shoff(b) + ti * shentsize(b);
    let str = shoff(b) + si * shentsize(b);
    let n = sh_size(b, sym) / sh_entsize(b, sym);
    &&& 0 <= ti < shnum(b)
    &&& le_bytes(b, sym + 4, 4) == SHT_SYMTAB
    &&& 0 <= si < shnum(b)
    &&& si != shstrndx(b)
    &&& le_bytes(b, str + 4, 4) == SHT_STRTAB
    &&& forall|k: u64| #[trigger] kernel_symbols(b).contains_key(k) ==> exists|idx: int|
        1 <= idx < n && #[trigger] symbol_entry(b, sym, str, idx, k, kernel_symbols(b)[k])
    &&& forall|idx: int| 1 <= idx < n ==> #[trigger] kernel_symbols(b).contains_key(
        le_bytes(b, sh_offset(b, sym) + idx * sh_entsize(b, sym) + 8, 8) as u64,
    )
}

/// A section found by the scan from `idx` on, or given to it, is one of the
/// file's sections of type `ty`, and for a string table not the section-name
/// table.
pub open spec fn found_section(b: Seq<u8>, o: Option<int>, ty: int) -> bool {
    o matches Some(s) ==> exists|i: int|
        0 <= i < shnum(b) && s == #[trigger] section_at(b, i) && section_type(b, s) == ty && (ty == 3
            ==> i != shstrndx(b))
}

proof fn lemma_scan_finds_sections(b: Seq<u8>, idx: int, found: Option<int>, strtab: Option<int>)
    requires
        0 <= idx,
        found_section(b, found, 2),
        found_section(b, strtab, 3),
    ensures
        found_section(b, scan(b, idx, found, strtab).0, 2),
        found_section(b, scan(b, idx, found, strtab).1, 3),
    decreases shnum(b) - idx,
{
    if idx >= shnum(b) || (found is Some && strtab is Some) {
    } else {
        let s = section_at(b, idx);
        if section_type(b, s) == 2 {
            assert(found_section(b, Some(s), 2));
            lemma_scan_finds_sections(b, idx + 1, Some(s), strtab);
        } else if section_type(b, s) == 3 && idx != shstrndx(b) {
            assert(found_section(b, Some(s), 3));
            lemma_scan_finds_sections(b, idx + 1, found, Some(s));
        } else {
            lemma_scan_finds_sections(b, idx + 1, found, strtab);
        }
    }
}

proof fn lemma_symbol_map_entries(b: Seq<u8>, sym: int, str: int, n: int)
    ensures
        forall|k: u64| #[trigger] symbol_map(b, sym, str, n).contains_key(k) ==> exists|idx: int|
            1 <= idx < n && #[trigger] symbol_entry(b, sym, str, idx, k, symbol_map(b, sym, str, n)[k]),
        forall|idx: int| 1 <= idx < n ==> #[trigger] symbol_map(b, sym, str, n).contains_key(
            le_bytes(b, sh_offset(b, sym) + idx * sh_entsize(b, sym) + 8, 8) as u64,
        ),
    decreases n,
{
    if n > 1 {
        lemma_symbol_map_entries(b, sym, str, n - 1);
        let m = symbol_map(b, sym, str, n);
        let st = symbol_at(b, sym, n - 1);
        let key = le_bytes(b, st + 8, 8) as u64;
        super::lemma_le_u64_bound(b, st + 8);
        assert forall|k: u64| #[trigger] m.contains_key(k) implies exists|idx: int|
            1 <= idx < n && #[trigger] symbol_entry(b, sym, str, idx, k, m[k]) by {
            if k == key {
                assert(symbol_entry(b, sym, str, n - 1, k, m[k]));
            } else {
                let idx = choose|idx: int|
                    1 <= idx < n - 1 && #[trigger] symbol_entry(b, sym, str, idx, k, symbol_map(b, sym, str, n - 1)[k]);
                assert(symbol_entry(b, sym, str, idx, k, m[k]));
            }
        }
        assert forall|idx: int| 1 <= idx < n implies #[trigger] m.contains_key(
            le_bytes(b, sh_offset(b, sym) + idx * sh_entsize(b, sym) + 8, 8) as u64,
        ) by {
            if idx < n - 1 {
                assert(symbol_map(b, sym, str, n - 1).contains_key(
                    le_bytes(b, sh_offset(b, sym) + idx * sh_entsize(b, sym) + 8, 8) as u64,
                ));
            }
        }
    }
}

/// The names of the kernel's symbols are read from a string table other than
/// the section-name table: the file's symbols are those of one of its symbol
/// tables, each named by the zero-terminated string at its `st_name` in one of
/// its string tables whose index is not `e_shstrndx`.
pub proof fn symbol_names_come_from_string_table(b: Seq<u8>)
    requires
        loadable(b),
    ensures
        kernel_symbols(b) == Map::<u64, Seq<char>>::empty() || exists|ti: int, si: int|
            #[trigger] symbols_read_from(b, ti, si),
{
    lemma_scan_finds_sections(b, 0, None, None);
    let (found, strtab) = scan(b, 0, None, None);
    if let Some(sym) = found {
        let str = strtab->0;
        let ti = choose|i: int|
            0 <= i < shnum(b) && sym == #[trigger] section_at(b, i) && section_type(b, sym) == 2;
        let si = choose|i: int|
            0 <= i < shnum(b) && str == #[trigger] section_at(b, i) && section_type(b, str) == 3 && i != shstrndx(b);
        lemma_symbol_map_entries(b, sym, str, sh_size(b, sym) / sh_entsize(b, sym));
        assert(symbols_read_from(b, ti, si));
    } else {
        assert(kernel_symbols(b) =~= Map::<u64, Seq<char>>::empty());
    }
}

/// The zero-terminated string at `off`, as bytes.
fn read_c_string(b: &[u8], off: usize) -> (r: Vec<u8>)
    requires
        off < b@.len(),
        first_nul(b@, off as int) < b@.len(),
    ensures
        r@ == c_string(b@, off as int),
{
    let mut r: Vec<u8> = Vec::new();
    let mut j = off;
    proof {
        lemma_first_nul_bounds(b@, off as int);
    }
    while b[j] != 0
        invariant
            off <= j < b@.len(),
            first_nul(b@, off as int) == first_nul(b@, j as int),
            first_nul(b@, j as int) < b@.len(),
            r@ == b@.subrange(off as int, j as int),
        decreases b@.len() - j,
    {
        proof {
            lemma_first_nul_bounds(b@, j + 1);
        }
        r.push(b[j]);
        j = j + 1;
        proof {
            assert(r@ =~= b@.subrange(off as int, j as int));
        }
    }
    r
}

/// Reads the symbol table of the kernel file `file`: every symbol after the
/// first, by address, with its demangled name.
pub fn load(file: &[u8]) -> (r: BTreeMap<u64, String>)
    requires
        loadable(file@),
    ensures
        forall|k: u64| #[trigger] r@.contains_key(k) <==> kernel_symbols(file@).contains_key(k),
        forall|k: u64| #[trigger] r@.contains_key(k) ==> r@[k]@ == kernel_symbols(file@)[k],
{
    let b = file;
    let len = b.len();
    let hdr = Elf64_Ehdr::read(b);
    let size_of_shent = hdr.e_shentsize;
    let num_of_shent = hdr.e_shnum;
    let offset_to_shtable = hdr.e_shoff;
    let mut idx: u16 = 0;
    let mut found: Option<usize> = None;
    let mut stringtable: Option<usize> = None;
    while idx != num_of_shent && !(found.is_some() && stringtable.is_some())
        invariant
            b@.len() == len,
            loadable(b@),
            num_of_shent == shnum(b@),
            size_of_shent == shentsize(b@),
            offset_to_shtable == shoff(b@),
            hdr.e_shstrndx == shstrndx(b@),
            idx <= num_of_shent,
            scan(b@, 0, None, None) == scan(b@, idx as int, found_int(found), found_int(stringtable)),
            scan_in_bounds(b@, idx as int, found_int(found), found_int(stringtable)),
            found matches Some(s) ==> s + 64 <= len,
            stringtable matches Some(s) ==> s + 64 <= len,
        decreases num_of_shent - idx,
    {
        proof {
            assert(section_at(b@, idx as int) + 64 <= len);
            assert(0 <= idx as int * size_of_shent as int) by (nonlinear_arith)
                requires idx >= 0, size_of_shent >= 0;
        }
        let sec = (offset_to_shtable + idx as u64 * size_of_shent as u64) as usize;
        let sec_type = read_le_u32(b, sec + 4);
        if sec_type == SHT_SYMTAB {
            found = Some(sec);
        } else if sec_type == SHT_STRTAB && idx != hdr.e_shstrndx {
            stringtable = Some(sec);
        }
        idx = idx + 1;
    }
    proof {
        assert(scan(b@, 0, None, None) == (found_int(found), found_int(stringtable)));
    }
    let mut new: BTreeMap<u64, String> = BTreeMap::new();
    if let Some(symtabhdr) = found {
        let strtab = stringtable.unwrap();
        let symtab = Elf64_Shdr::read(b, symtabhdr);
        let strhdr = Elf64_Shdr::read(b, strtab);
        let amoofsyms = symtab.sh_size / symtab.sh_entsize;
        let mut i: u64 = 1;
        while i != amoofsyms
            invariant
                b@.len() == len,
                loadable(b@),
                scan(b@, 0, None, None) == (Some(symtabhdr as int), Some(strtab as int)),
                symtab.sh_offset == sh_offset(b@, symtabhdr as int),
                symtab.sh_entsize == sh_entsize(b@, symtabhdr as int),
                strhdr.sh_offset == sh_offset(b@, strtab as int),
                amoofsyms == sh_size(b@, symtabhdr as int) / sh_entsize(b@, symtabhdr as int),
                1 <= i <= amoofsyms,
                forall|k: u64| #[trigger] new@.contains_key(k) <==> symbol_map(b@, symtabhdr as int, strtab as int, i as int).contains_key(k),
                forall|k: u64| #[trigger] new@.contains_key(k) ==> new@[k]@ == symbol_map(b@, symtabhdr as int, strtab as int, i as int)[k],
            decreases amoofsyms - i,
        {
            proof {
                assert(symbol_readable(b@, symtabhdr as int, scan(b@, 0, None, None).1->0, i as int));
                assert(0 <= i as int * symtab.sh_entsize as int) by (nonlinear_arith)
                    requires i >= 0, symtab.sh_entsize >= 0;
            }
            let st = (symtab.sh_offset + i * symtab.sh_entsize) as usize;
            let sym = Elf64_Sym::read(b, st);
            let name_off = (strhdr.sh_offset + sym.st_name as u64) as usize;
            let bytes = read_c_string(b, name_off);
            let text = utf8_text(bytes.as_slice()).unwrap();
            let name = demangle_name(text);
            new.insert(sym.st_value, name);
            i = i + 1;
        }
    }
    new
}

/// The first zero byte at or after `x` lies between `x` and the end.
proof fn lemma_first_nul_bounds(b: Seq<u8>, x: int)
    requires
        0 <= x <= b.len(),
    ensures
        x <= first_nul(b, x) <= b.len(),
    decreases b.len() - x,
{
    if x < b.len() && b[x] != 0 {
        lemma_first_nul_bounds(b, x + 1);
    }
}

/// An optional position as an integer.
pub open spec fn found_int(o: Option<usize>) -> Option<int> {
    match o {
        None => None,
        Some(s) => Some(s as int),
    }
}

/// Reads the little-endian `u32` at `off`.
fn read_le_u32(b: &[u8], off: usize) -> (r: u32)
    requires
        off + 4 <= b@.len(),
    ensures
        r == le_bytes(b@, off as int, 4),
{
    proof {
        super::lemma_le_u32_bound(b@, off as int);
    }
    super::read_le(b, off, 4) as u32
}

} // verus!
