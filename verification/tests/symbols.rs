use nyaux_kt::elf::symbol::{get_formatted_string_from_rip, load};
use nyaux_kt::elf::{read_le, Elf64_Ehdr, Elf64_Shdr, Elf64_Sym};
use std::collections::BTreeMap;

const SHT_SYMTAB: u32 = 2;
const SHT_STRTAB: u32 = 3;

fn put(b: &mut Vec<u8>, off: usize, v: u64, n: usize) {
    for i in 0..n {
        b[off + i] = (v >> (8 * i)) as u8;
    }
}

/// A section header: type, offset, size and entry size.
fn section(b: &mut Vec<u8>, at: usize, ty: u32, offset: u64, size: u64, entsize: u64) {
    put(b, at + 4, ty as u64, 4);
    put(b, at + 24, offset, 8);
    put(b, at + 32, size, 8);
    put(b, at + 56, entsize, 8);
}

/// An ELF file with a section-name table, a symbol table and a string table;
/// the symbols after the null one are `names` at `values`.
fn kernel_file(names: &[&str], values: &[u64]) -> Vec<u8> {
    let shoff = 0x40;
    let mut strtab = vec![0u8];
    let mut name_offs = vec![];
    for n in names {
        name_offs.push(strtab.len() as u32);
        strtab.extend_from_slice(n.as_bytes());
        strtab.push(0);
    }
    let symoff = shoff + 4 * 64;
    let nsyms = names.len() + 1;
    let stroff = symoff + nsyms * 24;
    let mut b = vec![0u8; stroff + strtab.len()];
    b[0..4].copy_from_slice(&[0x7f, b'E', b'L', b'F']);
    put(&mut b, 0x28, shoff as u64, 8);
    put(&mut b, 0x3a, 64, 2);
    put(&mut b, 0x3c, 4, 2);
    put(&mut b, 0x3e, 1, 2);
    // section 1 holds the section names: a string table that is skipped
    section(&mut b, shoff + 64, SHT_STRTAB, stroff as u64, 1, 0);
    section(&mut b, shoff + 128, SHT_SYMTAB, symoff as u64, (nsyms * 24) as u64, 24);
    section(&mut b, shoff + 192, SHT_STRTAB, stroff as u64, strtab.len() as u64, 0);
    for (i, (off, v)) in name_offs.iter().zip(values.iter()).enumerate() {
        let at = symoff + (i + 1) * 24;
        put(&mut b, at, *off as u64, 4);
        put(&mut b, at + 8, *v, 8);
    }
    b[stroff..].copy_from_slice(&strtab);
    b
}

#[test]
fn load_reads_and_demangles_the_symbols() {
    let f = kernel_file(&["_ZN4core3fmt5write17h0123456789abcdefE", "kmain"], &[0x1000, 0x2000]);
    let t = load(&f);
    assert_eq!(t.len(), 2);
    assert_eq!(t.get(&0x1000).map(|s| s.as_str()), Some("core::fmt::write::h0123456789abcdef"));
    assert_eq!(t.get(&0x2000).map(|s| s.as_str()), Some("kmain"));
}

#[test]
fn load_of_a_file_without_symbol_table_is_empty() {
    let mut b = vec![0u8; 0x40 + 64];
    put(&mut b, 0x28, 0x40, 8);
    put(&mut b, 0x3a, 64, 2);
    put(&mut b, 0x3c, 1, 2);
    assert!(load(&b).is_empty());
}

#[test]
fn load_keeps_the_last_name_of_an_address() {
    let f = kernel_file(&["first", "second"], &[0x3000, 0x3000]);
    let t = load(&f);
    assert_eq!(t.len(), 1);
    assert_eq!(t[&0x3000], "second");
}

#[test]
fn rip_is_attributed_to_the_symbol_below_it() {
    let mut t: BTreeMap<u64, String> = BTreeMap::new();
    t.insert(0x1000, "a".to_string());
    t.insert(0x2000, "b".to_string());
    assert_eq!(get_formatted_string_from_rip(&t, 0x1800), Some((0x1000, &"a".to_string())));
    assert_eq!(get_formatted_string_from_rip(&t, 0x2000), Some((0x1000, &"a".to_string())));
    assert_eq!(get_formatted_string_from_rip(&t, 0x2001), Some((0x2000, &"b".to_string())));
    assert_eq!(get_formatted_string_from_rip(&t, 0x1000), None);
    assert_eq!(get_formatted_string_from_rip(&BTreeMap::new(), 0x1000), None);
}

#[test]
fn elf_headers_are_little_endian() {
    let f = kernel_file(&["x"], &[0xffff_ffff_8000_1234]);
    let h = Elf64_Ehdr::read(&f);
    assert_eq!(h.e_ident[1], b'E');
    assert_eq!(h.e_shoff, 0x40);
    assert_eq!(h.e_shentsize, 64);
    assert_eq!(h.e_shnum, 4);
    assert_eq!(h.e_shstrndx, 1);
    let s = Elf64_Shdr::read(&f, 0x40 + 128);
    assert_eq!(s.sh_type, SHT_SYMTAB);
    assert_eq!(s.sh_entsize, 24);
    assert_eq!(s.sh_size, 48);
    let sym = Elf64_Sym::read(&f, s.sh_offset as usize + 24);
    assert_eq!(sym.st_value, 0xffff_ffff_8000_1234);
    assert_eq!(sym.st_name, 1);
    assert_eq!(read_le(&[0x34, 0x12, 0xff], 0, 3), 0xff1234);
    assert_eq!(read_le(&[1, 2, 3], 1, 0), 0);
}
