use gowr_noclip::pe_file::{collect_globals, field_globals, headers_readable, parse_sections};
use std::collections::BTreeSet;

fn put_u16(m: &mut [u8], at: usize, v: u16) {
    m[at..at + 2].copy_from_slice(&v.to_le_bytes());
}

fn put_u32(m: &mut [u8], at: usize, v: u32) {
    m[at..at + 4].copy_from_slice(&v.to_le_bytes());
}

/// A PE file with `.text` (raw 0x200, va 0x1000, 0x100 bytes), `.rdata` and
/// a section whose raw bytes lie past the end of the file.
fn pe_file() -> Vec<u8> {
    let mut f = vec![0u8; 0x400];
    put_u32(&mut f, 0x3C, 0x40);
    let pe = 0x44;
    put_u16(&mut f, pe + 2, 3);
    put_u16(&mut f, pe + 16, 0x20);
    let table = pe + 20 + 0x20;
    let entries: [(&[u8; 8], u32, u32, u32); 3] = [
        (b".text\0\0\0", 0x1000, 0x100, 0x200),
        (b".rdata\0\0", 0x2000, 0x80, 0x300),
        (b".bss\0\0\0\0", 0x3000, 0x1000, 0x380),
    ];
    for (i, (name, va, vsize, raw)) in entries.iter().enumerate() {
        let sh = table + 40 * i;
        f[sh..sh + 8].copy_from_slice(*name);
        put_u32(&mut f, sh + 8, *vsize);
        put_u32(&mut f, sh + 12, *va);
        put_u32(&mut f, sh + 20, *raw);
    }
    // in .text: mov rax, [rip + 0x30] at 0x10 ; movss xmm0, [rax + 0x8C4] at 0x20
    let t = 0x200;
    f[t + 0x10..t + 0x17].copy_from_slice(&[0x48, 0x8B, 0x05, 0x30, 0x00, 0x00, 0x00]);
    f[t + 0x20..t + 0x28].copy_from_slice(&[0xF3, 0x0F, 0x10, 0x80, 0xC4, 0x08, 0x00, 0x00]);
    f
}

#[test]
fn parse_sections_keeps_sections_inside_the_file() {
    let f = pe_file();
    assert!(headers_readable(&f));
    let secs = parse_sections(&f);
    assert_eq!(secs.len(), 2);
    assert_eq!(secs[0], (".text".to_string(), 0x1000, 0x100, 0x200));
    assert_eq!(secs[1], (".rdata".to_string(), 0x2000, 0x80, 0x300));
}

#[test]
fn headers_readable_rejects_truncated_files() {
    assert!(!headers_readable(&[0u8; 0x3F]));
    let f = pe_file();
    assert!(!headers_readable(&f[..0x60]));
}

#[test]
fn collect_globals_finds_rip_loads_before_an_access() {
    let f = pe_file();
    let sec = &f[0x200..0x300];
    let mut globals = BTreeSet::new();
    globals.insert(7u64);
    collect_globals(sec, 0x1000, 0x20, &mut globals);
    // instruction at 0x1010, 7 bytes long, displacement 0x30
    let expected: BTreeSet<u64> = [7u64, 0x1010 + 7 + 0x30].into_iter().collect();
    assert_eq!(globals, expected);
}

#[test]
fn field_globals_follows_matching_field_accesses() {
    let f = pe_file();
    let secs = parse_sections(&f);
    let found = field_globals(&f, &secs, 0x8C4);
    assert_eq!(found.into_iter().collect::<Vec<_>>(), vec![0x1047]);
    assert!(field_globals(&f, &secs, 0x8C8).is_empty());
}

#[test]
fn collect_globals_handles_high_section_addresses() {
    let f = pe_file();
    let sec = &f[0x200..0x300];
    let mut globals = BTreeSet::new();
    let va = 0xFFFF_FFFF_0000_0000u64;
    collect_globals(sec, va, 0x20, &mut globals);
    assert_eq!(globals.into_iter().collect::<Vec<_>>(), vec![va + 0x10 + 7 + 0x30]);
}

#[test]
fn collect_globals_reaches_the_end_of_the_section() {
    // a load whose last byte is the last byte of the section, before i == len
    let sec = [0x90u8, 0x48, 0x8B, 0x05, 0x10, 0x00, 0x00, 0x00];
    let mut globals = BTreeSet::new();
    collect_globals(&sec, 0x4000, sec.len(), &mut globals);
    let expected: BTreeSet<u64> = [0x4001u64 + 7 + 0x10].into_iter().collect();
    assert_eq!(globals, expected);
    let mut none = BTreeSet::new();
    collect_globals(&[], 0x4000, 2, &mut none);
    assert!(none.is_empty());
}
