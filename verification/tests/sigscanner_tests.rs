use gowr_noclip::pattern::Pattern;
use gowr_noclip::sigscanner::{
    header_entry, i32_from_read, is_code_section_name, lfanew_address, pe_coff_address,
    pe_signature_address, place_chunk, read_i32, read_section_chunks, read_section_headers,
    read_u16, read_u32, section_from_reads, sections_from_reads, ChunkRead, HeaderReads,
    section_chunk, section_entry, section_header_address, section_name, section_read_size,
    section_table_address, trim_nul_string, u16_from_read, u32_from_read, MemoryRead, ProcessImage,
    Resolve, SectionInfo, SigEntry,
};

/// Memory of a fake process: `bytes` mapped at `base`.
struct FakeMemory {
    base: u64,
    bytes: Vec<u8>,
}

impl MemoryRead for FakeMemory {
    fn read_bytes(&self, addr: u64, buf: &mut [u8]) -> bool {
        if addr < self.base {
            return false;
        }
        let start = (addr - self.base) as usize;
        if start + buf.len() > self.bytes.len() {
            return false;
        }
        buf.copy_from_slice(&self.bytes[start..start + buf.len()]);
        true
    }
}

fn put_u16(m: &mut [u8], at: usize, v: u16) {
    m[at..at + 2].copy_from_slice(&v.to_le_bytes());
}

fn put_u32(m: &mut [u8], at: usize, v: u32) {
    m[at..at + 4].copy_from_slice(&v.to_le_bytes());
}

const BASE: u64 = 0x1000;

/// A small PE image: `.text` (executable) at RVA 0x200 and `.data` at RVA 0x300.
fn fake_pe() -> FakeMemory {
    let mut m = vec![0u8; 0x400];
    put_u32(&mut m, 0x3C, 0x80);
    put_u32(&mut m, 0x80, 0x0000_4550);
    put_u16(&mut m, 0x86, 2); // number of sections
    put_u16(&mut m, 0x94, 0x10); // optional header size
    let table = 0x84 + 20 + 0x10;
    m[table..table + 8].copy_from_slice(b".text\0\0\0");
    put_u32(&mut m, table + 8, 0x40);
    put_u32(&mut m, table + 12, 0x200);
    put_u32(&mut m, table + 36, 0x6000_0020);
    let sh = table + 40;
    m[sh..sh + 8].copy_from_slice(b".data\0\0\0");
    put_u32(&mut m, sh + 8, 0x40);
    put_u32(&mut m, sh + 12, 0x300);
    put_u32(&mut m, sh + 36, 0xC000_0040);
    // code: mov rax, [rip + 0x100] at RVA 0x210
    m[0x210..0x217].copy_from_slice(&[0x48, 0x8B, 0x05, 0x00, 0x01, 0x00, 0x00]);
    // lea rcx, [rip - 0x20] at RVA 0x220
    m[0x220..0x227].copy_from_slice(&[0x48, 0x8D, 0x0D, 0xE0, 0xFF, 0xFF, 0xFF]);
    FakeMemory { base: BASE, bytes: m }
}

fn image_of(sections: Vec<(u32, Vec<u8>)>) -> ProcessImage {
    ProcessImage {
        base: BASE,
        sections: sections
            .into_iter()
            .map(|(va, data)| SectionInfo {
                name: ".text".to_string(),
                virtual_address: va,
                virtual_size: data.len() as u32,
                data,
            })
            .collect(),
    }
}

#[test]
fn from_remote_reads_executable_sections() {
    let mem = fake_pe();
    let img = ProcessImage::from_remote(&mem, BASE).expect("image");
    assert_eq!(img.base, BASE);
    assert_eq!(img.sections.len(), 1);
    let text = &img.sections[0];
    assert_eq!(text.name, ".text");
    assert_eq!(text.virtual_address, 0x200);
    assert_eq!(text.virtual_size, 0x40);
    assert_eq!(text.data.len(), 0x40);
    assert_eq!(&text.data[0x10..0x13], &[0x48, 0x8B, 0x05]);
}

#[test]
fn from_remote_rejects_missing_pe_signature() {
    let mut mem = fake_pe();
    mem.bytes[0x80] = 0x4D;
    assert!(ProcessImage::from_remote(&mem, BASE).is_none());
    let unreadable = FakeMemory { base: BASE, bytes: vec![0; 0x10] };
    assert!(ProcessImage::from_remote(&unreadable, BASE).is_none());
}

#[test]
fn from_remote_skips_sections_with_no_readable_chunk() {
    let mut mem = fake_pe();
    // move .text beyond the mapped memory
    let table = 0x84 + 20 + 0x10;
    put_u32(&mut mem.bytes, table + 12, 0x10_0000);
    let img = ProcessImage::from_remote(&mem, BASE).expect("image");
    assert_eq!(img.sections.len(), 0);
}

#[test]
fn section_names_are_decoded_and_trimmed() {
    assert_eq!(section_name(b".text\0\0\0"), ".text");
    assert_eq!(section_name(b".UBX1234"), ".UBX1234");
    assert_eq!(section_name(&[0xFF, 0, 0, 0, 0, 0, 0, 0]), "????");
    assert_eq!(section_name(&[0; 8]), "");
}

#[test]
fn code_sections_by_flag_or_name() {
    assert!(is_code_section_name(".text", 0));
    assert!(is_code_section_name(".UBX7", 0));
    assert!(is_code_section_name(".data", 0x2000_0000));
    assert!(!is_code_section_name(".data", 0x4000_0040));
    assert!(!is_code_section_name(".tex", 0));
    assert!(!is_code_section_name(".UB", 0));
}

#[test]
fn section_reads_are_capped() {
    assert_eq!(section_read_size(0x1234), 0x1234);
    assert_eq!(section_read_size(0x2000_0000), 0x1000_0000);
}

#[test]
fn scan_process_image_all_lists_overlapping_matches_in_order() {
    let img = image_of(vec![(0x200, vec![0xAA, 0xAA, 0xAA, 0x00]), (0x300, vec![0x00, 0xAA, 0xAA])]);
    let pat = Pattern::parse("AA AA");
    assert_eq!(pat.scan_process_image_all(&img), vec![0x1200, 0x1201, 0x1301]);
    assert_eq!(pat.scan_process_image(&img), Some(0x1200));
    assert_eq!(Pattern::parse("BB").scan_process_image(&img), None);
    assert!(Pattern(vec![]).scan_process_image_all(&img).is_empty());
}

#[test]
fn find_xrefs_finds_rip_relative_references() {
    let mem = fake_pe();
    let img = ProcessImage::from_remote(&mem, BASE).expect("image");
    // mov at 0x1210: rip = 0x1217, + 0x100
    assert_eq!(Pattern::find_xrefs(&img, 0x1317), vec![(0x1210, 0x1317)]);
    // lea at 0x1220: rip = 0x1227, - 0x20
    assert_eq!(Pattern::find_xrefs(&img, 0x1207), vec![(0x1220, 0x1207)]);
    assert!(Pattern::find_xrefs(&img, 0x9999).is_empty());
}

fn sig(pattern: &'static str, resolve: Resolve) -> SigEntry {
    SigEntry { name: "TEST", pattern, resolve }
}

#[test]
fn scan_and_resolve_direct_and_offset() {
    let mem = fake_pe();
    let img = ProcessImage::from_remote(&mem, BASE).expect("image");
    let r = sig("48 8B 05", Resolve::Direct).scan_and_resolve(&img, &mem).expect("match");
    assert_eq!((r.match_va, r.resolved_va, r.match_rva, r.resolved_rva), (0x1210, 0x1210, 0x210, 0x210));
    let r = sig("48 8B 05", Resolve::Offset { delta: -0x10 }).scan_and_resolve(&img, &mem).unwrap();
    assert_eq!((r.resolved_va, r.resolved_rva), (0x1200, 0x200));
    let r = sig("48 8B 05", Resolve::Offset { delta: -0x2000 }).scan_and_resolve(&img, &mem).unwrap();
    assert_eq!(r.resolved_va, 0xFFFF_FFFF_FFFF_F210);
    assert_eq!(r.resolved_rva, 0xFFFF_E210);
    assert!(sig("12 34 56", Resolve::Direct).scan_and_resolve(&img, &mem).is_none());
}

#[test]
fn scan_and_resolve_rip_relative() {
    let mem = fake_pe();
    let img = ProcessImage::from_remote(&mem, BASE).expect("image");
    let r = sig("48 8B 05 ?? ?? ?? ??", Resolve::RipRel { disp_offset: 3, instr_len: 7 })
        .scan_and_resolve(&img, &mem)
        .expect("match");
    assert_eq!(r.match_va, 0x1210);
    assert_eq!(r.resolved_va, 0x1317);
    assert_eq!(r.resolved_rva, 0x317);
    let r = sig("48 8D 0D", Resolve::RipRel { disp_offset: 3, instr_len: 7 })
        .scan_and_resolve(&img, &mem)
        .expect("match");
    assert_eq!(r.resolved_va, 0x1207);
}

#[test]
fn scan_and_resolve_reads_through_reader_when_not_local() {
    let mem = fake_pe();
    // only the first 0x18 bytes of .text are held locally
    let mut img = ProcessImage::from_remote(&mem, BASE).expect("image");
    img.sections[0].data.truncate(0x14);
    let r = sig("48 8B 05", Resolve::RipRel { disp_offset: 3, instr_len: 7 })
        .scan_and_resolve(&img, &mem)
        .expect("match");
    assert_eq!(r.resolved_va, 0x1317);
    // nothing readable at all: no result
    let empty = FakeMemory { base: 0, bytes: vec![] };
    assert!(sig("48 8B 05", Resolve::ReadU32 { offset: 3 }).scan_and_resolve(&img, &empty).is_none());
}

#[test]
fn scan_and_resolve_read_u32_reads_the_raw_u32() {
    let mem = fake_pe();
    let img = ProcessImage::from_remote(&mem, BASE).expect("image");
    let r = sig("48 8B 05", Resolve::ReadU32 { offset: 3 }).scan_and_resolve(&img, &mem).unwrap();
    assert_eq!(r.resolved_va, 0x100);
    let r = sig("48 8D 0D", Resolve::ReadU32 { offset: 3 }).scan_and_resolve(&img, &mem).unwrap();
    assert_eq!(r.resolved_va, 0xFFFF_FFE0);
}

#[test]
fn read_u32_strategy_zero_extends_high_bit() {
    let img = ProcessImage {
        base: 0x1000,
        sections: vec![SectionInfo {
            name: ".text".to_string(),
            virtual_address: 0x100,
            virtual_size: 5,
            data: vec![0xAB, 0x00, 0x00, 0x00, 0x80],
        }],
    };
    let empty = FakeMemory { base: 0, bytes: vec![] };
    let r = sig("AB", Resolve::ReadU32 { offset: 1 }).scan_and_resolve(&img, &empty).expect("match");
    assert_eq!(r.match_va, 0x1100);
    assert_eq!(r.resolved_va, 0x8000_0000);
}

#[test]
fn find_xrefs_counts_the_immediate_of_group1_ops() {
    let img = ProcessImage {
        base: 0x1000,
        sections: vec![SectionInfo {
            name: ".text".to_string(),
            virtual_address: 0,
            virtual_size: 8,
            data: vec![0x48, 0x83, 0x3D, 0, 0, 0, 0, 0x00],
        }],
    };
    assert_eq!(Pattern::find_xrefs(&img, 0x1008), vec![(0x1000, 0x1008)]);
    assert!(Pattern::find_xrefs(&img, 0x1007).is_empty());
}

#[test]
fn resolve_apply_and_read_address() {
    let rip = Resolve::RipRel { disp_offset: 2, instr_len: 6 };
    assert_eq!(rip.read_address(0x1000), Some(0x1002));
    assert_eq!(rip.apply(0x1000, Some(-6)), Some(0x1000));
    assert_eq!(rip.apply(0x1000, None), None);
    assert_eq!(Resolve::Direct.read_address(0x1000), None);
    assert_eq!(Resolve::Direct.apply(0x1000, None), Some(0x1000));
    assert_eq!(Resolve::ReadU32 { offset: 1 }.apply(0x1000, Some(-1)), Some(0xFFFF_FFFF));
    assert_eq!(Resolve::Offset { delta: 5 }.apply(u64::MAX, None), Some(4));
}

#[test]
fn header_addresses_follow_the_pe_layout() {
    assert_eq!(lfanew_address(0x1000), Some(0x103C));
    assert_eq!(lfanew_address(u64::MAX - 0x3B), None);
    assert_eq!(pe_signature_address(0x1000, 0x80), Some(0x1080));
    assert_eq!(pe_signature_address(u64::MAX, 1), None);
    assert_eq!(pe_coff_address(0x1000, 0x80, 0x4550), Some(0x1084));
    assert_eq!(pe_coff_address(0x1000, 0x80, 0x5A4D), None);
    assert_eq!(pe_coff_address(u64::MAX - 0x82, 0x80, 0x4550), None);
    assert_eq!(section_table_address(0x1084, 0xF0), Some(0x1188));
    assert_eq!(section_table_address(u64::MAX - 20, 1), None);
    assert_eq!(section_header_address(0x1188, 3), Some(0x1188 + 120));
    assert_eq!(section_header_address(u64::MAX - 39, 1), None);
}

#[test]
fn section_entry_keeps_code_sections_of_nonzero_size() {
    let e = section_entry(b".text\0\0\0", 0x40, 0x200, 0).expect("code");
    assert_eq!(e, (".text".to_string(), 0x200, 0x40, 0x40));
    let e = section_entry(b".data\0\0\0", 0x3000_0000, 0x300, 0x2000_0000).expect("flagged");
    assert_eq!(e.3, 0x1000_0000);
    assert!(section_entry(b".data\0\0\0", 0x40, 0x300, 0x4000_0040).is_none());
    assert!(section_entry(b".text\0\0\0", 0, 0x200, 0x2000_0000).is_none());
}

#[test]
fn section_chunks_are_64k() {
    assert_eq!(section_chunk(0x1000, 0x25000, 0), Some((0x1000, 0x10000)));
    assert_eq!(section_chunk(0x1000, 0x25000, 0x20000), Some((0x21000, 0x5000)));
    assert_eq!(section_chunk(u64::MAX, 2, 1), None);
}

#[test]
fn typed_reads_decode_little_endian() {
    let mem = FakeMemory { base: 0x10, bytes: vec![0x34, 0x12, 0xFF, 0xFF, 0xFF, 0xFF] };
    let mut b2 = [0u8; 2];
    assert_eq!(read_u16(&mem, 0x10, &mut b2), Some(0x1234));
    let mut b4 = [0u8; 4];
    assert_eq!(read_u32(&mem, 0x12, &mut b4), Some(0xFFFF_FFFF));
    assert_eq!(read_i32(&mem, 0x12, &mut b4), Some(-1));
    assert_eq!(read_u32(&mem, 0x14, &mut b4), None);
}

/// Memory whose reads fill the buffer with 0xAA and then report failure for
/// addresses in `bad`, success elsewhere.
struct PatchyMemory {
    bad: std::ops::Range<u64>,
}

impl MemoryRead for PatchyMemory {
    fn read_bytes(&self, addr: u64, buf: &mut [u8]) -> bool {
        for b in buf.iter_mut() {
            *b = 0xAA;
        }
        !self.bad.contains(&addr)
    }
}

#[test]
fn read_values_follow_the_read_outcome() {
    assert_eq!(u16_from_read(true, &[0x34, 0x12]), Some(0x1234));
    assert_eq!(u16_from_read(false, &[0x34, 0x12]), None);
    assert_eq!(u32_from_read(true, &[0x50, 0x45, 0, 0]), Some(0x4550));
    assert_eq!(u32_from_read(false, &[0x50, 0x45, 0, 0]), None);
    assert_eq!(i32_from_read(true, &[0xFE, 0xFF, 0xFF, 0xFF]), Some(-2));
    assert_eq!(i32_from_read(false, &[0xFE, 0xFF, 0xFF, 0xFF]), None);
}

#[test]
fn header_entry_skips_a_header_with_a_failed_read() {
    let name: &[u8] = b".text\0\0\0";
    let e = header_entry(Some(name), Some(0x40), Some(0x200), Some(0)).expect("code");
    assert_eq!(e, (".text".to_string(), 0x200, 0x40, 0x40));
    assert!(header_entry(None, Some(0x40), Some(0x200), Some(0)).is_none());
    assert!(header_entry(Some(name), None, Some(0x200), Some(0)).is_none());
    assert!(header_entry(Some(name), Some(0x40), None, Some(0)).is_none());
    assert!(header_entry(Some(name), Some(0x40), Some(0x200), None).is_none());
    let data: &[u8] = b".data\0\0\0";
    assert!(header_entry(Some(data), Some(0x40), Some(0x300), Some(0xC000_0040)).is_none());
}

#[test]
fn section_chunks_are_read_in_64k_pieces() {
    // the second of three chunks fails; reads fill their buffer with 0xAA
    let mem = PatchyMemory { bad: 0x20000..0x20001 };
    let chunks = read_section_chunks(&mem, 0x10000, 0x25000).expect("addresses fit");
    let oks: Vec<bool> = chunks.iter().map(|c| c.ok).collect();
    assert_eq!(oks, vec![true, false, true]);
    let lens: Vec<usize> = chunks.iter().map(|c| c.bytes.len()).collect();
    assert_eq!(lens, vec![0x10000, 0x10000, 0x5000]);
    assert!(read_section_chunks(&mem, 0x5000, 0).expect("empty").is_empty());
    assert!(read_section_chunks(&mem, u64::MAX - 0xFFFF, 0x10001).is_none());
    assert!(read_section_chunks(&mem, u64::MAX - 0x10000, 0x10001).is_some());
}

#[test]
fn failed_chunks_are_placed_as_zeros() {
    let mut data = vec![7u8];
    place_chunk(&mut data, &ChunkRead { ok: true, bytes: vec![1, 2] });
    place_chunk(&mut data, &ChunkRead { ok: false, bytes: vec![3, 4, 5] });
    place_chunk(&mut data, &ChunkRead { ok: true, bytes: vec![6] });
    assert_eq!(data, vec![7, 1, 2, 0, 0, 0, 6]);
}

fn text_header(chunks: Vec<ChunkRead>) -> HeaderReads {
    HeaderReads {
        name: Some(b".text\0\0\0".to_vec()),
        virtual_size: Some(0x40),
        virtual_address: Some(0x200),
        characteristics: Some(0),
        chunks,
    }
}

#[test]
fn sections_without_a_readable_chunk_are_dropped() {
    let h = text_header(vec![
        ChunkRead { ok: false, bytes: vec![9; 2] },
        ChunkRead { ok: true, bytes: vec![1, 2] },
    ]);
    let kept = section_from_reads(&h).expect("one chunk read");
    assert_eq!(kept.name, ".text");
    assert_eq!(kept.virtual_address, 0x200);
    assert_eq!(kept.virtual_size, 0x40);
    assert_eq!(kept.data, vec![0, 0, 1, 2]);
    let h = text_header(vec![ChunkRead { ok: false, bytes: vec![1, 2] }]);
    assert!(section_from_reads(&h).is_none());
    let mut h = text_header(vec![ChunkRead { ok: true, bytes: vec![1] }]);
    h.characteristics = None;
    assert!(section_from_reads(&h).is_none());
}

#[test]
fn kept_sections_keep_table_order() {
    let mut data_header = text_header(vec![ChunkRead { ok: true, bytes: vec![4] }]);
    data_header.name = Some(b".UBX0\0\0\0".to_vec());
    data_header.virtual_address = Some(0x300);
    let skipped = text_header(vec![ChunkRead { ok: false, bytes: vec![5] }]);
    let first = text_header(vec![ChunkRead { ok: true, bytes: vec![3] }]);
    let secs = sections_from_reads(&[first, skipped, data_header]);
    assert_eq!(secs.len(), 2);
    assert_eq!(secs[0].name, ".text");
    assert_eq!(secs[0].data, vec![3]);
    assert_eq!(secs[1].name, ".UBX0");
    assert_eq!(secs[1].virtual_address, 0x300);
    assert_eq!(secs[1].data, vec![4]);
}

#[test]
fn section_headers_are_read_in_order() {
    let mem = fake_pe();
    let table = BASE + 0x84 + 20 + 0x10;
    let hs = read_section_headers(&mem, BASE, table, 2).expect("headers");
    assert_eq!(hs.len(), 2);
    assert_eq!(hs[0].name.as_deref(), Some(&b".text\0\0\0"[..]));
    assert_eq!(hs[0].virtual_address, Some(0x200));
    assert_eq!(hs[0].chunks.len(), 1);
    assert_eq!(hs[0].chunks[0].bytes.len(), 0x40);
    assert_eq!(hs[1].characteristics, Some(0xC000_0040));
    assert!(hs[1].chunks.is_empty());
}

/// Memory that fails the one read made at `bad` and reads `inner` elsewhere.
struct FailAt {
    inner: FakeMemory,
    bad: u64,
}

impl MemoryRead for FailAt {
    fn read_bytes(&self, addr: u64, buf: &mut [u8]) -> bool {
        addr != self.bad && self.inner.read_bytes(addr, buf)
    }
}

#[test]
fn from_remote_skips_only_the_unreadable_header() {
    let table = 0x84 + 20 + 0x10;
    let code_data = || {
        let mut mem = fake_pe();
        // .data is flagged executable too
        put_u32(&mut mem.bytes, table + 40 + 36, 0x6000_0020);
        mem
    };
    for field in [0u64, 8, 12, 36] {
        let reader = FailAt { inner: code_data(), bad: BASE + table as u64 + field };
        let img = ProcessImage::from_remote(&reader, BASE).expect("image");
        assert_eq!(img.sections.len(), 1);
        assert_eq!(img.sections[0].name, ".data");
        assert_eq!(img.sections[0].virtual_address, 0x300);
    }
    let reader = FailAt { inner: code_data(), bad: BASE + 0x1234 };
    let img = ProcessImage::from_remote(&reader, BASE).expect("image");
    assert_eq!(img.sections.len(), 2);
    assert_eq!(img.sections[0].name, ".text");
    assert_eq!(img.sections[1].name, ".data");
    for header_field in [0x3Cu64, 0x80, 0x86, 0x94] {
        let reader = FailAt { inner: code_data(), bad: BASE + header_field };
        assert!(ProcessImage::from_remote(&reader, BASE).is_none());
    }
}

#[test]
fn images_are_checked_against_the_address_space() {
    let img = image_of(vec![(0x200, vec![0; 0x40])]);
    assert!(img.fits_address_space());
    let far = ProcessImage {
        base: u64::MAX - 0x100,
        sections: vec![SectionInfo {
            name: ".text".to_string(),
            virtual_address: 0x80,
            virtual_size: 0x100,
            data: vec![0; 0x100],
        }],
    };
    assert!(!far.fits_address_space());
}

#[test]
fn names_lose_trailing_nuls_only() {
    assert_eq!(trim_nul_string(".text\0\0\0"), ".text");
    assert_eq!(trim_nul_string("\0a\0"), "\0a");
    assert_eq!(trim_nul_string(""), "");
}

#[test]
fn scans_near_the_top_of_the_address_space() {
    // the section's end lies past 2^64, but no computed address does
    let img = ProcessImage {
        base: u64::MAX - 0x20,
        sections: vec![SectionInfo {
            name: ".text".to_string(),
            virtual_address: 0x10,
            virtual_size: 0x20,
            data: vec![0xAB, 0xCD, 0, 0, 0, 0, 0, 0, 0, 0, 0, 0, 0, 0, 0, 0, 0, 0, 0, 0],
        }],
    };
    assert!(!img.fits_address_space());
    let pat = Pattern::parse("AB CD");
    assert_eq!(pat.scan_process_image(&img), Some(u64::MAX - 0x10));
    let short = ProcessImage {
        base: u64::MAX - 0x2,
        sections: vec![SectionInfo {
            name: ".text".to_string(),
            virtual_address: 0,
            virtual_size: 6,
            data: vec![0x48, 0x8B, 0x05, 0, 0, 0],
        }],
    };
    assert!(Pattern::find_xrefs(&short, 0).is_empty());
}
