use gowr_noclip::pattern::Pattern;

fn bytes(p: &Pattern) -> Vec<Option<u8>> {
    p.0.clone()
}

#[test]
fn parse_ida_pattern() {
    let p = Pattern::parse("48 8B 05 ?? ?? ?? ?? 48 85 C0");
    assert_eq!(
        bytes(&p),
        vec![Some(0x48), Some(0x8B), Some(0x05), None, None, None, None, Some(0x48), Some(0x85), Some(0xC0)]
    );
}

#[test]
fn parse_accepts_short_wildcard_plus_sign_and_lowercase() {
    let p = Pattern::parse("? +a ff 0F 00A 7");
    assert_eq!(bytes(&p), vec![None, Some(0x0A), Some(0xFF), Some(0x0F), Some(0x0A), Some(0x07)]);
}

#[test]
fn parse_splits_on_any_unicode_whitespace() {
    let p = Pattern::parse("  48\u{3000}8B\t05\n\u{2003}??  ");
    assert_eq!(bytes(&p), vec![Some(0x48), Some(0x8B), Some(0x05), None]);
}

#[test]
fn parse_empty_text_is_empty_pattern() {
    assert!(bytes(&Pattern::parse("")).is_empty());
    assert!(bytes(&Pattern::parse(" \t ")).is_empty());
}

#[test]
fn try_parse_rejects_invalid_tokens() {
    assert!(Pattern::try_parse("GG").is_none());
    assert!(Pattern::try_parse("48 100").is_none());
    assert!(Pattern::try_parse("+").is_none());
    assert!(Pattern::try_parse("-5").is_none());
    assert!(Pattern::try_parse("???").is_none());
    assert!(Pattern::try_parse("4?").is_none());
    assert!(Pattern::try_parse("48 8B").is_some());
}

#[test]
fn to_ida_string_formats_upper_case_pairs() {
    let p = Pattern(vec![Some(0x48), Some(0x0A), None, Some(0xFF), Some(0x00)]);
    assert_eq!(p.to_ida_string(), "48 0A ?? FF 00");
    assert_eq!(Pattern(vec![]).to_ida_string(), "");
    assert_eq!(Pattern(vec![None]).to_ida_string(), "??");
}

#[test]
fn ida_string_reads_back_to_the_same_pattern() {
    let p = Pattern(vec![Some(0xE8), None, None, None, None, Some(0x90), Some(0x7F)]);
    let text = p.to_ida_string();
    assert_eq!(bytes(&Pattern::parse(&text)), bytes(&p));
}

#[test]
fn scan_slice_finds_first_match() {
    let p = Pattern::parse("AA ?? AA");
    let data = [0x00, 0xAA, 0x01, 0xAA, 0x02, 0xAA];
    assert_eq!(p.scan_slice(&data), Some(1));
    assert_eq!(p.scan_from(&data, 2), Some(3));
    assert_eq!(p.scan_from(&data, 4), None);
}

#[test]
fn scan_slice_no_match_cases() {
    let p = Pattern::parse("AA BB");
    assert_eq!(p.scan_slice(&[0xAA]), None);
    assert_eq!(p.scan_slice(&[0xBB, 0xAA]), None);
    assert_eq!(Pattern(vec![]).scan_slice(&[1, 2, 3]), None);
    assert_eq!(Pattern::parse("??").scan_slice(&[]), None);
    assert_eq!(Pattern::parse("??").scan_slice(&[7]), Some(0));
}

#[test]
fn generate_wildcards_near_call_and_jmp() {
    let p = Pattern::generate(&[0x90, 0xE8, 1, 2, 3, 4, 0xE9, 5, 6, 7, 8, 0xC3]);
    assert_eq!(p.to_ida_string(), "90 E8 ?? ?? ?? ?? E9 ?? ?? ?? ?? C3");
}

#[test]
fn generate_wildcards_rex_mov_lea_rip_relative() {
    let p = Pattern::generate(&[0x48, 0x8B, 0x05, 1, 2, 3, 4, 0x4C, 0x8D, 0x0D, 9, 9, 9, 9]);
    assert_eq!(p.to_ida_string(), "48 8B 05 ?? ?? ?? ?? 4C 8D 0D ?? ?? ?? ??");
    // ModRM without RIP-relative addressing keeps every byte
    let q = Pattern::generate(&[0x48, 0x8B, 0x45, 1, 2, 3, 4]);
    assert_eq!(q.to_ida_string(), "48 8B 45 01 02 03 04");
}

#[test]
fn generate_wildcards_sse_rip_relative() {
    let p = Pattern::generate(&[0xF3, 0x0F, 0x10, 0x05, 1, 2, 3, 4, 0x0F, 0x28, 0x05, 5, 6, 7, 8]);
    assert_eq!(p.to_ida_string(), "F3 0F 10 05 ?? ?? ?? ?? 0F 28 05 ?? ?? ?? ??");
    // 0F with an opcode that takes no ModRM is kept as is
    let q = Pattern::generate(&[0x0F, 0x05, 0x05, 1, 2, 3, 4]);
    assert_eq!(q.to_ida_string(), "0F 05 05 01 02 03 04");
}

#[test]
fn generate_keeps_truncated_instructions() {
    let p = Pattern::generate(&[0xE8, 1, 2, 3]);
    assert_eq!(p.to_ida_string(), "E8 01 02 03");
    assert!(bytes(&Pattern::generate(&[])).is_empty());
}

#[test]
fn generated_pattern_matches_its_source_first() {
    let src = [0x55, 0x48, 0x8B, 0x05, 0x10, 0x20, 0x30, 0x40, 0xE8, 0, 0, 0, 0, 0xC3];
    let p = Pattern::generate(&src);
    assert_eq!(bytes(&p).len(), src.len());
    assert_eq!(p.scan_slice(&src), Some(0));
}

#[test]
fn printed_text_parses_and_prints_back() {
    for text in ["", "??", "48 8B 05 ?? ?? ?? ?? 48 85 C0", "0A FF 00"] {
        assert_eq!(Pattern::parse(text).to_ida_string(), text);
    }
}
